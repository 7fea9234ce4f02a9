//! The changelog's data types, their mathematical views, the entry
//! categories and the parse error.
use vstd::prelude::*;
use crate::text::{chars_of, eq_ignore_ascii_case, eq_ignore_ascii_case_exec, trim, trim_vec};

verus! {

// ---------------------------------------------------------------------------
// Categories
// ---------------------------------------------------------------------------
/// A changelog entry category following Keep a Changelog conventions.
#[derive(Debug, Clone, Copy, PartialEq, Eq, Hash, Structural)]
pub enum Category {
    /// New features.
    Added,
    /// Changes in existing functionality.
    Changed,
    /// Soon-to-be removed features.
    Deprecated,
    /// Removed features.
    Removed,
    /// Bug fixes.
    Fixed,
    /// Vulnerability fixes.
    Security,
}

/// The name a category is written with.
pub open spec fn category_name(c: Category) -> Seq<char> {
    match c {
        Category::Added => seq!['A', 'd', 'd', 'e', 'd'],
        Category::Changed => seq!['C', 'h', 'a', 'n', 'g', 'e', 'd'],
        Category::Deprecated => seq!['D', 'e', 'p', 'r', 'e', 'c', 'a', 't', 'e', 'd'],
        Category::Removed => seq!['R', 'e', 'm', 'o', 'v', 'e', 'd'],
        Category::Fixed => seq!['F', 'i', 'x', 'e', 'd'],
        Category::Security => seq!['S', 'e', 'c', 'u', 'r', 'i', 't', 'y'],
    }
}

/// The order in which categories are rendered.
pub open spec fn category_order() -> Seq<Category> {
    seq![
        Category::Added,
        Category::Changed,
        Category::Deprecated,
        Category::Removed,
        Category::Fixed,
        Category::Security,
    ]
}

/// The category that `s` names: after trimming, `s` is one of the category
/// names up to case.
///
/// The names hold only ASCII letters other than `k`, and the only characters
/// whose full lower-case mapping is made of ASCII letters are those letters
/// themselves and the Kelvin sign (which maps to `k`); so comparing the
/// lower-cased text with the lower-case name is the same as comparing up to
/// ASCII case.
pub open spec fn category_from(s: Seq<char>) -> Option<Category> {
    let t = trim(s);
    if eq_ignore_ascii_case(t, category_name(Category::Added)) {
        Some(Category::Added)
    } else if eq_ignore_ascii_case(t, category_name(Category::Changed)) {
        Some(Category::Changed)
    } else if eq_ignore_ascii_case(t, category_name(Category::Deprecated)) {
        Some(Category::Deprecated)
    } else if eq_ignore_ascii_case(t, category_name(Category::Removed)) {
        Some(Category::Removed)
    } else if eq_ignore_ascii_case(t, category_name(Category::Fixed)) {
        Some(Category::Fixed)
    } else if eq_ignore_ascii_case(t, category_name(Category::Security)) {
        Some(Category::Security)
    } else {
        None
    }
}

// ---------------------------------------------------------------------------
// Parse errors
// ---------------------------------------------------------------------------
/// Errors that can occur during changelog parsing.
#[derive(Debug, Clone, PartialEq, Eq)]
pub enum ParseError {
    /// The input string was empty.
    EmptyInput,
    /// The input format was invalid.
    InvalidFormat(String),
    /// An unrecognized category was encountered.
    InvalidCategory(String),
}

/// The mathematical value of a [`ParseError`].
pub enum ParseErrorView {
    EmptyInput,
    InvalidFormat(Seq<char>),
    InvalidCategory(Seq<char>),
}

impl View for ParseError {
    type V = ParseErrorView;

    open spec fn view(&self) -> ParseErrorView {
        match self {
            ParseError::EmptyInput => ParseErrorView::EmptyInput,
            ParseError::InvalidFormat(m) => ParseErrorView::InvalidFormat(m@),
            ParseError::InvalidCategory(c) => ParseErrorView::InvalidCategory(c@),
        }
    }
}

/// The human-readable message of an error.
pub open spec fn error_message(e: ParseErrorView) -> Seq<char> {
    match e {
        ParseErrorView::EmptyInput => "input is empty"@,
        ParseErrorView::InvalidFormat(m) => "invalid format: "@ + m,
        ParseErrorView::InvalidCategory(c) => "invalid category: "@ + c,
    }
}

// ---------------------------------------------------------------------------
// Entries, versions, changelogs
// ---------------------------------------------------------------------------
/// A single changelog entry with a category and description.
#[derive(Debug, Clone, PartialEq, Eq)]
pub struct Entry {
    /// The category this entry belongs to.
    pub category: Category,
    /// The description text of the entry.
    pub description: String,
}

/// A version section in the changelog.
#[derive(Debug, Clone, PartialEq, Eq)]
pub struct Version {
    /// The version name, e.g. `"0.1.0"` or `"Unreleased"`.
    pub name: String,
    /// The release date in `YYYY-MM-DD` format, or `None` for Unreleased.
    pub date: Option<String>,
    /// The entries in this version section.
    pub entries: Vec<Entry>,
}

/// A parsed changelog document.
#[derive(Debug, Clone, PartialEq, Eq)]
pub struct Changelog {
    /// The title of the changelog (usually `"Changelog"`).
    pub title: String,
    /// Optional preamble/description text after the title.
    pub description: Option<String>,
    /// The version sections, ordered from newest to oldest.
    pub versions: Vec<Version>,
}

/// The mathematical value of an [`Entry`].
#[verifier::ext_equal]
pub struct EntryView {
    pub category: Category,
    pub description: Seq<char>,
}

/// The mathematical value of a [`Version`].
#[verifier::ext_equal]
pub struct VersionView {
    pub name: Seq<char>,
    pub date: Option<Seq<char>>,
    pub entries: Seq<EntryView>,
}

/// The mathematical value of a [`Changelog`].
#[verifier::ext_equal]
pub struct ChangelogView {
    pub title: Seq<char>,
    pub description: Option<Seq<char>>,
    pub versions: Seq<VersionView>,
}

/// The characters of an optional string.
pub open spec fn opt_view(o: Option<String>) -> Option<Seq<char>> {
    match o {
        Some(s) => Some(s@),
        None => None,
    }
}

impl View for Entry {
    type V = EntryView;

    open spec fn view(&self) -> EntryView {
        EntryView { category: self.category, description: self.description@ }
    }
}

/// The views of a sequence of entries.
pub open spec fn entries_view(es: Seq<Entry>) -> Seq<EntryView> {
    es.map_values(|e: Entry| e@)
}

impl View for Version {
    type V = VersionView;

    open spec fn view(&self) -> VersionView {
        VersionView {
            name: self.name@,
            date: opt_view(self.date),
            entries: entries_view(self.entries@),
        }
    }
}

/// The views of a sequence of versions.
pub open spec fn versions_view(vs: Seq<Version>) -> Seq<VersionView> {
    vs.map_values(|v: Version| v@)
}

impl View for Changelog {
    type V = ChangelogView;

    open spec fn view(&self) -> ChangelogView {
        ChangelogView {
            title: self.title@,
            description: opt_view(self.description),
            versions: versions_view(self.versions@),
        }
    }
}

// ---------------------------------------------------------------------------
// Executable category functions
// ---------------------------------------------------------------------------
impl Category {
    /// The name of the category as it is written in headings.
    pub fn name(&self) -> (r: &'static str)
        ensures
            r@ == category_name(*self),
    {
        match self {
            Category::Added => {
                proof {
                    reveal_strlit("Added");
                }
                "Added"
            },
            Category::Changed => {
                proof {
                    reveal_strlit("Changed");
                }
                "Changed"
            },
            Category::Deprecated => {
                proof {
                    reveal_strlit("Deprecated");
                }
                "Deprecated"
            },
            Category::Removed => {
                proof {
                    reveal_strlit("Removed");
                }
                "Removed"
            },
            Category::Fixed => {
                proof {
                    reveal_strlit("Fixed");
                }
                "Fixed"
            },
            Category::Security => {
                proof {
                    reveal_strlit("Security");
                }
                "Security"
            },
        }
    }

    /// The category's name as a `String`.
    pub fn to_string(&self) -> (r: String)
        ensures
            r@ == category_name(*self),
    {
        self.name().to_owned()
    }
}

/// The category that the characters `s` name (see [`category_from`]).
pub fn category_from_chars(s: &Vec<char>) -> (r: Option<Category>)
    ensures
        r == category_from(s@),
{
    let t = trim_vec(s);
    let all = [
        Category::Added,
        Category::Changed,
        Category::Deprecated,
        Category::Removed,
        Category::Fixed,
        Category::Security,
    ];
    let mut i: usize = 0;
    while i < 6
        invariant
            0 <= i <= 6,
            t@ == trim(s@),
            all@ == category_order(),
            forall|k: int|
                0 <= k < i ==> !eq_ignore_ascii_case(t@, category_name(#[trigger] category_order()[k])),
        decreases 6 - i,
    {
        let c = all[i];
        let name = chars_of(c.name());
        if eq_ignore_ascii_case_exec(&t, name.as_slice()) {
            assert(category_order()[i as int] == c);
            assert(category_order()[0] == Category::Added);
            assert(category_order()[1] == Category::Changed);
            assert(category_order()[2] == Category::Deprecated);
            assert(category_order()[3] == Category::Removed);
            assert(category_order()[4] == Category::Fixed);
            return Some(c);
        }
        i = i + 1;
    }
    assert(category_order()[0] == Category::Added);
    assert(category_order()[1] == Category::Changed);
    assert(category_order()[2] == Category::Deprecated);
    assert(category_order()[3] == Category::Removed);
    assert(category_order()[4] == Category::Fixed);
    assert(category_order()[5] == Category::Security);
    None
}

/// Parses a category name, ignoring surrounding whitespace and case.
/// Fails with `InvalidCategory` holding the input unchanged.
pub fn parse_category(s: &str) -> (r: Result<Category, ParseError>)
    ensures
        match category_from(s@) {
            Some(c) => r == Ok::<Category, ParseError>(c),
            None => r matches Err(ParseError::InvalidCategory(m)) && m@ == s@,
        },
{
    let cs = chars_of(s);
    match category_from_chars(&cs) {
        Some(c) => Ok(c),
        None => Err(ParseError::InvalidCategory(s.to_owned())),
    }
}

impl core::str::FromStr for Category {
    type Err = ParseError;

    fn from_str(s: &str) -> (r: Result<Self, Self::Err>)
        ensures
            match category_from(s@) {
                Some(c) => r == Ok::<Category, ParseError>(c),
                None => r matches Err(ParseError::InvalidCategory(m)) && m@ == s@,
            },
    {
        parse_category(s)
    }
}

impl ParseError {
    /// The human-readable message of the error.
    pub fn to_string(&self) -> (r: String)
        ensures
            r@ == error_message(self@),
    {
        match self {
            ParseError::EmptyInput => "input is empty".to_owned(),
            ParseError::InvalidFormat(m) => {
                let mut r = "invalid format: ".to_owned();
                r.append(m.as_str());
                r
            },
            ParseError::InvalidCategory(c) => {
                let mut r = "invalid category: ".to_owned();
                r.append(c.as_str());
                r
            },
        }
    }
}

} // verus!
