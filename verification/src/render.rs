//! Rendering a changelog back to markdown.
use vstd::prelude::*;
use crate::model::{
    Category, Changelog, ChangelogView, Entry, EntryView, Version, VersionView, category_name,
    category_order, versions_view,
};
use crate::version::{names_unreleased, of_category};

verus! {

// ---------------------------------------------------------------------------
// Specifications
// ---------------------------------------------------------------------------
/// The entry lines `- description` of `es`.
pub open spec fn render_items(es: Seq<EntryView>) -> Seq<char>
    decreases es.len(),
{
    if es.len() == 0 {
        seq![]
    } else {
        render_items(es.drop_last()) + "- "@ + es.last().description + "\n"@
    }
}

/// The section of category `c` for the entries `es`: nothing when none has
/// that category, else a blank line, the `### ` heading, a blank line and
/// the entries in their order.
pub open spec fn render_group(es: Seq<EntryView>, c: Category) -> Seq<char> {
    let g = of_category(es, c);
    if g.len() == 0 {
        seq![]
    } else {
        "\n### "@ + category_name(c) + "\n\n"@ + render_items(g)
    }
}

/// The sections of the first `n` categories in the standard order.
pub open spec fn render_groups(es: Seq<EntryView>, n: int) -> Seq<char>
    decreases n,
{
    if n <= 0 {
        seq![]
    } else {
        render_groups(es, n - 1) + render_group(es, category_order()[n - 1])
    }
}

/// The heading line of a version.
pub open spec fn render_heading(v: VersionView) -> Seq<char> {
    if names_unreleased(v.name) {
        "## [Unreleased]\n"@
    } else {
        match v.date {
            Some(d) => "## ["@ + v.name + "] - "@ + d + "\n"@,
            None => "## ["@ + v.name + "]\n"@,
        }
    }
}

/// One version: a blank line, its heading, and its entries grouped by category.
pub open spec fn render_version(v: VersionView) -> Seq<char> {
    "\n"@ + render_heading(v) + render_groups(v.entries, 6)
}

/// All versions, in order.
pub open spec fn render_versions(vs: Seq<VersionView>) -> Seq<char>
    decreases vs.len(),
{
    if vs.len() == 0 {
        seq![]
    } else {
        render_versions(vs.drop_last()) + render_version(vs.last())
    }
}

/// The title line and the description.
pub open spec fn render_front(c: ChangelogView) -> Seq<char> {
    "# "@ + c.title + "\n"@ + match c.description {
        Some(d) => "\n"@ + d + "\n"@,
        None => seq![],
    }
}

/// What `Changelog::to_markdown` returns.
pub open spec fn render(c: ChangelogView) -> Seq<char> {
    render_front(c) + render_versions(c.versions)
}

// ---------------------------------------------------------------------------
// Executable rendering
// ---------------------------------------------------------------------------
/// Appends the entry lines of `es` to `out`.
fn push_items(out: &mut String, es: &Vec<&Entry>)
    ensures
        final(out)@ == old(out)@ + render_items(es@.map_values(|e: &Entry| e@)),
{
    let ghost start = out@;
    let ghost ev = es@.map_values(|e: &Entry| e@);
    let mut i: usize = 0;
    while i < es.len()
        invariant
            i <= es@.len(),
            ev == es@.map_values(|e: &Entry| e@),
            out@ == start + render_items(ev.take(i as int)),
        decreases es.len() - i,
    {
        assert(ev.take(i + 1).drop_last() == ev.take(i as int));
        assert(ev.take(i + 1).last() == es@[i as int]@);
        out.append("- ");
        out.append(es[i].description.as_str());
        out.append("\n");
        assert(out@ =~= start + render_items(ev.take(i + 1)));
        i = i + 1;
    }
    assert(ev.take(i as int) == ev);
}

/// Appends the category sections of a version to `out`.
#[verifier::rlimit(30)]
fn push_groups(out: &mut String, v: &Version)
    ensures
        final(out)@ == old(out)@ + render_groups(v@.entries, 6),
{
    let ghost start = out@;
    let order = [
        Category::Added,
        Category::Changed,
        Category::Deprecated,
        Category::Removed,
        Category::Fixed,
        Category::Security,
    ];
    let mut i: usize = 0;
    while i < 6
        invariant
            i <= 6,
            order@ == category_order(),
            out@ == start + render_groups(v@.entries, i as int),
        decreases 6 - i,
    {
        let c = order[i];
        let group = v.entries_by_category(c);
        let ghost before = out@;
        if group.len() > 0 {
            out.append("\n### ");
            out.append(c.name());
            out.append("\n\n");
            push_items(out, &group);
        }
        assert(out@ =~= start + render_groups(v@.entries, i + 1));
        i = i + 1;
    }
}

/// Appends one version to `out`.
#[verifier::rlimit(30)]
fn push_version(out: &mut String, v: &Version)
    ensures
        final(out)@ == old(out)@ + render_version(v@),
{
    let ghost start = out@;
    out.append("\n");
    if v.is_unreleased() {
        out.append("## [Unreleased]\n");
    } else {
        match &v.date {
            Some(date) => {
                out.append("## [");
                out.append(v.name.as_str());
                out.append("] - ");
                out.append(date.as_str());
                out.append("\n");
            },
            None => {
                out.append("## [");
                out.append(v.name.as_str());
                out.append("]\n");
            },
        }
    }
    let ghost mid = out@;
    assert(mid =~= start + "\n"@ + render_heading(v@));
    push_groups(out, v);
    assert(out@ =~= start + render_version(v@));
}

impl Changelog {
    /// Render the changelog back to well-formatted Markdown.
    ///
    /// Entries are grouped by category in the standard order:
    /// Added, Changed, Deprecated, Removed, Fixed, Security.
    /// Categories with no entries are omitted.
    #[verifier::rlimit(30)]
    pub fn to_markdown(&self) -> (r: String)
        ensures
            r@ == render(self@),
    {
        let mut out = "# ".to_owned();
        out.append(self.title.as_str());
        out.append("\n");
        match &self.description {
            Some(desc) => {
                out.append("\n");
                out.append(desc.as_str());
                out.append("\n");
            },
            None => {},
        }
        let ghost front = out@;
        assert(front =~= render_front(self@));
        let ghost vs = versions_view(self.versions@);
        let mut i: usize = 0;
        while i < self.versions.len()
            invariant
                i <= self.versions@.len(),
                vs == versions_view(self.versions@),
                out@ == front + render_versions(vs.take(i as int)),
            decreases self.versions.len() - i,
        {
            assert(vs.take(i + 1).drop_last() == vs.take(i as int));
            assert(vs.take(i + 1).last() == self.versions@[i as int]@);
            push_version(&mut out, &self.versions[i]);
            assert(out@ =~= front + render_versions(vs.take(i + 1)));
            i = i + 1;
        }
        assert(vs.take(i as int) == vs);
        out
    }
}

} // verus!
