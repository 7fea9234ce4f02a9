//! Queries and edits on versions and changelogs.
use vstd::prelude::*;
use crate::model::{
    Category, Changelog, Entry, EntryView, Version, VersionView, entries_view, versions_view,
};
use crate::text::{
    chars_of, eq_ignore_ascii_case, eq_ignore_ascii_case_exec, first_where, lemma_first_where_none,
    lemma_first_where_some,
};

verus! {

// ---------------------------------------------------------------------------
// Specifications
// ---------------------------------------------------------------------------
/// The name of the section for changes not yet released.
pub open spec fn unreleased_name() -> Seq<char> {
    seq!['U', 'n', 'r', 'e', 'l', 'e', 'a', 's', 'e', 'd']
}

/// A version with this name is the Unreleased section (the name is
/// "Unreleased" up to ASCII case).
pub open spec fn names_unreleased(name: Seq<char>) -> bool {
    eq_ignore_ascii_case(name, unreleased_name())
}

/// The entries of `es` in category `c`, in their order.
pub open spec fn of_category(es: Seq<EntryView>, c: Category) -> Seq<EntryView>
    decreases es.len(),
{
    if es.len() == 0 {
        seq![]
    } else if es.last().category == c {
        of_category(es.drop_last(), c).push(es.last())
    } else {
        of_category(es.drop_last(), c)
    }
}

/// The entries of `es` that do not occur in `others`, in their order.
pub open spec fn not_in(es: Seq<EntryView>, others: Seq<EntryView>) -> Seq<EntryView>
    decreases es.len(),
{
    if es.len() == 0 {
        seq![]
    } else if others.contains(es.last()) {
        not_in(es.drop_last(), others)
    } else {
        not_in(es.drop_last(), others).push(es.last())
    }
}

/// The version at `i` has the name `name`.
pub open spec fn named_at(vs: Seq<VersionView>, i: int, name: Seq<char>) -> bool {
    vs[i].name == name
}

/// The version at `i` is an Unreleased section.
pub open spec fn unreleased_at(vs: Seq<VersionView>, i: int) -> bool {
    names_unreleased(vs[i].name)
}

/// The version at `i` is a released one.
pub open spec fn released_at(vs: Seq<VersionView>, i: int) -> bool {
    !names_unreleased(vs[i].name)
}

/// The position of the first version named exactly `name`.
pub open spec fn version_index(vs: Seq<VersionView>, name: Seq<char>) -> Option<int> {
    first_where(vs.len() as int, |i: int| named_at(vs, i, name))
}

/// The position of the first Unreleased section.
pub open spec fn unreleased_index(vs: Seq<VersionView>) -> Option<int> {
    first_where(vs.len() as int, |i: int| unreleased_at(vs, i))
}

/// The position of the first released version.
pub open spec fn latest_index(vs: Seq<VersionView>) -> Option<int> {
    first_where(vs.len() as int, |i: int| released_at(vs, i))
}

/// `v` with `e` appended to its entries.
pub open spec fn with_entry(v: VersionView, e: EntryView) -> VersionView {
    VersionView { entries: v.entries.push(e), ..v }
}

/// The versions after adding entry `e` to the version named `name`: the
/// first version of exactly that name gets it. Without one, a name that is
/// "Unreleased" up to case sends it to the Unreleased section, and where
/// there is none a new one holding just `e` goes first; any other name gets
/// a new version holding just `e` at the end.
pub open spec fn add_entry_spec(vs: Seq<VersionView>, name: Seq<char>, e: EntryView) -> Seq<
    VersionView,
> {
    let nv = VersionView { name: name, date: None, entries: seq![e] };
    match version_index(vs, name) {
        Some(i) => vs.update(i, with_entry(vs[i], e)),
        None => if names_unreleased(name) {
            match unreleased_index(vs) {
                Some(j) => vs.update(j, with_entry(vs[j], e)),
                None => seq![nv] + vs,
            }
        } else {
            vs.push(nv)
        },
    }
}

/// The versions after releasing: the first Unreleased section takes the
/// new name and date, and a new empty "Unreleased" section goes first.
pub open spec fn release_spec(vs: Seq<VersionView>, name: Seq<char>, date: Seq<char>) -> Seq<
    VersionView,
> {
    let renamed = match unreleased_index(vs) {
        Some(i) => vs.update(i, VersionView { name: name, date: Some(date), entries: vs[i].entries }),
        None => vs,
    };
    seq![VersionView { name: unreleased_name(), date: None, entries: seq![] }] + renamed
}

/// The entries of category `c` of all the versions `vs`, version by version.
pub open spec fn all_of_category(vs: Seq<VersionView>, c: Category) -> Seq<EntryView>
    decreases vs.len(),
{
    if vs.len() == 0 {
        seq![]
    } else {
        all_of_category(vs.drop_last(), c) + of_category(vs.last().entries, c)
    }
}

/// The entries that `diff` reports: those of the version named `v2` that do
/// not occur in the version named `v1`, or `None` if either is missing.
pub open spec fn diff_spec(vs: Seq<VersionView>, v1: Seq<char>, v2: Seq<char>) -> Option<
    Seq<EntryView>,
> {
    match (version_index(vs, v1), version_index(vs, v2)) {
        (Some(i), Some(j)) => Some(not_in(vs[j].entries, vs[i].entries)),
        _ => None,
    }
}

// ---------------------------------------------------------------------------
// Helpers
// ---------------------------------------------------------------------------
/// Whether `name` is "Unreleased" up to ASCII case.
pub fn is_unreleased_name(name: &str) -> (b: bool)
    ensures
        b == names_unreleased(name@),
{
    let cs = chars_of(name);
    let target = chars_of("Unreleased");
    proof {
        reveal_strlit("Unreleased");
    }
    eq_ignore_ascii_case_exec(&cs, target.as_slice())
}

/// A fresh copy of an entry.
pub fn copy_entry(e: &Entry) -> (r: Entry)
    ensures
        r@ == e@,
{
    Entry { category: e.category, description: e.description.clone() }
}

proof fn lemma_entries_view_push(es: Seq<Entry>, e: Entry)
    ensures
        entries_view(es.push(e)) == entries_view(es).push(e@),
{
    assert(entries_view(es.push(e)) =~= entries_view(es).push(e@));
}

// ---------------------------------------------------------------------------
// Versions
// ---------------------------------------------------------------------------
impl Version {
    /// Returns `true` if this is the Unreleased section.
    pub fn is_unreleased(&self) -> (b: bool)
        ensures
            b == names_unreleased(self.name@),
    {
        is_unreleased_name(self.name.as_str())
    }

    /// Returns entries matching the given category.
    pub fn entries_by_category(&self, category: Category) -> (r: Vec<&Entry>)
        ensures
            r@.map_values(|e: &Entry| e@) == of_category(self@.entries, category),
    {
        let mut r: Vec<&Entry> = Vec::new();
        let mut i: usize = 0;
        while i < self.entries.len()
            invariant
                i <= self.entries@.len(),
                r@.map_values(|e: &Entry| e@) == of_category(
                    entries_view(self.entries@).take(i as int),
                    category,
                ),
            decreases self.entries.len() - i,
        {
            let ghost es = entries_view(self.entries@);
            assert(es.take(i + 1).drop_last() == es.take(i as int));
            let e = &self.entries[i];
            if e.category == category {
                r.push(e);
            }
            assert(r@.map_values(|e: &Entry| e@) =~= of_category(es.take(i + 1), category));
            i = i + 1;
        }
        assert(entries_view(self.entries@).take(i as int) == entries_view(self.entries@));
        r
    }

    /// Adds an entry to this version.
    pub fn add_entry(&mut self, category: Category, description: &str)
        ensures
            final(self)@ == with_entry(
                old(self)@,
                EntryView { category: category, description: description@ },
            ),
    {
        let ghost old_entries = self.entries@;
        self.entries.push(Entry { category, description: description.to_owned() });
        proof {
            lemma_entries_view_push(
                old_entries,
                Entry { category, description: self.entries@.last().description },
            );
        }
        assert(self@ =~= with_entry(
            old(self)@,
            EntryView { category: category, description: description@ },
        ));
    }
}

// ---------------------------------------------------------------------------
// Searching the versions
// ---------------------------------------------------------------------------
/// The position of the first version named `name`.
fn find_named(vs: &Vec<Version>, name: &str) -> (r: Option<usize>)
    ensures
        r matches Some(i) ==> version_index(versions_view(vs@), name@) == Some(i as int)
            && i < vs@.len(),
        r is None ==> version_index(versions_view(vs@), name@) is None,
{
    let ghost w = versions_view(vs@);
    let target = name.to_owned();
    let mut i: usize = 0;
    while i < vs.len()
        invariant
            i <= vs@.len(),
            w == versions_view(vs@),
            target@ == name@,
            forall|j: int| 0 <= j < i ==> !named_at(w, j, name@),
        decreases vs.len() - i,
    {
        if vs[i].name == target {
            proof {
                let p = |k: int| named_at(w, k, name@);
                assert(p(i as int));
                lemma_first_where_some(w.len() as int, p, i as int);
            }
            return Some(i);
        }
        i = i + 1;
    }
    proof {
        let p = |k: int| named_at(w, k, name@);
        lemma_first_where_none(w.len() as int, p);
    }
    None
}

/// The position of the first Unreleased section.
fn find_unreleased(vs: &Vec<Version>) -> (r: Option<usize>)
    ensures
        r matches Some(i) ==> unreleased_index(versions_view(vs@)) == Some(i as int) && i
            < vs@.len(),
        r is None ==> unreleased_index(versions_view(vs@)) is None,
{
    let ghost w = versions_view(vs@);
    let mut i: usize = 0;
    while i < vs.len()
        invariant
            i <= vs@.len(),
            w == versions_view(vs@),
            forall|j: int| 0 <= j < i ==> !unreleased_at(w, j),
        decreases vs.len() - i,
    {
        if vs[i].is_unreleased() {
            proof {
                let p = |k: int| unreleased_at(w, k);
                assert(p(i as int));
                lemma_first_where_some(w.len() as int, p, i as int);
            }
            return Some(i);
        }
        i = i + 1;
    }
    proof {
        let p = |k: int| unreleased_at(w, k);
        lemma_first_where_none(w.len() as int, p);
    }
    None
}

/// The position of the first released version.
fn find_released(vs: &Vec<Version>) -> (r: Option<usize>)
    ensures
        r matches Some(i) ==> latest_index(versions_view(vs@)) == Some(i as int) && i
            < vs@.len(),
        r is None ==> latest_index(versions_view(vs@)) is None,
{
    let ghost w = versions_view(vs@);
    let mut i: usize = 0;
    while i < vs.len()
        invariant
            i <= vs@.len(),
            w == versions_view(vs@),
            forall|j: int| 0 <= j < i ==> !released_at(w, j),
        decreases vs.len() - i,
    {
        if !vs[i].is_unreleased() {
            proof {
                let p = |k: int| released_at(w, k);
                assert(p(i as int));
                lemma_first_where_some(w.len() as int, p, i as int);
            }
            return Some(i);
        }
        i = i + 1;
    }
    proof {
        let p = |k: int| released_at(w, k);
        lemma_first_where_none(w.len() as int, p);
    }
    None
}

// ---------------------------------------------------------------------------
// Changelog queries and edits
// ---------------------------------------------------------------------------
impl Changelog {
    /// Find a version by name.
    pub fn get_version(&self, name: &str) -> (r: Option<&Version>)
        ensures
            match version_index(self@.versions, name@) {
                Some(i) => r matches Some(v) && *v == self.versions@[i],
                None => r is None,
            },
    {
        match find_named(&self.versions, name) {
            Some(i) => Some(&self.versions[i]),
            None => None,
        }
    }

    /// Returns a slice of all versions.
    pub fn versions(&self) -> (r: &[Version])
        ensures
            r@ == self.versions@,
    {
        self.versions.as_slice()
    }

    /// Returns the first non-Unreleased version (the latest release).
    pub fn latest_version(&self) -> (r: Option<&Version>)
        ensures
            match latest_index(self@.versions) {
                Some(i) => r matches Some(v) && *v == self.versions@[i],
                None => r is None,
            },
    {
        match find_released(&self.versions) {
            Some(i) => Some(&self.versions[i]),
            None => None,
        }
    }

    /// Returns the Unreleased section, if present.
    pub fn unreleased(&self) -> (r: Option<&Version>)
        ensures
            match unreleased_index(self@.versions) {
                Some(i) => r matches Some(v) && *v == self.versions@[i],
                None => r is None,
            },
    {
        match find_unreleased(&self.versions) {
            Some(i) => Some(&self.versions[i]),
            None => None,
        }
    }

    /// Add an entry to the specified version. Creates the version if it
    /// does not already exist. If `version` is `"Unreleased"`, adds to (or
    /// creates) the Unreleased section at the top.
    ///
    /// A version named exactly `version` takes the entry first; failing
    /// that, a `version` that is "Unreleased" in any ASCII case goes to the
    /// first section that [`Version::is_unreleased`] recognises.
    #[verifier::rlimit(30)]
    pub fn add_entry(&mut self, version: &str, category: Category, description: &str)
        ensures
            final(self)@.title == old(self)@.title,
            final(self)@.description == old(self)@.description,
            final(self)@.versions == add_entry_spec(
                old(self)@.versions,
                version@,
                EntryView { category: category, description: description@ },
            ),
    {
        let ghost e = EntryView { category: category, description: description@ };
        match find_named(&self.versions, version) {
            Some(i) => {
                self.versions[i].add_entry(category, description);
                assert(versions_view(self.versions@) =~= versions_view(old(self).versions@).update(
                    i as int,
                    with_entry(versions_view(old(self).versions@)[i as int], e),
                ));
            },
            None => {
                let is_unreleased = is_unreleased_name(version);
                if is_unreleased {
                    if let Some(j) = find_unreleased(&self.versions) {
                        self.versions[j].add_entry(category, description);
                        assert(versions_view(self.versions@) =~= versions_view(
                            old(self).versions@,
                        ).update(j as int, with_entry(versions_view(old(self).versions@)[j as int], e)));
                        return;
                    }
                }
                let mut entries: Vec<Entry> = Vec::new();
                entries.push(Entry { category, description: description.to_owned() });
                let new_version = Version { name: version.to_owned(), date: None, entries };
                assert(new_version@ =~= VersionView { name: version@, date: None, entries: seq![e] });
                if is_unreleased {
                    self.versions.insert(0, new_version);
                    assert(versions_view(self.versions@) =~= seq![new_version@] + versions_view(
                        old(self).versions@,
                    ));
                } else {
                    self.versions.push(new_version);
                    assert(versions_view(self.versions@) =~= versions_view(old(self).versions@).push(
                        new_version@,
                    ));
                }
            },
        }
    }

    /// Promote the Unreleased section to a named version with the given date,
    /// then create a new empty Unreleased section at the top.
    #[verifier::rlimit(30)]
    pub fn release(&mut self, version: &str, date: &str)
        ensures
            final(self)@.title == old(self)@.title,
            final(self)@.description == old(self)@.description,
            final(self)@.versions == release_spec(old(self)@.versions, version@, date@),
    {
        let ghost vs = versions_view(self.versions@);
        if let Some(i) = find_unreleased(&self.versions) {
            self.versions[i].name = version.to_owned();
            self.versions[i].date = Some(date.to_owned());
            assert(versions_view(self.versions@) =~= vs.update(
                i as int,
                VersionView { name: version@, date: Some(date@), entries: vs[i as int].entries },
            ));
        }
        let ghost mid = versions_view(self.versions@);
        let fresh = Version { name: "Unreleased".to_owned(), date: None, entries: Vec::new() };
        proof {
            reveal_strlit("Unreleased");
        }
        assert(fresh@ =~= VersionView { name: unreleased_name(), date: None, entries: seq![] });
        self.versions.insert(0, fresh);
        assert(versions_view(self.versions@) =~= seq![fresh@] + mid);
    }

    /// Get all entries matching a category across all versions, newest
    /// version first and in their order within each version.
    #[verifier::rlimit(30)]
    pub fn filter_by_category(&self, category: Category) -> (r: Vec<&Entry>)
        ensures
            r@.map_values(|e: &Entry| e@) == all_of_category(self@.versions, category),
    {
        let ghost vs = versions_view(self.versions@);
        let mut r: Vec<&Entry> = Vec::new();
        let mut i: usize = 0;
        while i < self.versions.len()
            invariant
                i <= self.versions@.len(),
                vs == versions_view(self.versions@),
                r@.map_values(|e: &Entry| e@) == all_of_category(vs.take(i as int), category),
            decreases self.versions.len() - i,
        {
            assert(vs.take(i + 1).drop_last() == vs.take(i as int));
            assert(vs.take(i + 1).last() == self.versions@[i as int]@);
            let group = self.versions[i].entries_by_category(category);
            let ghost before = r@;
            let mut k: usize = 0;
            while k < group.len()
                invariant
                    k <= group@.len(),
                    r@ == before + group@.take(k as int),
                decreases group.len() - k,
            {
                r.push(group[k]);
                assert(group@.take(k + 1) == group@.take(k as int).push(group@[k as int]));
                assert(r@ =~= before + group@.take(k + 1));
                k = k + 1;
            }
            assert(group@.take(k as int) == group@);
            assert(r@.map_values(|e: &Entry| e@) =~= before.map_values(|e: &Entry| e@)
                + group@.map_values(|e: &Entry| e@));
            i = i + 1;
        }
        assert(vs.take(i as int) == vs);
        r
    }

    /// Return entries that exist in `v2` but not in `v1`.
    ///
    /// Returns `None` if either version is not found.
    #[verifier::rlimit(30)]
    pub fn diff(&self, v1: &str, v2: &str) -> (r: Option<Vec<Entry>>)
        ensures
            match diff_spec(self@.versions, v1@, v2@) {
                Some(d) => r matches Some(es) && entries_view(es@) == d,
                None => r is None,
            },
    {
        let i = match find_named(&self.versions, v1) {
            Some(i) => i,
            None => return None,
        };
        let j = match find_named(&self.versions, v2) {
            Some(j) => j,
            None => return None,
        };
        let ver1 = &self.versions[i];
        let ver2 = &self.versions[j];
        let ghost old_es = entries_view(ver1.entries@);
        let ghost new_es = entries_view(ver2.entries@);
        let mut out: Vec<Entry> = Vec::new();
        let mut k: usize = 0;
        while k < ver2.entries.len()
            invariant
                k <= ver2.entries@.len(),
                old_es == entries_view(ver1.entries@),
                new_es == entries_view(ver2.entries@),
                entries_view(out@) == not_in(new_es.take(k as int), old_es),
            decreases ver2.entries.len() - k,
        {
            assert(new_es.take(k + 1).drop_last() == new_es.take(k as int));
            let e = &ver2.entries[k];
            if !contains_entry(&ver1.entries, e) {
                let c = copy_entry(e);
                let ghost before = out@;
                out.push(c);
                proof {
                    lemma_entries_view_push(before, c);
                }
            }
            k = k + 1;
        }
        assert(new_es.take(k as int) == new_es);
        Some(out)
    }
}

/// Whether `es` holds an entry equal to `e` (same category and description).
fn contains_entry(es: &Vec<Entry>, e: &Entry) -> (b: bool)
    ensures
        b == entries_view(es@).contains(e@),
{
    let mut i: usize = 0;
    while i < es.len()
        invariant
            i <= es@.len(),
            forall|j: int| 0 <= j < i ==> entries_view(es@)[j] != e@,
        decreases es.len() - i,
    {
        if es[i].category == e.category && es[i].description == e.description {
            assert(entries_view(es@)[i as int] == e@);
            return true;
        }
        i = i + 1;
    }
    false
}

} // verus!
