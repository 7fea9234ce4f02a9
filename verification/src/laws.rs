//! Properties of the library that span several functions.
use vstd::prelude::*;
use crate::model::{
    Category, ChangelogView, EntryView, ParseErrorView, VersionView, category_from, category_name,
    category_order,
};
use crate::parse::{
    ScanState, category_marker, doc_lines, entry_marker, parse_spec, scan, scan_step, title_at,
    title_index, title_marker, version_marker,
};
use crate::render::render;
use crate::roundtrip::{grouped, grouped_upto, lemma_normal_roundtrip, normal_form, normal_version, renders_back};
use crate::text::{
    lemma_first_where_none, starts_with,
    ascii_lower, eq_ignore_ascii_case, is_ws, lemma_first_where_facts, lemma_first_where_some, trim,
    trim_end, trim_start,
};
use crate::version::{
    add_entry_spec, all_of_category, diff_spec, named_at, names_unreleased, not_in, of_category, release_spec,
    unreleased_at, unreleased_index, unreleased_name, version_index,
};

verus! {

// ---------------------------------------------------------------------------
// Categories
// ---------------------------------------------------------------------------
proof fn lemma_trim_name(c: Category)
    ensures
        trim(category_name(c)) == category_name(c),
{
    let n = category_name(c);
    assert(!is_ws(n[0]));
    assert(trim_start(n) == n);
    assert(!is_ws(n.last()));
    assert(trim_end(n) == n);
}

/// A category's name parses back to that category.
pub proof fn lemma_category_name_parses(c: Category)
    ensures
        category_from(category_name(c)) == Some(c),
{
    lemma_trim_name(c);
    let n = category_name(c);
    match c {
        Category::Added => {
            assert(eq_ignore_ascii_case(n, category_name(Category::Added)));
        },
        Category::Changed => {
            assert(eq_ignore_ascii_case(n, category_name(Category::Changed)));
        },
        Category::Deprecated => {
            assert(eq_ignore_ascii_case(n, category_name(Category::Deprecated)));
        },
        Category::Removed => {
            assert(!eq_ignore_ascii_case(n, category_name(Category::Changed))) by {
                assert(ascii_lower(n[0]) != ascii_lower(category_name(Category::Changed)[0]));
            }
            assert(eq_ignore_ascii_case(n, category_name(Category::Removed)));
        },
        Category::Fixed => {
            assert(!eq_ignore_ascii_case(n, category_name(Category::Added))) by {
                assert(ascii_lower(n[0]) != ascii_lower(category_name(Category::Added)[0]));
            }
            assert(eq_ignore_ascii_case(n, category_name(Category::Fixed)));
        },
        Category::Security => {
            assert(eq_ignore_ascii_case(n, category_name(Category::Security)));
        },
    }
}

/// Text equal up to ASCII case to a category's name agrees with that name in
/// its first character once lower-cased.
proof fn lemma_first_lower(t: Seq<char>, c: Category)
    requires
        eq_ignore_ascii_case(t, category_name(c)),
    ensures
        t.len() > 0,
        ascii_lower(t[0]) == ascii_lower(category_name(c)[0]),
{
    assert(category_name(c).len() > 0);
}

/// Text whose trimmed form is a category's name up to ASCII case parses to
/// that category: the name in any case, with any whitespace around it.
pub proof fn lemma_category_parse_up_to_case(s: Seq<char>, c: Category)
    requires
        eq_ignore_ascii_case(trim(s), category_name(c)),
    ensures
        category_from(s) == Some(c),
{
    let t = trim(s);
    lemma_first_lower(t, c);
    let l = ascii_lower(t[0]);
    assert(ascii_lower('A') == 'a');
    assert(ascii_lower('C') == 'c');
    assert(ascii_lower('D') == 'd');
    assert(ascii_lower('R') == 'r');
    assert(ascii_lower('F') == 'f');
    assert(ascii_lower('S') == 's');
    assert(category_name(Category::Added)[0] == 'A');
    assert(category_name(Category::Changed)[0] == 'C');
    assert(category_name(Category::Deprecated)[0] == 'D');
    assert(category_name(Category::Removed)[0] == 'R');
    assert(category_name(Category::Fixed)[0] == 'F');
    assert(category_name(Category::Security)[0] == 'S');
    if c != Category::Added {
        if eq_ignore_ascii_case(t, category_name(Category::Added)) {
            lemma_first_lower(t, Category::Added);
        }
    }
    if c != Category::Changed {
        if eq_ignore_ascii_case(t, category_name(Category::Changed)) {
            lemma_first_lower(t, Category::Changed);
        }
    }
    if c != Category::Deprecated {
        if eq_ignore_ascii_case(t, category_name(Category::Deprecated)) {
            lemma_first_lower(t, Category::Deprecated);
        }
    }
    if c != Category::Removed {
        if eq_ignore_ascii_case(t, category_name(Category::Removed)) {
            lemma_first_lower(t, Category::Removed);
        }
    }
    if c != Category::Fixed {
        if eq_ignore_ascii_case(t, category_name(Category::Fixed)) {
            lemma_first_lower(t, Category::Fixed);
        }
    }
}

proof fn lemma_trim_start_pad(p: Seq<char>, x: Seq<char>)
    requires
        forall|i: int| 0 <= i < p.len() ==> is_ws(#[trigger] p[i]),
        x.len() > 0,
        !is_ws(x[0]),
    ensures
        trim_start(p + x) == x,
    decreases p.len(),
{
    if p.len() == 0 {
        assert(p + x == x);
    } else {
        assert((p + x).drop_first() == p.drop_first() + x);
        assert((p + x)[0] == p[0]);
        lemma_trim_start_pad(p.drop_first(), x);
    }
}

proof fn lemma_trim_end_pad(x: Seq<char>, q: Seq<char>)
    requires
        forall|i: int| 0 <= i < q.len() ==> is_ws(#[trigger] q[i]),
        x.len() > 0,
        !is_ws(x.last()),
    ensures
        trim_end(x + q) == x,
    decreases q.len(),
{
    if q.len() == 0 {
        assert(x + q == x);
    } else {
        assert((x + q).drop_last() == x + q.drop_last());
        assert((x + q).last() == q.last());
        assert(q.last() == q[q.len() - 1]);
        lemma_trim_end_pad(x, q.drop_last());
    }
}

/// A category's name in any ASCII case, with whitespace before and after it,
/// parses to that category.
pub proof fn lemma_category_parse_padded(p: Seq<char>, s: Seq<char>, q: Seq<char>, c: Category)
    requires
        forall|i: int| 0 <= i < p.len() ==> is_ws(#[trigger] p[i]),
        forall|i: int| 0 <= i < q.len() ==> is_ws(#[trigger] q[i]),
        eq_ignore_ascii_case(s, category_name(c)),
    ensures
        category_from(p + s + q) == Some(c),
{
    let n = category_name(c);
    assert(n.len() > 0);
    assert(ascii_lower(s[0]) == ascii_lower(n[0]));
    assert(ascii_lower(s[s.len() - 1]) == ascii_lower(n[n.len() - 1]));
    assert(s.last() == s[s.len() - 1]);
    lemma_trim_name(c);
    assert(!is_ws(s[0]));
    assert(!is_ws(s.last()));
    assert(p + s + q == p + (s + q));
    assert((s + q)[0] == s[0]);
    lemma_trim_start_pad(p, s + q);
    lemma_trim_end_pad(s, q);
    assert(trim(p + s + q) == s);
    lemma_category_parse_up_to_case(p + s + q, c);
}

// ---------------------------------------------------------------------------
// Parse errors
// ---------------------------------------------------------------------------
proof fn lemma_scan_errors(ls: Seq<Seq<char>>)
    ensures
        scan(ls) matches Err(e) ==> e is InvalidCategory,
    decreases ls.len(),
{
    reveal(scan_step);
    if ls.len() > 0 {
        lemma_scan_errors(ls.drop_last());
    }
}

/// Parsing fails with `EmptyInput` exactly on blank input; on other input it
/// fails with `InvalidFormat("no title heading found")` exactly when no line
/// starts with `# `, and that is the only `InvalidFormat` it gives.
pub proof fn lemma_parse_errors(md: Seq<char>)
    ensures
        (parse_spec(md) == Err::<ChangelogView, ParseErrorView>(ParseErrorView::EmptyInput)) <==> trim(
            md,
        ).len() == 0,
        trim(md).len() > 0 ==> ((parse_spec(md) == Err::<ChangelogView, ParseErrorView>(
            ParseErrorView::InvalidFormat("no title heading found"@),
        )) <==> forall|i: int|
            0 <= i < doc_lines(md).len() ==> !starts_with(#[trigger] doc_lines(md)[i], title_marker())),
        parse_spec(md) matches Err(ParseErrorView::InvalidFormat(m)) ==> m == "no title heading found"@,
{
    let ls = doc_lines(md);
    let p = |i: int| title_at(ls, i);
    lemma_first_where_facts(ls.len() as int, p);
    if forall|i: int| 0 <= i < ls.len() ==> !starts_with(#[trigger] ls[i], title_marker()) {
        assert forall|i: int| 0 <= i < ls.len() implies !#[trigger] p(i) by {
            assert(!starts_with(ls[i], title_marker()));
        }
        lemma_first_where_none(ls.len() as int, p);
    }
    if let Some(ti) = title_index(ls) {
        assert(p(ti));
        assert(starts_with(ls[ti], title_marker()));
        lemma_scan_errors(crate::parse::body_lines(ls, ti));
        if trim(md).len() > 0 {
            assert(!(parse_spec(md) is Err && parse_spec(md)->Err_0 is InvalidFormat));
        }
    } else {
        assert forall|i: int| 0 <= i < ls.len() implies !starts_with(#[trigger] ls[i], title_marker()) by {
            assert(!p(i));
        }
    }
}

// ---------------------------------------------------------------------------
// Continuation lines
// ---------------------------------------------------------------------------
/// A non-blank line that is neither a heading nor a bullet continues the
/// entry read last: after lines that leave a version with entries open,
/// such a line appends a space and its trimmed text to the description of
/// that version's last entry, and leaves its other entries, its name and
/// date, the category being read and the finished versions as they were.
pub proof fn lemma_continuation_extends_last_entry(ls: Seq<Seq<char>>, l: Seq<char>)
    requires
        scan(ls) matches Ok(st) && st.current matches Some(v) && v.entries.len() > 0,
        !starts_with(l, version_marker()),
        !starts_with(l, category_marker()),
        !starts_with(l, entry_marker()),
        trim(l).len() > 0,
    ensures
        ({
            let st = scan(ls)->Ok_0;
            let v = st.current->Some_0;
            let n = v.entries.len() - 1;
            &&& scan(ls.push(l)) matches Ok(st2)
            &&& st2.done == st.done
            &&& st2.category == st.category
            &&& st2.current matches Some(v2)
            &&& v2.name == v.name
            &&& v2.date == v.date
            &&& v2.entries.len() == v.entries.len()
            &&& forall|k: int| 0 <= k < n ==> v2.entries[k] == v.entries[k]
            &&& v2.entries[n] == EntryView {
                category: v.entries[n].category,
                description: v.entries[n].description + seq![' '] + trim(l),
            }
        }),
{
    reveal(scan_step);
    assert(ls.push(l).drop_last() == ls);
    assert(ls.push(l).last() == l);
    let v = scan(ls)->Ok_0.current->Some_0;
    assert(v.entries.last() == v.entries[v.entries.len() - 1]);
}

// ---------------------------------------------------------------------------
// Queries as filters
// ---------------------------------------------------------------------------
/// The entries of a category are exactly those of `es` in that category, in
/// their order.
pub proof fn lemma_of_category_is_filter(es: Seq<EntryView>, c: Category)
    ensures
        of_category(es, c) == es.filter(|e: EntryView| e.category == c),
    decreases es.len(),
{
    let pred = |e: EntryView| e.category == c;
    if es.len() == 0 {
        reveal(Seq::filter);
    } else {
        lemma_of_category_is_filter(es.drop_last(), c);
        es.drop_last().lemma_filter_push(es.last(), pred);
        assert(es.drop_last().push(es.last()) == es);
    }
}

/// What `filter_by_category` gives is exactly the entries of category `c`
/// of all the versions, the Unreleased section included, version after
/// version and each version's in their order.
pub proof fn lemma_all_of_category_is_filter(vs: Seq<VersionView>, c: Category)
    ensures
        all_of_category(vs, c) == vs.map_values(|v: VersionView| v.entries).flatten().filter(
            |e: EntryView| e.category == c,
        ),
    decreases vs.len(),
{
    let pred = |e: EntryView| e.category == c;
    let f = |v: VersionView| v.entries;
    if vs.len() == 0 {
        assert(vs.map_values(f) =~= Seq::<Seq<EntryView>>::empty());
        reveal(Seq::filter);
    } else {
        let init = vs.drop_last();
        lemma_all_of_category_is_filter(init, c);
        lemma_of_category_is_filter(vs.last().entries, c);
        assert(vs.map_values(f) =~= init.map_values(f).push(vs.last().entries));
        init.map_values(f).lemma_flatten_push(vs.last().entries);
        Seq::filter_distributes_over_add(init.map_values(f).flatten(), vs.last().entries, pred);
    }
}

/// Every entry of category `c` of every version, the Unreleased section
/// included, is among what `filter_by_category(c)` gives.
pub proof fn lemma_all_of_category_complete(vs: Seq<VersionView>, c: Category, i: int, j: int)
    requires
        0 <= i < vs.len(),
        0 <= j < vs[i].entries.len(),
        vs[i].entries[j].category == c,
    ensures
        all_of_category(vs, c).contains(vs[i].entries[j]),
    decreases vs.len(),
{
    let pred = |e: EntryView| e.category == c;
    let n = vs.len() - 1;
    let x = vs[i].entries[j];
    if i < n {
        lemma_all_of_category_complete(vs.drop_last(), c, i, j);
        assert(vs.drop_last()[i] == vs[i]);
        let a = all_of_category(vs.drop_last(), c);
        let k = choose|k: int| 0 <= k < a.len() && a[k] == x;
        assert((a + of_category(vs.last().entries, c))[k] == x);
    } else {
        assert(vs.last() == vs[i]);
        lemma_of_category_is_filter(vs[i].entries, c);
        vs[i].entries.lemma_filter_contains(pred, j);
        let a = all_of_category(vs.drop_last(), c);
        let b = of_category(vs.last().entries, c);
        let k = choose|k: int| 0 <= k < b.len() && b[k] == x;
        assert((a + b)[a.len() + k] == x);
    }
}

/// The entries `diff` reports are exactly those of the second version that
/// the first does not have, in their order: none is left out.
pub proof fn lemma_not_in_is_filter(es: Seq<EntryView>, others: Seq<EntryView>)
    ensures
        not_in(es, others) == es.filter(|e: EntryView| !others.contains(e)),
    decreases es.len(),
{
    let pred = |e: EntryView| !others.contains(e);
    if es.len() == 0 {
        reveal(Seq::filter);
    } else {
        lemma_not_in_is_filter(es.drop_last(), others);
        es.drop_last().lemma_filter_push(es.last(), pred);
        assert(es.drop_last().push(es.last()) == es);
    }
}

/// When both versions exist, `diff` gives the entries of the version named
/// `v2` that do not occur in the version named `v1`, all of them, in order.
pub proof fn lemma_diff_is_filter(vs: Seq<VersionView>, v1: Seq<char>, v2: Seq<char>)
    requires
        version_index(vs, v1) is Some,
        version_index(vs, v2) is Some,
    ensures
        ({
            let old_es = vs[version_index(vs, v1).unwrap()].entries;
            let new_es = vs[version_index(vs, v2).unwrap()].entries;
            diff_spec(vs, v1, v2) == Some(new_es.filter(|e: EntryView| !old_es.contains(e)))
        }),
{
    let old_es = vs[version_index(vs, v1).unwrap()].entries;
    let new_es = vs[version_index(vs, v2).unwrap()].entries;
    lemma_not_in_is_filter(new_es, old_es);
}

// ---------------------------------------------------------------------------
// Diff
// ---------------------------------------------------------------------------
proof fn lemma_not_in_covered(es: Seq<EntryView>, others: Seq<EntryView>)
    requires
        forall|i: int| 0 <= i < es.len() ==> others.contains(#[trigger] es[i]),
    ensures
        not_in(es, others) == Seq::<EntryView>::empty(),
    decreases es.len(),
{
    if es.len() > 0 {
        assert(others.contains(es[es.len() - 1]));
        assert forall|i: int| 0 <= i < es.drop_last().len() implies others.contains(
            #[trigger] es.drop_last()[i],
        ) by {
            assert(es.drop_last()[i] == es[i]);
        }
        lemma_not_in_covered(es.drop_last(), others);
    }
}

proof fn lemma_not_in_members(es: Seq<EntryView>, others: Seq<EntryView>)
    ensures
        forall|i: int|
            0 <= i < not_in(es, others).len() ==> es.contains(#[trigger] not_in(es, others)[i])
                && !others.contains(not_in(es, others)[i]),
    decreases es.len(),
{
    if es.len() > 0 {
        lemma_not_in_members(es.drop_last(), others);
        let r = not_in(es, others);
        let r0 = not_in(es.drop_last(), others);
        assert forall|i: int| 0 <= i < r.len() implies es.contains(#[trigger] r[i]) && !others.contains(
            r[i],
        ) by {
            if i < r0.len() {
                assert(r[i] == r0[i]);
                assert(es.drop_last().contains(r0[i]));
                let k = choose|k: int| 0 <= k < es.drop_last().len() && es.drop_last()[k] == r0[i];
                assert(es[k] == r0[i]);
            } else {
                assert(r[i] == es.last());
                assert(es[es.len() - 1] == es.last());
            }
        }
    }
}

/// Comparing a version with itself finds no new entries.
pub proof fn lemma_diff_with_itself(vs: Seq<VersionView>, name: Seq<char>)
    requires
        version_index(vs, name) is Some,
    ensures
        diff_spec(vs, name, name) == Some(Seq::<EntryView>::empty()),
{
    let i = version_index(vs, name).unwrap();
    let es = vs[i].entries;
    assert forall|k: int| 0 <= k < es.len() implies es.contains(#[trigger] es[k]) by {}
    lemma_not_in_covered(es, es);
}

/// What `diff` reports are entries of the second version that the first
/// version does not have.
pub proof fn lemma_diff_members(vs: Seq<VersionView>, v1: Seq<char>, v2: Seq<char>)
    requires
        diff_spec(vs, v1, v2) is Some,
    ensures
        forall|k: int|
            0 <= k < diff_spec(vs, v1, v2).unwrap().len() ==> {
                let e = #[trigger] diff_spec(vs, v1, v2).unwrap()[k];
                &&& vs[version_index(vs, v2).unwrap()].entries.contains(e)
                &&& !vs[version_index(vs, v1).unwrap()].entries.contains(e)
            },
{
    let i = version_index(vs, v1).unwrap();
    let j = version_index(vs, v2).unwrap();
    lemma_not_in_members(vs[j].entries, vs[i].entries);
}

// ---------------------------------------------------------------------------
// Adding entries and releasing
// ---------------------------------------------------------------------------
/// After adding an entry to a version, the version that received it holds
/// it last: looking the name up finds it when a version of exactly that name
/// existed or the name is not "Unreleased"; otherwise the Unreleased section
/// holds it.
pub proof fn lemma_add_entry_then_get(vs: Seq<VersionView>, name: Seq<char>, e: EntryView)
    ensures
        ({
            let after = add_entry_spec(vs, name, e);
            &&& (version_index(vs, name) is Some || !names_unreleased(name)) ==> {
                &&& version_index(after, name) matches Some(i)
                &&& after[i].entries.len() > 0
                &&& after[i].entries.last() == e
            }
            &&& (version_index(vs, name) is None && names_unreleased(name)) ==> {
                &&& unreleased_index(after) matches Some(i)
                &&& after[i].entries.len() > 0
                &&& after[i].entries.last() == e
            }
        }),
{
    let after = add_entry_spec(vs, name, e);
    let p_before = |k: int| named_at(vs, k, name);
    let p_after = |k: int| named_at(after, k, name);
    lemma_first_where_facts(vs.len() as int, p_before);
    match version_index(vs, name) {
        Some(i) => {
            assert forall|k: int| 0 <= k < i implies !#[trigger] p_after(k) by {
                assert(!p_before(k));
            }
            assert(p_after(i));
            lemma_first_where_some(after.len() as int, p_after, i);
        },
        None => {
            if names_unreleased(name) {
                let u_before = |k: int| unreleased_at(vs, k);
                let u_after = |k: int| unreleased_at(after, k);
                lemma_first_where_facts(vs.len() as int, u_before);
                match unreleased_index(vs) {
                    Some(j) => {
                        assert forall|k: int| 0 <= k < j implies !#[trigger] u_after(k) by {
                            assert(!u_before(k));
                        }
                        assert(u_after(j));
                        lemma_first_where_some(after.len() as int, u_after, j);
                    },
                    None => {
                        assert(u_after(0));
                        lemma_first_where_some(after.len() as int, u_after, 0);
                    },
                }
            } else {
                assert forall|k: int| 0 <= k < vs.len() implies !#[trigger] p_after(k) by {
                    assert(!p_before(k));
                }
                assert(p_after(vs.len() as int));
                lemma_first_where_some(after.len() as int, p_after, vs.len() as int);
            }
        },
    }
}

/// Releasing puts an empty Unreleased section first and gives the former
/// Unreleased section the new name and date, keeping its entries; when no
/// earlier version has that name (and it is not "Unreleased"), looking it
/// up finds the released section.
pub proof fn lemma_release_effect(vs: Seq<VersionView>, name: Seq<char>, date: Seq<char>)
    ensures
        ({
            let after = release_spec(vs, name, date);
            &&& after.len() == vs.len() + 1
            &&& after[0] == VersionView { name: unreleased_name(), date: None, entries: seq![] }
            &&& unreleased_index(after) == Some(0int)
            &&& unreleased_index(vs) matches Some(i) ==> {
                &&& after[i + 1] == VersionView { name: name, date: Some(date), entries: vs[i].entries }
                &&& (name != unreleased_name() && forall|j: int| 0 <= j < i ==> vs[j].name != name)
                    ==> version_index(after, name) == Some(i + 1)
            }
        }),
{
    let after = release_spec(vs, name, date);
    let pu = |k: int| unreleased_at(after, k);
    assert(eq_ignore_ascii_case(unreleased_name(), unreleased_name()));
    assert(pu(0));
    lemma_first_where_some(after.len() as int, pu, 0);
    if let Some(i) = unreleased_index(vs) {
        lemma_first_where_facts(vs.len() as int, |k: int| unreleased_at(vs, k));
        if name != unreleased_name() && forall|j: int| 0 <= j < i ==> vs[j].name != name {
            let pn = |k: int| named_at(after, k, name);
            assert forall|k: int| 0 <= k < i + 1 implies !#[trigger] pn(k) by {
                if k > 0 {
                    assert(after[k] == vs[k - 1]);
                }
            }
            assert(pn(i + 1));
            lemma_first_where_some(after.len() as int, pn, i + 1);
        }
    }
}

// ---------------------------------------------------------------------------
// Categories partition the entries
// ---------------------------------------------------------------------------
/// The number of entries of the categories in the standard order adds up
/// to the number of entries: every entry is in exactly one category's list.
pub proof fn lemma_categories_partition(es: Seq<EntryView>)
    ensures
        of_category(es, Category::Added).len() + of_category(es, Category::Changed).len()
            + of_category(es, Category::Deprecated).len() + of_category(es, Category::Removed).len()
            + of_category(es, Category::Fixed).len() + of_category(es, Category::Security).len()
            == es.len(),
    decreases es.len(),
{
    if es.len() > 0 {
        lemma_categories_partition(es.drop_last());
    }
}

/// Every entry that `entries_by_category` returns has the requested category.
pub proof fn lemma_of_category_members(es: Seq<EntryView>, c: Category)
    ensures
        forall|k: int| 0 <= k < of_category(es, c).len() ==> (#[trigger] of_category(es, c)[k]).category == c,
    decreases es.len(),
{
    if es.len() > 0 {
        lemma_of_category_members(es.drop_last(), c);
    }
}

// ---------------------------------------------------------------------------
// Entries already in category order read back unchanged
// ---------------------------------------------------------------------------
/// The position of a category in the standard order.
pub open spec fn category_rank(c: Category) -> int {
    match c {
        Category::Added => 0,
        Category::Changed => 1,
        Category::Deprecated => 2,
        Category::Removed => 3,
        Category::Fixed => 4,
        Category::Security => 5,
    }
}

/// The entries come in the standard category order.
pub open spec fn sorted_by_category(es: Seq<EntryView>) -> bool {
    forall|i: int, j: int|
        0 <= i < j < es.len() ==> category_rank(#[trigger] es[i].category) <= category_rank(
            #[trigger] es[j].category,
        )
}

proof fn lemma_rank_order(c: Category)
    ensures
        0 <= category_rank(c) < 6,
        category_order()[category_rank(c)] == c,
        forall|k: int| 0 <= k < 6 && k != category_rank(c) ==> category_order()[k] != c,
{
}

proof fn lemma_of_category_absent(es: Seq<EntryView>, c: Category)
    requires
        forall|i: int| 0 <= i < es.len() ==> (#[trigger] es[i]).category != c,
    ensures
        of_category(es, c) == Seq::<EntryView>::empty(),
    decreases es.len(),
{
    if es.len() > 0 {
        assert(es.last() == es[es.len() - 1]);
        assert forall|i: int| 0 <= i < es.drop_last().len() implies (
        #[trigger] es.drop_last()[i]).category != c by {
            assert(es.drop_last()[i] == es[i]);
        }
        lemma_of_category_absent(es.drop_last(), c);
    }
}

proof fn lemma_grouped_upto_push(es: Seq<EntryView>, x: EntryView, n: int)
    requires
        0 <= n <= 6,
        forall|i: int| 0 <= i < es.len() ==> category_rank((#[trigger] es[i]).category)
            <= category_rank(x.category),
    ensures
        n <= category_rank(x.category) ==> grouped_upto(es.push(x), n) == grouped_upto(es, n),
        n > category_rank(x.category) ==> grouped_upto(es.push(x), n) == grouped_upto(es, n).push(x),
    decreases n,
{
    let r = category_rank(x.category);
    lemma_rank_order(x.category);
    if n > 0 {
        lemma_grouped_upto_push(es, x, n - 1);
        let d = category_order()[n - 1];
        assert(es.push(x).drop_last() == es);
        assert(es.push(x).last() == x);
        if n - 1 == r {
            assert(d == x.category);
            assert(of_category(es.push(x), d) == of_category(es, d).push(x));
            assert(grouped_upto(es, n - 1) + of_category(es, d).push(x) =~= (grouped_upto(es, n - 1)
                + of_category(es, d)).push(x));
        } else {
            assert(d != x.category);
            assert(of_category(es.push(x), d) == of_category(es, d));
            if n - 1 > r {
                lemma_rank_order(d);
                assert(category_rank(d) == n - 1) by {
                    assert(category_order()[category_rank(d)] == d);
                    if category_rank(d) != n - 1 {
                        assert(category_order()[n - 1] != d);
                    }
                }
                assert forall|i: int| 0 <= i < es.len() implies (#[trigger] es[i]).category != d by {
                    assert(category_rank(es[i].category) <= r);
                }
                lemma_of_category_absent(es, d);
                assert(grouped_upto(es, n - 1).push(x) + Seq::<EntryView>::empty() == grouped_upto(
                    es,
                    n - 1,
                ).push(x));
                assert(grouped_upto(es, n - 1) + Seq::<EntryView>::empty() == grouped_upto(es, n - 1));
            }
        }
    }
}

/// Entries already in the standard category order are their own grouping.
pub proof fn lemma_sorted_is_grouped(es: Seq<EntryView>)
    requires
        sorted_by_category(es),
    ensures
        grouped(es) == es,
    decreases es.len(),
{
    if es.len() == 0 {
        assert forall|k: int| 0 <= k < 6 implies of_category(es, #[trigger] category_order()[k])
            == Seq::<EntryView>::empty() by {}
        assert(grouped_upto(es, 0) == Seq::<EntryView>::empty());
        assert(grouped_upto(es, 1) =~= Seq::<EntryView>::empty());
        assert(grouped_upto(es, 2) =~= Seq::<EntryView>::empty());
        assert(grouped_upto(es, 3) =~= Seq::<EntryView>::empty());
        assert(grouped_upto(es, 4) =~= Seq::<EntryView>::empty());
        assert(grouped_upto(es, 5) =~= Seq::<EntryView>::empty());
        assert(grouped_upto(es, 6) =~= Seq::<EntryView>::empty());
    } else {
        let init = es.drop_last();
        let x = es.last();
        assert(es == init.push(x));
        assert forall|i: int, j: int| 0 <= i < j < init.len() implies category_rank(
            #[trigger] init[i].category,
        ) <= category_rank(#[trigger] init[j].category) by {
            assert(init[i] == es[i] && init[j] == es[j]);
        }
        lemma_sorted_is_grouped(init);
        assert forall|i: int| 0 <= i < init.len() implies category_rank(
            (#[trigger] init[i]).category,
        ) <= category_rank(x.category) by {
            assert(init[i] == es[i]);
            assert(x == es[es.len() - 1]);
        }
        lemma_rank_order(x.category);
        lemma_grouped_upto_push(init, x, 6);
    }
}

/// A changelog whose entries come in the standard category order in every
/// version, and whose Unreleased sections are named "Unreleased" without a
/// date, reads back exactly from its markdown (for every changelog whose
/// texts render as lines that read back unchanged, see [`renders_back`]).
pub proof fn lemma_sorted_roundtrip(c: ChangelogView)
    requires
        renders_back(c),
        forall|i: int| 0 <= i < c.versions.len() ==> sorted_by_category(
            (#[trigger] c.versions[i]).entries,
        ),
        forall|i: int|
            0 <= i < c.versions.len() && names_unreleased((#[trigger] c.versions[i]).name) ==> c.versions[i].name
                == unreleased_name() && c.versions[i].date is None,
    ensures
        parse_spec(render(c)) == Ok::<ChangelogView, ParseErrorView>(c),
{
    let f = |v: VersionView| normal_version(v);
    assert forall|i: int| 0 <= i < c.versions.len() implies normal_version(#[trigger] c.versions[i])
        == c.versions[i] by {
        lemma_sorted_is_grouped(c.versions[i].entries);
    }
    assert(c.versions.map_values(f) =~= c.versions);
    assert(normal_form(c) == c);
    lemma_normal_roundtrip(c);
}

} // verus!
