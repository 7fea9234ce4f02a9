//! What validation accepts, how many issues it reports, and which edits keep
//! a changelog valid.
use vstd::prelude::*;
use crate::model::{ChangelogView, EntryView, VersionView};
use crate::text::{
    ascii_lower, lemma_first_where_facts, lemma_first_where_none, lemma_first_where_some, split_by,
    trim,
};
use crate::validate::{
    date_is_valid, date_issues, entry_issues, order_issues, pair_issues, released_names, semver_le,
    semver_of, validate_spec, version_issues,
};
use crate::version::{
    add_entry_spec, latest_index, named_at, names_unreleased, release_spec, released_at,
    unreleased_at, unreleased_index, unreleased_name, version_index, with_entry,
};

verus! {

// ---------------------------------------------------------------------------
// What makes a changelog valid
// ---------------------------------------------------------------------------
/// A version whose date is given but not in `YYYY-MM-DD` form.
pub open spec fn has_bad_date(v: VersionView) -> bool {
    v.date matches Some(d) && !date_is_valid(d)
}

/// An entry whose description is blank.
pub open spec fn is_blank(e: EntryView) -> bool {
    trim(e.description).len() == 0
}

/// Two neighbouring released versions that both parse as version numbers,
/// the first not greater than the second.
pub open spec fn out_of_order(a: Seq<char>, b: Seq<char>) -> bool {
    semver_of(a) matches Some(x) && semver_of(b) matches Some(y) && semver_le(x, y)
}

/// The names at `k` and `k + 1` are not out of order.
pub open spec fn pair_ok(ns: Seq<Seq<char>>, k: int) -> bool {
    !out_of_order(ns[k], ns[k + 1])
}

/// Every given date is in `YYYY-MM-DD` form.
pub open spec fn dates_valid(vs: Seq<VersionView>) -> bool {
    forall|i: int| 0 <= i < vs.len() ==> !has_bad_date(#[trigger] vs[i])
}

/// No entry of any version is blank.
pub open spec fn entries_filled(vs: Seq<VersionView>) -> bool {
    forall|i: int, j: int|
        0 <= i < vs.len() && 0 <= j < vs[i].entries.len() ==> !is_blank(#[trigger] vs[i].entries[j])
}

/// Neighbouring released versions that parse as version numbers descend.
pub open spec fn released_in_order(vs: Seq<VersionView>) -> bool {
    let ns = released_names(vs);
    forall|k: int| 0 <= k && k + 1 < ns.len() ==> #[trigger] pair_ok(ns, k)
}

// ---------------------------------------------------------------------------
// Counting problems
// ---------------------------------------------------------------------------
/// The number of versions with a bad date.
pub open spec fn bad_date_count(vs: Seq<VersionView>) -> nat
    decreases vs.len(),
{
    if vs.len() == 0 {
        0
    } else {
        bad_date_count(vs.drop_last()) + if has_bad_date(vs.last()) {
            1nat
        } else {
            0nat
        }
    }
}

/// The number of blank entries of `es`.
pub open spec fn blank_count(es: Seq<EntryView>) -> nat
    decreases es.len(),
{
    if es.len() == 0 {
        0
    } else {
        blank_count(es.drop_last()) + if is_blank(es.last()) {
            1nat
        } else {
            0nat
        }
    }
}

/// The number of blank entries over all the versions.
pub open spec fn blank_entry_count(vs: Seq<VersionView>) -> nat
    decreases vs.len(),
{
    if vs.len() == 0 {
        0
    } else {
        blank_entry_count(vs.drop_last()) + blank_count(vs.last().entries)
    }
}

/// The number of neighbouring pairs of `ns` that are out of order.
pub open spec fn misordered_count(ns: Seq<Seq<char>>) -> nat
    decreases ns.len(),
{
    if ns.len() < 2 {
        0
    } else {
        misordered_count(ns.drop_last()) + if out_of_order(ns[ns.len() - 2], ns.last()) {
            1nat
        } else {
            0nat
        }
    }
}

proof fn lemma_entry_issues_len(name: Seq<char>, es: Seq<EntryView>)
    ensures
        entry_issues(name, es).len() == blank_count(es),
    decreases es.len(),
{
    if es.len() > 0 {
        lemma_entry_issues_len(name, es.drop_last());
    }
}

proof fn lemma_version_issues_len(vs: Seq<VersionView>)
    ensures
        version_issues(vs).len() == bad_date_count(vs) + blank_entry_count(vs),
    decreases vs.len(),
{
    if vs.len() > 0 {
        lemma_version_issues_len(vs.drop_last());
        lemma_entry_issues_len(vs.last().name, vs.last().entries);
        assert(date_issues(vs.last()).len() == if has_bad_date(vs.last()) {
            1int
        } else {
            0int
        });
    }
}

proof fn lemma_order_issues_len(ns: Seq<Seq<char>>)
    ensures
        order_issues(ns).len() == misordered_count(ns),
    decreases ns.len(),
{
    if ns.len() >= 2 {
        lemma_order_issues_len(ns.drop_last());
        assert(pair_issues(ns[ns.len() - 2], ns.last()).len() == if out_of_order(
            ns[ns.len() - 2],
            ns.last(),
        ) {
            1int
        } else {
            0int
        });
    }
}

/// Validation reports one issue per bad date, one per blank entry and one
/// per pair of neighbouring released versions out of order.
pub proof fn lemma_validate_count(c: ChangelogView)
    ensures
        validate_spec(c).len() == bad_date_count(c.versions) + blank_entry_count(c.versions)
            + misordered_count(released_names(c.versions)),
{
    lemma_version_issues_len(c.versions);
    lemma_order_issues_len(released_names(c.versions));
}

proof fn lemma_bad_date_count_zero(vs: Seq<VersionView>)
    ensures
        bad_date_count(vs) == 0 <==> dates_valid(vs),
    decreases vs.len(),
{
    if vs.len() > 0 {
        let init = vs.drop_last();
        lemma_bad_date_count_zero(init);
        assert forall|i: int| 0 <= i < init.len() implies init[i] == vs[i] by {}
        if dates_valid(vs) {
            assert(!has_bad_date(vs[vs.len() - 1]));
            assert forall|i: int| 0 <= i < init.len() implies !has_bad_date(#[trigger] init[i]) by {
                assert(!has_bad_date(vs[i]));
            }
        }
        if bad_date_count(vs) == 0 {
            assert forall|i: int| 0 <= i < vs.len() implies !has_bad_date(#[trigger] vs[i]) by {
                if i < init.len() {
                    assert(!has_bad_date(init[i]));
                }
            }
        }
    }
}

proof fn lemma_blank_count_zero(es: Seq<EntryView>)
    ensures
        blank_count(es) == 0 <==> forall|j: int| 0 <= j < es.len() ==> !is_blank(#[trigger] es[j]),
    decreases es.len(),
{
    if es.len() > 0 {
        let init = es.drop_last();
        lemma_blank_count_zero(init);
        if forall|j: int| 0 <= j < es.len() ==> !is_blank(#[trigger] es[j]) {
            assert(!is_blank(es[es.len() - 1]));
            assert forall|j: int| 0 <= j < init.len() implies !is_blank(#[trigger] init[j]) by {
                assert(!is_blank(es[j]));
            }
        }
        if blank_count(es) == 0 {
            assert forall|j: int| 0 <= j < es.len() implies !is_blank(#[trigger] es[j]) by {
                if j < init.len() {
                    assert(!is_blank(init[j]));
                }
            }
        }
    }
}

proof fn lemma_blank_entry_count_zero(vs: Seq<VersionView>)
    ensures
        blank_entry_count(vs) == 0 <==> entries_filled(vs),
    decreases vs.len(),
{
    if vs.len() > 0 {
        let init = vs.drop_last();
        let n = vs.len() - 1;
        lemma_blank_entry_count_zero(init);
        lemma_blank_count_zero(vs[n].entries);
        assert(vs.last() == vs[n]);
        if entries_filled(vs) {
            assert forall|j: int| 0 <= j < vs[n].entries.len() implies !is_blank(
                #[trigger] vs[n].entries[j],
            ) by {}
            assert forall|i: int, j: int|
                0 <= i < init.len() && 0 <= j < init[i].entries.len() implies !is_blank(
                #[trigger] init[i].entries[j],
            ) by {
                assert(init[i] == vs[i]);
                assert(!is_blank(vs[i].entries[j]));
            }
        }
        if blank_entry_count(vs) == 0 {
            assert forall|i: int, j: int|
                0 <= i < vs.len() && 0 <= j < vs[i].entries.len() implies !is_blank(
                #[trigger] vs[i].entries[j],
            ) by {
                if i < n {
                    assert(init[i] == vs[i]);
                    assert(!is_blank(init[i].entries[j]));
                } else {
                    assert(!is_blank(vs[n].entries[j]));
                }
            }
        }
    }
}

proof fn lemma_misordered_zero(ns: Seq<Seq<char>>)
    ensures
        misordered_count(ns) == 0 <==> forall|k: int| 0 <= k && k + 1 < ns.len() ==> #[trigger] pair_ok(ns, k),
    decreases ns.len(),
{
    if ns.len() >= 2 {
        let init = ns.drop_last();
        let m = ns.len() - 2;
        lemma_misordered_zero(init);
        assert(ns[m + 1] == ns.last());
        assert forall|k: int| 0 <= k && k + 1 < init.len() implies pair_ok(init, k) == pair_ok(ns, k) by {
            assert(init[k] == ns[k]);
            assert(init[k + 1] == ns[k + 1]);
        }
        if forall|k: int| 0 <= k && k + 1 < ns.len() ==> #[trigger] pair_ok(ns, k) {
            assert(pair_ok(ns, m));
            assert forall|k: int| 0 <= k && k + 1 < init.len() implies #[trigger] pair_ok(init, k) by {
                assert(pair_ok(ns, k));
            }
        }
        if misordered_count(ns) == 0 {
            assert forall|k: int| 0 <= k && k + 1 < ns.len() implies #[trigger] pair_ok(ns, k) by {
                if k < m {
                    assert(pair_ok(init, k));
                }
            }
        }
    }
}

/// Validation reports nothing exactly when every given date is in
/// `YYYY-MM-DD` form, no entry is blank, and neighbouring released versions
/// that parse as version numbers descend.
pub proof fn lemma_validate_empty_iff(c: ChangelogView)
    ensures
        validate_spec(c).len() == 0 <==> dates_valid(c.versions) && entries_filled(c.versions)
            && released_in_order(c.versions),
{
    lemma_validate_count(c);
    lemma_bad_date_count_zero(c.versions);
    lemma_blank_entry_count_zero(c.versions);
    lemma_misordered_zero(released_names(c.versions));
}

// ---------------------------------------------------------------------------
// Edits that keep a changelog valid
// ---------------------------------------------------------------------------
proof fn lemma_released_names_same(vs: Seq<VersionView>, ws: Seq<VersionView>)
    requires
        vs.len() == ws.len(),
        forall|i: int| 0 <= i < vs.len() ==> (#[trigger] vs[i]).name == ws[i].name,
    ensures
        released_names(vs) == released_names(ws),
    decreases vs.len(),
{
    if vs.len() > 0 {
        let n = vs.len() - 1;
        assert forall|i: int| 0 <= i < vs.drop_last().len() implies (
        #[trigger] vs.drop_last()[i]).name == ws.drop_last()[i].name by {
            assert(vs[i].name == ws[i].name);
        }
        lemma_released_names_same(vs.drop_last(), ws.drop_last());
        assert(vs[n].name == ws[n].name);
    }
}

proof fn lemma_released_names_cons(x: VersionView, rest: Seq<VersionView>)
    ensures
        released_names(seq![x] + rest) == (if names_unreleased(x.name) {
            Seq::<Seq<char>>::empty()
        } else {
            seq![x.name]
        }) + released_names(rest),
    decreases rest.len(),
{
    let pre = if names_unreleased(x.name) {
        Seq::<Seq<char>>::empty()
    } else {
        seq![x.name]
    };
    if rest.len() == 0 {
        assert(seq![x] + rest == seq![x]);
        assert(seq![x].drop_last() == Seq::<VersionView>::empty());
        assert(seq![x].last() == x);
        assert(released_names(Seq::<VersionView>::empty()) == Seq::<Seq<char>>::empty());
        assert(released_names(seq![x]) =~= pre);
        assert(pre + released_names(rest) =~= pre);
    } else {
        let whole = seq![x] + rest;
        lemma_released_names_cons(x, rest.drop_last());
        assert(whole.drop_last() == seq![x] + rest.drop_last());
        assert(whole.last() == rest.last());
        let r = released_names(rest.drop_last());
        if names_unreleased(rest.last().name) {
            assert(released_names(whole) == released_names(whole.drop_last()));
            assert(released_names(rest) == r);
        } else {
            assert(released_names(whole) == released_names(whole.drop_last()).push(rest.last().name));
            assert(released_names(rest) == r.push(rest.last().name));
            assert((pre + r).push(rest.last().name) =~= pre + r.push(rest.last().name));
        }
    }
}

/// The latest release is the first of the released names.
proof fn lemma_latest_is_first_released(vs: Seq<VersionView>)
    ensures
        match latest_index(vs) {
            Some(i) => released_names(vs).len() > 0 && released_names(vs)[0] == vs[i].name,
            None => released_names(vs).len() == 0,
        },
    decreases vs.len(),
{
    let p = |k: int| released_at(vs, k);
    if vs.len() == 0 {
        lemma_first_where_none(0, p);
    } else {
        let rest = vs.drop_first();
        let q = |k: int| released_at(rest, k);
        lemma_latest_is_first_released(rest);
        assert(vs == seq![vs[0]] + rest);
        lemma_released_names_cons(vs[0], rest);
        lemma_first_where_facts(rest.len() as int, q);
        if !names_unreleased(vs[0].name) {
            assert(p(0));
            lemma_first_where_some(vs.len() as int, p, 0);
        } else {
            assert(released_names(vs) == released_names(rest));
            match latest_index(rest) {
                Some(j) => {
                    assert forall|k: int| 0 <= k < j + 1 implies !#[trigger] p(k) by {
                        if k > 0 {
                            assert(vs[k] == rest[k - 1]);
                            assert(!q(k - 1));
                        }
                    }
                    assert(vs[j + 1] == rest[j]);
                    assert(q(j));
                    assert(p(j + 1));
                    lemma_first_where_some(vs.len() as int, p, j + 1);
                },
                None => {
                    assert forall|k: int| 0 <= k < vs.len() implies !#[trigger] p(k) by {
                        if k > 0 {
                            assert(vs[k] == rest[k - 1]);
                            assert(!q(k - 1));
                        }
                    }
                    lemma_first_where_none(vs.len() as int, p);
                },
            }
        }
    }
}

proof fn lemma_split_without_sep(s: Seq<char>, sep: char)
    requires
        forall|i: int| 0 <= i < s.len() ==> s[i] != sep,
    ensures
        split_by(s, sep).len() == 1,
    decreases s.len(),
{
    if s.len() > 0 {
        assert forall|i: int| 0 <= i < s.drop_last().len() implies s.drop_last()[i] != sep by {
            assert(s.drop_last()[i] == s[i]);
        }
        lemma_split_without_sep(s.drop_last(), sep);
        assert(s.last() == s[s.len() - 1]);
    }
}

/// A name that is "Unreleased" up to case is no version number.
proof fn lemma_unreleased_not_semver(name: Seq<char>)
    requires
        names_unreleased(name),
    ensures
        semver_of(name) is None,
{
    let u = unreleased_name();
    assert forall|i: int| 0 <= i < name.len() implies name[i] != '.' by {
        assert(ascii_lower(name[i]) == ascii_lower(u[i]));
        assert('a' <= ascii_lower(u[i]) <= 'z') by {
            if i == 0 {
                assert(u[0] == 'U');
            } else if i == 1 {
                assert(u[1] == 'n');
            } else if i == 2 {
                assert(u[2] == 'r');
            } else if i == 3 {
                assert(u[3] == 'e');
            } else if i == 4 {
                assert(u[4] == 'l');
            } else if i == 5 {
                assert(u[5] == 'e');
            } else if i == 6 {
                assert(u[6] == 'a');
            } else if i == 7 {
                assert(u[7] == 's');
            } else if i == 8 {
                assert(u[8] == 'e');
            } else {
                assert(u[9] == 'd');
            }
        }
    }
    lemma_split_without_sep(name, '.');
}

/// Adding a non-blank entry to an existing version, or to the Unreleased
/// section, keeps a valid changelog valid.
pub proof fn lemma_add_entry_keeps_valid(c: ChangelogView, name: Seq<char>, e: EntryView)
    requires
        validate_spec(c).len() == 0,
        !is_blank(e),
        version_index(c.versions, name) is Some || names_unreleased(name),
    ensures
        ({
            let after = ChangelogView { versions: add_entry_spec(c.versions, name, e), ..c };
            validate_spec(after).len() == 0
        }),
{
    let vs = c.versions;
    let after = add_entry_spec(vs, name, e);
    let ca = ChangelogView { versions: after, ..c };
    lemma_validate_empty_iff(c);
    lemma_validate_empty_iff(ca);
    lemma_first_where_facts(vs.len() as int, |k: int| named_at(vs, k, name));
    lemma_first_where_facts(vs.len() as int, |k: int| unreleased_at(vs, k));
    let target: Option<int> = match version_index(vs, name) {
        Some(i) => Some(i),
        None => unreleased_index(vs),
    };
    match target {
        Some(i) => {
            assert(after == vs.update(i, with_entry(vs[i], e)));
            assert forall|k: int| 0 <= k < after.len() implies !has_bad_date(#[trigger] after[k]) by {
                assert(after[k].date == vs[k].date);
                assert(!has_bad_date(vs[k]));
            }
            assert forall|k: int, j: int|
                0 <= k < after.len() && 0 <= j < after[k].entries.len() implies !is_blank(
                #[trigger] after[k].entries[j],
            ) by {
                if k == i {
                    if j < vs[i].entries.len() {
                        assert(after[k].entries[j] == vs[i].entries[j]);
                        assert(!is_blank(vs[i].entries[j]));
                    } else {
                        assert(after[k].entries[j] == e);
                    }
                } else {
                    assert(after[k] == vs[k]);
                    assert(!is_blank(vs[k].entries[j]));
                }
            }
            assert forall|k: int| 0 <= k < after.len() implies (#[trigger] after[k]).name
                == vs[k].name by {}
            lemma_released_names_same(after, vs);
        },
        None => {
            let nv = VersionView { name: name, date: None, entries: seq![e] };
            assert(after == seq![nv] + vs);
            assert forall|k: int| 0 <= k < after.len() implies !has_bad_date(#[trigger] after[k]) by {
                if k > 0 {
                    assert(after[k] == vs[k - 1]);
                    assert(!has_bad_date(vs[k - 1]));
                }
            }
            assert forall|k: int, j: int|
                0 <= k < after.len() && 0 <= j < after[k].entries.len() implies !is_blank(
                #[trigger] after[k].entries[j],
            ) by {
                if k > 0 {
                    assert(after[k] == vs[k - 1]);
                    assert(!is_blank(vs[k - 1].entries[j]));
                } else {
                    assert(after[k].entries[j] == e);
                }
            }
            lemma_released_names_cons(nv, vs);
            assert(released_names(after) == released_names(vs));
        },
    }
}

/// Releasing the Unreleased section at the top under a version number
/// greater than the latest release's, with a `YYYY-MM-DD` date, keeps a valid
/// changelog valid; the release becomes the latest version and a new empty
/// Unreleased section comes first.
pub proof fn lemma_release_keeps_valid(c: ChangelogView, name: Seq<char>, date: Seq<char>)
    requires
        validate_spec(c).len() == 0,
        c.versions.len() > 0,
        names_unreleased(c.versions[0].name),
        date_is_valid(date),
        semver_of(name) is Some,
        latest_index(c.versions) matches Some(i) ==> (semver_of(c.versions[i].name) matches Some(
            t,
        ) ==> semver_le(t, semver_of(name).unwrap()) && t != semver_of(name).unwrap()),
    ensures
        ({
            let after = release_spec(c.versions, name, date);
            &&& validate_spec(ChangelogView { versions: after, ..c }).len() == 0
            &&& latest_index(after) == Some(1int)
            &&& after[1].name == name
            &&& unreleased_index(after) == Some(0int)
            &&& after[0].entries.len() == 0
        }),
{
    let vs = c.versions;
    let s = semver_of(name).unwrap();
    if names_unreleased(name) {
        lemma_unreleased_not_semver(name);
    }
    let pu = |k: int| unreleased_at(vs, k);
    assert(pu(0));
    lemma_first_where_some(vs.len() as int, pu, 0);
    let r0 = VersionView { name: name, date: Some(date), entries: vs[0].entries };
    let renamed = vs.update(0, r0);
    let u = VersionView { name: unreleased_name(), date: None, entries: seq![] };
    let after = release_spec(vs, name, date);
    let ca = ChangelogView { versions: after, ..c };
    assert(after == seq![u] + renamed);
    let rest = vs.skip(1);
    assert(renamed == seq![r0] + rest);
    assert(vs == seq![vs[0]] + rest);
    assert(names_unreleased(unreleased_name()));
    lemma_released_names_cons(u, renamed);
    lemma_released_names_cons(r0, rest);
    lemma_released_names_cons(vs[0], rest);
    let ns = released_names(vs);
    let ns2 = seq![name] + ns;
    assert(released_names(after) == ns2);
    lemma_latest_is_first_released(vs);
    lemma_validate_empty_iff(c);
    lemma_validate_empty_iff(ca);
    assert forall|k: int| 0 <= k < after.len() implies !has_bad_date(#[trigger] after[k]) by {
        if k >= 2 {
            assert(after[k] == vs[k - 1]);
            assert(!has_bad_date(vs[k - 1]));
        }
    }
    assert forall|k: int, j: int|
        0 <= k < after.len() && 0 <= j < after[k].entries.len() implies !is_blank(
        #[trigger] after[k].entries[j],
    ) by {
        if k >= 2 {
            assert(after[k] == vs[k - 1]);
            assert(!is_blank(vs[k - 1].entries[j]));
        } else if k == 1 {
            assert(after[k].entries[j] == vs[0].entries[j]);
            assert(!is_blank(vs[0].entries[j]));
        }
    }
    assert forall|k: int| 0 <= k && k + 1 < ns2.len() implies #[trigger] pair_ok(ns2, k) by {
        if k == 0 {
            let i = latest_index(vs).unwrap();
            assert(ns2[1] == ns[0]);
            assert(ns[0] == vs[i].name);
            if let Some(t) = semver_of(vs[i].name) {
                assert(semver_le(t, s) && t != s);
                assert(!semver_le(s, t));
            }
        } else {
            assert(ns2[k] == ns[k - 1]);
            assert(ns2[k + 1] == ns[k]);
            assert(pair_ok(ns, k - 1));
        }
    }
    let pr = |k: int| released_at(after, k);
    assert(!pr(0));
    assert(pr(1));
    lemma_first_where_some(after.len() as int, pr, 1);
    let pa = |k: int| unreleased_at(after, k);
    assert(pa(0));
    lemma_first_where_some(after.len() as int, pa, 0);
}

// ---------------------------------------------------------------------------
// The order of version numbers
// ---------------------------------------------------------------------------
/// `x` is a greater version number than `y`: a greater major number, or the
/// same major and a greater minor, or the same major and minor and a greater
/// patch.
pub open spec fn version_greater(x: (u64, u64, u64), y: (u64, u64, u64)) -> bool {
    ||| x.0 > y.0
    ||| x.0 == y.0 && x.1 > y.1
    ||| x.0 == y.0 && x.1 == y.1 && x.2 > y.2
}

/// Neighbouring released names `a` then `b` that both parse as version
/// numbers have the first greater.
pub open spec fn descends(a: Seq<char>, b: Seq<char>) -> bool {
    match (semver_of(a), semver_of(b)) {
        (Some(x), Some(y)) => version_greater(x, y),
        _ => true,
    }
}

/// Two version numbers compared by `validate` are out of order exactly when
/// the first is not greater than the second, major number first, then minor,
/// then patch.
pub proof fn lemma_out_of_order_iff_not_greater(a: Seq<char>, b: Seq<char>)
    ensures
        out_of_order(a, b) <==> !descends(a, b),
{
}

/// Validation reports no order issue exactly when every pair of neighbouring
/// released versions that both parse as version numbers has the first one
/// greater: a greater major number, or the same major and a greater minor,
/// or the same major and minor and a greater patch.
pub proof fn lemma_no_order_issue_iff_descending(vs: Seq<VersionView>)
    ensures
        ({
            let ns = released_names(vs);
            order_issues(ns).len() == 0 <==> forall|k: int|
                0 <= k && k + 1 < ns.len() ==> #[trigger] descends(ns[k], ns[k + 1])
        }),
{
    let ns = released_names(vs);
    lemma_order_issues_len(ns);
    lemma_misordered_zero(ns);
    assert forall|k: int| 0 <= k && k + 1 < ns.len() implies #[trigger] pair_ok(ns, k) == descends(
        ns[k],
        ns[k + 1],
    ) by {
        lemma_out_of_order_iff_not_greater(ns[k], ns[k + 1]);
    }
    if forall|k: int| 0 <= k && k + 1 < ns.len() ==> #[trigger] descends(ns[k], ns[k + 1]) {
        assert forall|k: int| 0 <= k && k + 1 < ns.len() implies #[trigger] pair_ok(ns, k) by {
            assert(descends(ns[k], ns[k + 1]));
        }
    }
    if order_issues(ns).len() == 0 {
        assert forall|k: int| 0 <= k && k + 1 < ns.len() implies #[trigger] descends(
            ns[k],
            ns[k + 1],
        ) by {
            assert(pair_ok(ns, k));
        }
    }
}

} // verus!
