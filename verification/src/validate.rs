//! Checking a changelog for compliance issues: date formats, empty entries
//! and the order of released versions.
use vstd::prelude::*;
use crate::model::{
    Category, Changelog, ChangelogView, EntryView, Version, VersionView, category_name,
    versions_view,
};
use crate::text::{chars_of, pieces_view, split_by, split_vec, trim, trim_vec};
use crate::version::names_unreleased;

verus! {

// ---------------------------------------------------------------------------
// Dates and version numbers
// ---------------------------------------------------------------------------
/// `c` is one of the ASCII digits `0`..`9`.
pub open spec fn is_digit(c: char) -> bool {
    '0' <= c && c <= '9'
}

/// `d` has the form `YYYY-MM-DD`: ten characters, `-` at positions 4 and 7
/// and ASCII digits elsewhere.
pub open spec fn date_is_valid(d: Seq<char>) -> bool {
    &&& d.len() == 10
    &&& d[4] == '-'
    &&& d[7] == '-'
    &&& forall|i: int| 0 <= i < 10 && i != 4 && i != 7 ==> is_digit(#[trigger] d[i])
}

/// The decimal value of a sequence of digits.
pub open spec fn digits_value(ds: Seq<char>) -> int
    decreases ds.len(),
{
    if ds.len() == 0 {
        0
    } else {
        10 * digits_value(ds.drop_last()) + (ds.last() as int - '0' as int)
    }
}

/// `s` without a leading `+` that has more after it.
pub open spec fn digits_part(s: Seq<char>) -> Seq<char> {
    if s.len() > 1 && s[0] == '+' {
        s.skip(1)
    } else {
        s
    }
}

/// Every character of `ds` is an ASCII digit.
pub open spec fn all_digits(ds: Seq<char>) -> bool {
    forall|i: int| 0 <= i < ds.len() ==> is_digit(#[trigger] ds[i])
}

/// What `str::parse::<u64>` accepts: an optional `+` followed by at least
/// one ASCII digit, with a value that fits in `u64`.
pub open spec fn parse_u64(s: Seq<char>) -> Option<u64> {
    let ds = digits_part(s);
    if ds.len() > 0 && all_digits(ds) && digits_value(ds) <= u64::MAX {
        Some(digits_value(ds) as u64)
    } else {
        None
    }
}

/// A version string as `(major, minor, patch)`: exactly three `.`-separated
/// parts, each a `u64`.
pub open spec fn semver_of(v: Seq<char>) -> Option<(u64, u64, u64)> {
    let parts = split_by(v, '.');
    if parts.len() == 3 {
        match (parse_u64(parts[0]), parse_u64(parts[1]), parse_u64(parts[2])) {
            (Some(a), Some(b), Some(c)) => Some((a, b, c)),
            _ => None,
        }
    } else {
        None
    }
}

/// `a <= b` in the lexicographic order of triples.
pub open spec fn semver_le(a: (u64, u64, u64), b: (u64, u64, u64)) -> bool {
    a.0 < b.0 || (a.0 == b.0 && (a.1 < b.1 || (a.1 == b.1 && a.2 <= b.2)))
}

// ---------------------------------------------------------------------------
// Issues
// ---------------------------------------------------------------------------
/// The message for a date that is not `YYYY-MM-DD`.
pub open spec fn bad_date_message(name: Seq<char>, date: Seq<char>) -> Seq<char> {
    "Version "@ + name + " has invalid date format: "@ + date + " (expected YYYY-MM-DD)"@
}

/// The message for an entry with a blank description.
pub open spec fn empty_entry_message(name: Seq<char>, c: Category) -> Seq<char> {
    "Version "@ + name + " has an empty "@ + category_name(c) + " entry"@
}

/// The message for two released versions out of descending order.
pub open spec fn order_message(a: Seq<char>, b: Seq<char>) -> Seq<char> {
    "Versions are not in descending order: "@ + a + " should come after "@ + b
}

/// The issue with a version's date, if any.
pub open spec fn date_issues(v: VersionView) -> Seq<Seq<char>> {
    match v.date {
        Some(d) => if date_is_valid(d) {
            seq![]
        } else {
            seq![bad_date_message(v.name, d)]
        },
        None => seq![],
    }
}

/// One issue for each entry of `es` with a blank description.
pub open spec fn entry_issues(name: Seq<char>, es: Seq<EntryView>) -> Seq<Seq<char>>
    decreases es.len(),
{
    if es.len() == 0 {
        seq![]
    } else if trim(es.last().description).len() == 0 {
        entry_issues(name, es.drop_last()).push(empty_entry_message(name, es.last().category))
    } else {
        entry_issues(name, es.drop_last())
    }
}

/// The date and entry issues of the versions `vs`, version by version.
pub open spec fn version_issues(vs: Seq<VersionView>) -> Seq<Seq<char>>
    decreases vs.len(),
{
    if vs.len() == 0 {
        seq![]
    } else {
        let v = vs.last();
        version_issues(vs.drop_last()) + date_issues(v) + entry_issues(v.name, v.entries)
    }
}

/// The names of the released versions (those not named "Unreleased" up to case).
pub open spec fn released_names(vs: Seq<VersionView>) -> Seq<Seq<char>>
    decreases vs.len(),
{
    if vs.len() == 0 {
        seq![]
    } else if names_unreleased(vs.last().name) {
        released_names(vs.drop_last())
    } else {
        released_names(vs.drop_last()).push(vs.last().name)
    }
}

/// The issue for two neighbouring released versions, if both parse as
/// version numbers and the first is not greater.
pub open spec fn pair_issues(a: Seq<char>, b: Seq<char>) -> Seq<Seq<char>> {
    match (semver_of(a), semver_of(b)) {
        (Some(va), Some(vb)) => if semver_le(va, vb) {
            seq![order_message(a, b)]
        } else {
            seq![]
        },
        _ => seq![],
    }
}

/// The order issues of each pair of neighbouring names.
pub open spec fn order_issues(ns: Seq<Seq<char>>) -> Seq<Seq<char>>
    decreases ns.len(),
{
    if ns.len() < 2 {
        seq![]
    } else {
        order_issues(ns.drop_last()) + pair_issues(ns[ns.len() - 2], ns.last())
    }
}

/// What `Changelog::validate` reports.
pub open spec fn validate_spec(c: ChangelogView) -> Seq<Seq<char>> {
    version_issues(c.versions) + order_issues(released_names(c.versions))
}

// ---------------------------------------------------------------------------
// Executable checks
// ---------------------------------------------------------------------------
/// Check if a date string matches YYYY-MM-DD format.
pub fn is_valid_date(date: &str) -> (b: bool)
    ensures
        b == date_is_valid(date@),
{
    let d = chars_of(date);
    if d.len() != 10 {
        return false;
    }
    let mut i: usize = 0;
    while i < 10
        invariant
            d@ == date@,
            d@.len() == 10,
            i <= 10,
            forall|k: int| 0 <= k < i ==> (if k == 4 || k == 7 {
                d@[k] == '-'
            } else {
                is_digit(#[trigger] d@[k])
            }),
        decreases 10 - i,
    {
        let c = d[i];
        if i == 4 || i == 7 {
            if c != '-' {
                return false;
            }
        } else if !('0' <= c && c <= '9') {
            return false;
        }
        i = i + 1;
    }
    assert(d@[4] == '-');
    assert(d@[7] == '-');
    true
}

proof fn lemma_digits_prefix(ds: Seq<char>, k: int)
    requires
        0 <= k <= ds.len(),
        forall|i: int| 0 <= i < ds.len() ==> is_digit(#[trigger] ds[i]),
    ensures
        0 <= digits_value(ds.take(k)) <= digits_value(ds),
    decreases ds.len(),
{
    if k < ds.len() {
        assert(ds.drop_last().take(k) == ds.take(k));
        assert(forall|i: int| 0 <= i < ds.drop_last().len() ==> ds.drop_last()[i] == ds[i]);
        lemma_digits_prefix(ds.drop_last(), k);
        assert(is_digit(ds.last()));
    } else {
        assert(ds.take(k) == ds);
        lemma_digits_nonneg(ds);
    }
}

proof fn lemma_digits_nonneg(ds: Seq<char>)
    requires
        forall|i: int| 0 <= i < ds.len() ==> is_digit(#[trigger] ds[i]),
    ensures
        0 <= digits_value(ds),
    decreases ds.len(),
{
    if ds.len() > 0 {
        assert(forall|i: int| 0 <= i < ds.drop_last().len() ==> ds.drop_last()[i] == ds[i]);
        lemma_digits_nonneg(ds.drop_last());
        assert(is_digit(ds.last()));
    }
}

/// `parse_u64(s)`.
#[verifier::rlimit(30)]
fn parse_u64_exec(s: &Vec<char>) -> (r: Option<u64>)
    ensures
        r == parse_u64(s@),
{
    let start: usize = if s.len() > 1 && s[0] == '+' {
        1
    } else {
        0
    };
    let ghost ds = s@.skip(start as int);
    assert(ds == digits_part(s@)) by {
        if start == 0 {
            assert(s@.skip(0) == s@);
        }
    }
    if start == s.len() {
        assert(ds.len() == 0);
        assert(digits_part(s@).len() == 0);
        assert(parse_u64(s@) is None);
        return None;
    }
    let mut i = start;
    while i < s.len()
        invariant
            start <= i <= s@.len(),
            ds == s@.skip(start as int),
            ds == digits_part(s@),
            forall|k: int| 0 <= k < i - start ==> is_digit(#[trigger] ds[k]),
        decreases s.len() - i,
    {
        let c = s[i];
        if !('0' <= c && c <= '9') {
            assert(!is_digit(ds[i - start]));
            return None;
        }
        assert(ds[i - start] == c);
        i = i + 1;
    }
    let mut v: u64 = 0;
    let mut j = start;
    assert(ds.take(0) == Seq::<char>::empty());
    while j < s.len()
        invariant
            start <= j <= s@.len(),
            ds == s@.skip(start as int),
            ds == digits_part(s@),
            ds.len() == s@.len() - start,
            forall|k: int| 0 <= k < ds.len() ==> is_digit(#[trigger] ds[k]),
            v == digits_value(ds.take(j - start)),
        decreases s.len() - j,
    {
        let ghost m = j - start;
        assert(ds.take(m + 1).drop_last() == ds.take(m));
        assert(ds.take(m + 1).last() == s@[j as int]);
        let d = s[j];
        assert(is_digit(ds[m]));
        let dv: u64 = (d as u32 - '0' as u32) as u64;
        assert(dv as int == ds[m] as int - '0' as int);
        proof {
            lemma_digits_prefix(ds, m + 1);
        }
        match v.checked_mul(10) {
            Some(t) => match t.checked_add(dv) {
                Some(n) => {
                    v = n;
                },
                None => {
                    assert(digits_value(ds.take(m + 1)) == 10 * v + dv);
                    return None;
                },
            },
            None => {
                assert(digits_value(ds.take(m + 1)) == 10 * v + dv);
                return None;
            },
        }
        j = j + 1;
    }
    assert(ds.take(j - start) == ds);
    Some(v)
}

/// Parse a version string as (major, minor, patch). Returns None if not valid semver.
pub fn parse_semver(version: &str) -> (r: Option<(u64, u64, u64)>)
    ensures
        r == semver_of(version@),
{
    let cs = chars_of(version);
    let parts = split_vec(&cs, '.');
    if parts.len() != 3 {
        return None;
    }
    assert(pieces_view(parts@)[0] == parts@[0]@);
    assert(pieces_view(parts@)[1] == parts@[1]@);
    assert(pieces_view(parts@)[2] == parts@[2]@);
    let major = match parse_u64_exec(&parts[0]) {
        Some(x) => x,
        None => return None,
    };
    let minor = match parse_u64_exec(&parts[1]) {
        Some(x) => x,
        None => return None,
    };
    let patch = match parse_u64_exec(&parts[2]) {
        Some(x) => x,
        None => return None,
    };
    Some((major, minor, patch))
}

/// The characters of each string.
pub open spec fn strings_view(v: Seq<String>) -> Seq<Seq<char>> {
    v.map_values(|s: String| s@)
}

proof fn lemma_strings_push(v: Seq<String>, s: String)
    ensures
        strings_view(v.push(s)) == strings_view(v).push(s@),
{
    assert(strings_view(v.push(s)) =~= strings_view(v).push(s@));
}

/// Appends `msg` to the issues.
fn push_issue(issues: &mut Vec<String>, msg: String)
    ensures
        strings_view(final(issues)@) == strings_view(old(issues)@).push(msg@),
{
    let ghost before = issues@;
    issues.push(msg);
    proof {
        lemma_strings_push(before, msg);
    }
}

/// Appends the date and entry issues of `v`.
#[verifier::rlimit(30)]
fn push_version_issues(issues: &mut Vec<String>, v: &Version)
    ensures
        strings_view(final(issues)@) == strings_view(old(issues)@) + date_issues(v@) + entry_issues(
            v@.name,
            v@.entries,
        ),
{
    let ghost start = strings_view(issues@);
    // Check dates are YYYY-MM-DD
    if let Some(date) = &v.date {
        if !is_valid_date(date.as_str()) {
            let mut msg = "Version ".to_owned();
            msg.append(v.name.as_str());
            msg.append(" has invalid date format: ");
            msg.append(date.as_str());
            msg.append(" (expected YYYY-MM-DD)");
            assert(msg@ =~= bad_date_message(v.name@, date@));
            push_issue(issues, msg);
        }
    }
    let ghost mid = strings_view(issues@);
    assert(mid =~= start + date_issues(v@));
    // Check entries have non-empty descriptions
    let ghost es = v@.entries;
    let mut i: usize = 0;
    while i < v.entries.len()
        invariant
            i <= v.entries@.len(),
            es == v@.entries,
            strings_view(issues@) == mid + entry_issues(v@.name, es.take(i as int)),
        decreases v.entries.len() - i,
    {
        assert(es.take(i + 1).drop_last() == es.take(i as int));
        assert(es.take(i + 1).last() == v.entries@[i as int]@);
        let e = &v.entries[i];
        let dcs = chars_of(e.description.as_str());
        let t = trim_vec(&dcs);
        if t.len() == 0 {
            let mut msg = "Version ".to_owned();
            msg.append(v.name.as_str());
            msg.append(" has an empty ");
            msg.append(e.category.name());
            msg.append(" entry");
            assert(msg@ =~= empty_entry_message(v.name@, e.category));
            push_issue(issues, msg);
        }
        assert(strings_view(issues@) =~= mid + entry_issues(v@.name, es.take(i + 1)));
        i = i + 1;
    }
    assert(es.take(i as int) == es);
}

impl Changelog {
    /// Validate the changelog for compliance issues.
    ///
    /// Returns a list of human-readable issue descriptions.
    /// An empty list means the changelog is valid.
    #[verifier::rlimit(30)]
    pub fn validate(&self) -> (r: Vec<String>)
        ensures
            strings_view(r@) == validate_spec(self@),
    {
        let mut issues: Vec<String> = Vec::new();
        let ghost vs = versions_view(self.versions@);
        let mut i: usize = 0;
        while i < self.versions.len()
            invariant
                i <= self.versions@.len(),
                vs == versions_view(self.versions@),
                strings_view(issues@) == version_issues(vs.take(i as int)),
            decreases self.versions.len() - i,
        {
            assert(vs.take(i + 1).drop_last() == vs.take(i as int));
            assert(vs.take(i + 1).last() == self.versions@[i as int]@);
            push_version_issues(&mut issues, &self.versions[i]);
            i = i + 1;
        }
        assert(vs.take(i as int) == vs);
        let ghost front = strings_view(issues@);
        // Check version ordering (descending semver, skip Unreleased)
        let mut names: Vec<&String> = Vec::new();
        let mut k: usize = 0;
        while k < self.versions.len()
            invariant
                k <= self.versions@.len(),
                vs == versions_view(self.versions@),
                names@.map_values(|n: &String| n@) == released_names(vs.take(k as int)),
            decreases self.versions.len() - k,
        {
            assert(vs.take(k + 1).drop_last() == vs.take(k as int));
            assert(vs.take(k + 1).last() == self.versions@[k as int]@);
            if !self.versions[k].is_unreleased() {
                names.push(&self.versions[k].name);
            }
            assert(names@.map_values(|n: &String| n@) =~= released_names(vs.take(k + 1)));
            k = k + 1;
        }
        assert(vs.take(k as int) == vs);
        let ghost ns = names@.map_values(|n: &String| n@);
        if names.len() >= 2 {
            let mut w: usize = 1;
            assert(ns.take(1).len() < 2);
            assert(strings_view(issues@) =~= front + order_issues(ns.take(1)));
            while w < names.len()
                invariant
                    1 <= w <= names@.len(),
                    ns == names@.map_values(|n: &String| n@),
                    ns == released_names(vs),
                    strings_view(issues@) == front + order_issues(ns.take(w as int)),
                decreases names.len() - w,
            {
                let a = names[w - 1];
                let b = names[w];
                assert(ns.take(w + 1).drop_last() == ns.take(w as int));
                assert(ns.take(w + 1)[w - 1] == a@);
                assert(ns.take(w + 1).last() == b@);
                match (parse_semver(a.as_str()), parse_semver(b.as_str())) {
                    (Some(va), Some(vb)) => {
                        if va.0 < vb.0 || (va.0 == vb.0 && (va.1 < vb.1 || (va.1 == vb.1 && va.2
                            <= vb.2))) {
                            let mut msg = "Versions are not in descending order: ".to_owned();
                            msg.append(a.as_str());
                            msg.append(" should come after ");
                            msg.append(b.as_str());
                            assert(msg@ =~= order_message(a@, b@));
                            push_issue(&mut issues, msg);
                        }
                    },
                    _ => {},
                }
                assert(strings_view(issues@) =~= front + order_issues(ns.take(w + 1)));
                w = w + 1;
            }
            assert(ns.take(w as int) == ns);
        } else {
            assert(strings_view(issues@) =~= front + order_issues(ns));
        }
        assert(strings_view(issues@) =~= validate_spec(self@));
        issues
    }
}

} // verus!
