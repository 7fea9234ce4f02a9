//! Rendering a changelog and parsing the markdown gives the changelog back,
//! with its entries grouped by category and its Unreleased sections named
//! "Unreleased" without a date.
use vstd::prelude::*;
use crate::model::{Category, ChangelogView, EntryView, VersionView, category_name, category_order};
use crate::parse::{
    ScanState, body_lines, bracket_date, category_marker, dash_separator, description_of, doc_lines,
    entry_marker, finish, header_fields, header_panics, heading_from, heading_text, join_lines,
    lines, parse_lines, parse_panics, parse_spec, scan, scan_panics, scan_start, scan_step,
    section_start, split_pieces, strip_cr, title_at, title_index, title_marker, title_text,
    version_marker,
};
use crate::render::{
    render, render_front, render_group, render_groups, render_heading, render_items, render_version,
    render_versions,
};
use crate::text::{
    eq_ignore_ascii_case,is_ws, split_by, trim, trim_end, trim_start};
use crate::version::{names_unreleased, of_category, unreleased_name, with_entry};
use crate::model::{ParseErrorView};
use crate::text::{char_is, find_char, lemma_first_where_some, starts_with, strip_repeated};
use crate::laws::lemma_category_name_parses;

verus! {

// ---------------------------------------------------------------------------
// Lines of text
// ---------------------------------------------------------------------------
/// Each line followed by `'\n'`.
pub open spec fn unlines(ls: Seq<Seq<char>>) -> Seq<char>
    decreases ls.len(),
{
    if ls.len() == 0 {
        seq![]
    } else {
        unlines(ls.drop_last()) + ls.last() + seq!['\n']
    }
}

/// `s` has no line break.
pub open spec fn one_line(s: Seq<char>) -> bool {
    !s.contains('\n')
}

/// `s` is non-empty and starts and ends with a non-whitespace character.
pub open spec fn clean(s: Seq<char>) -> bool {
    s.len() > 0 && !is_ws(s[0]) && !is_ws(s.last())
}

pub proof fn lemma_unlines_append(a: Seq<Seq<char>>, b: Seq<Seq<char>>)
    ensures
        unlines(a + b) == unlines(a) + unlines(b),
    decreases b.len(),
{
    if b.len() == 0 {
        assert(a + b == a);
        assert(unlines(a) + unlines(b) == unlines(a));
    } else {
        assert((a + b).drop_last() == a + b.drop_last());
        assert((a + b).last() == b.last());
        lemma_unlines_append(a, b.drop_last());
        assert(unlines(a + b) =~= unlines(a) + unlines(b));
    }
}

pub proof fn lemma_unlines_join(ls: Seq<Seq<char>>)
    requires
        ls.len() > 0,
    ensures
        unlines(ls) == join_lines(ls) + seq!['\n'],
    decreases ls.len(),
{
    if ls.len() == 1 {
        assert(ls.drop_last().len() == 0);
        assert(unlines(ls.drop_last()) == Seq::<char>::empty());
        assert(ls.last() == ls[0]);
        assert(unlines(ls) =~= join_lines(ls) + seq!['\n']);
    } else {
        lemma_unlines_join(ls.drop_last());
        assert(unlines(ls) =~= join_lines(ls) + seq!['\n']);
    }
}

proof fn lemma_join_first(ls: Seq<Seq<char>>)
    requires
        ls.len() > 0,
        ls[0].len() > 0,
    ensures
        join_lines(ls).len() > 0,
        join_lines(ls)[0] == ls[0][0],
    decreases ls.len(),
{
    if ls.len() > 1 {
        assert(ls.drop_last()[0] == ls[0]);
        lemma_join_first(ls.drop_last());
    }
}

proof fn lemma_join_last(ls: Seq<Seq<char>>)
    requires
        ls.len() > 0,
        ls.last().len() > 0,
    ensures
        join_lines(ls).len() > 0,
        join_lines(ls).last() == ls.last().last(),
{
}

/// Trimming the rendered lines drops the final line break.
pub proof fn lemma_trim_unlines(ls: Seq<Seq<char>>)
    requires
        ls.len() > 0,
        ls[0].len() > 0,
        !is_ws(ls[0][0]),
        ls.last().len() > 0,
        !is_ws(ls.last().last()),
    ensures
        trim(unlines(ls)) == join_lines(ls),
{
    lemma_unlines_join(ls);
    lemma_join_first(ls);
    lemma_join_last(ls);
    let j = join_lines(ls);
    let s = j + seq!['\n'];
    assert(s[0] == j[0]);
    assert(trim_start(s) == s);
    assert(s.drop_last() == j);
    assert(is_ws('\n'));
    assert(trim_end(j) == j);
    assert(trim_end(s) == j);
}

proof fn lemma_split_one(t: Seq<char>, sep: char)
    requires
        !t.contains(sep),
    ensures
        split_by(t, sep) == seq![t],
    decreases t.len(),
{
    if t.len() > 0 {
        assert(t.last() == t[t.len() - 1]);
        assert(!t.drop_last().contains(sep)) by {
            if t.drop_last().contains(sep) {
                let k = choose|k: int| 0 <= k < t.drop_last().len() && t.drop_last()[k] == sep;
                assert(t[k] == sep);
            }
        }
        lemma_split_one(t.drop_last(), sep);
        assert(t.drop_last().push(t.last()) == t);
        assert(split_by(t, sep) =~= seq![t]);
    } else {
        assert(t == Seq::<char>::empty());
    }
}

proof fn lemma_split_after(s: Seq<char>, t: Seq<char>, sep: char)
    requires
        !t.contains(sep),
    ensures
        split_by(s + seq![sep] + t, sep) == split_by(s, sep).push(t),
    decreases t.len(),
{
    if t.len() == 0 {
        assert(s + seq![sep] + t == s.push(sep));
        assert((s.push(sep)).drop_last() == s);
        assert(t == Seq::<char>::empty());
    } else {
        let u = s + seq![sep] + t;
        assert(t.last() == t[t.len() - 1]);
        assert(!t.drop_last().contains(sep)) by {
            if t.drop_last().contains(sep) {
                let k = choose|k: int| 0 <= k < t.drop_last().len() && t.drop_last()[k] == sep;
                assert(t[k] == sep);
            }
        }
        lemma_split_after(s, t.drop_last(), sep);
        assert(u.drop_last() == s + seq![sep] + t.drop_last());
        assert(u.last() == t.last());
        assert(t.drop_last().push(t.last()) == t);
        assert(split_by(u, sep) =~= split_by(s, sep).push(t));
    }
}

/// Splitting joined lines at line breaks gives the lines back.
pub proof fn lemma_split_join(ls: Seq<Seq<char>>)
    requires
        ls.len() > 0,
        forall|i: int| 0 <= i < ls.len() ==> one_line(#[trigger] ls[i]),
    ensures
        split_pieces(join_lines(ls)) == ls,
    decreases ls.len(),
{
    if ls.len() == 1 {
        assert(one_line(ls[0]));
        lemma_split_one(ls[0], '\n');
        assert(seq![ls[0]] == ls);
    } else {
        let init = ls.drop_last();
        assert forall|i: int| 0 <= i < init.len() implies one_line(#[trigger] init[i]) by {
            assert(init[i] == ls[i]);
        }
        lemma_split_join(init);
        assert(one_line(ls[ls.len() - 1]));
        lemma_split_after(join_lines(init), ls.last(), '\n');
        assert(init.push(ls.last()) == ls);
    }
}

/// The lines of joined lines are those lines.
pub proof fn lemma_lines_join(ls: Seq<Seq<char>>)
    requires
        ls.len() > 0,
        forall|i: int| 0 <= i < ls.len() ==> one_line(#[trigger] ls[i]),
        forall|i: int| 0 <= i < ls.len() ==> strip_cr(#[trigger] ls[i]) == ls[i],
        ls.last().len() > 0,
        ls.last().last() != '\n',
    ensures
        lines(join_lines(ls)) == ls,
{
    lemma_split_join(ls);
    lemma_join_last(ls);
    assert(lines(join_lines(ls)) =~= ls);
}

/// `s` has no carriage return directly before a line break.
pub open spec fn no_crlf(s: Seq<char>) -> bool {
    forall|i: int| 0 <= i < s.len() - 1 ==> !(#[trigger] s[i] == '\r' && s[i + 1] == '\n')
}

/// `l` ends with a carriage return.
pub open spec fn ends_with_cr(l: Seq<char>) -> bool {
    l.len() > 0 && l.last() == '\r'
}

proof fn lemma_join_extend_last(ls: Seq<Seq<char>>, c: char)
    requires
        ls.len() > 0,
    ensures
        join_lines(ls.drop_last().push(ls.last().push(c))) == join_lines(ls).push(c),
{
    let m = ls.drop_last().push(ls.last().push(c));
    assert(m.drop_last() == ls.drop_last());
    assert(m.last() == ls.last().push(c));
    if ls.len() == 1 {
        assert(m[0] == ls[0].push(c));
    } else {
        assert(join_lines(m) =~= join_lines(ls).push(c));
    }
}

/// Joining the pieces of `s` at line breaks gives `s` back.
pub proof fn lemma_join_split(s: Seq<char>)
    ensures
        join_lines(split_pieces(s)) == s,
    decreases s.len(),
{
    if s.len() == 0 {
        assert(split_pieces(s) == seq![Seq::<char>::empty()]);
        assert(s == Seq::<char>::empty());
    } else {
        let init = s.drop_last();
        lemma_join_split(init);
        crate::text::lemma_split_by_nonempty(init, '\n');
        let p = split_pieces(init);
        if s.last() == '\n' {
            let q = p.push(seq![]);
            assert(q.drop_last() == p);
            assert(join_lines(q) =~= s);
        } else {
            lemma_join_extend_last(p, s.last());
            assert(init.push(s.last()) == s);
        }
    }
}

#[verifier::rlimit(30)]
proof fn lemma_pieces_facts(s: Seq<char>, sep: char)
    ensures
        split_by(s, sep).len() >= 1,
        forall|k: int| 0 <= k < split_by(s, sep).len() ==> !(#[trigger] split_by(s, sep)[k]).contains(sep),
        split_by(s, sep).last().len() > 0 ==> s.len() > 0 && split_by(s, sep).last().last() == s.last(),
        s.len() > 0 && s.last() != sep ==> split_by(s, sep).last().len() > 0,
    decreases s.len(),
{
    if s.len() > 0 {
        let init = s.drop_last();
        lemma_pieces_facts(init, sep);
        let p = split_by(init, sep);
        let q = split_by(s, sep);
        assert forall|k: int| 0 <= k < q.len() implies !(#[trigger] q[k]).contains(sep) by {
            if k < p.len() - 1 {
                assert(q[k] == p[k]);
            } else if s.last() == sep {
                if k == q.len() - 1 {
                    assert(q[k] == Seq::<char>::empty());
                    assert(!Seq::<char>::empty().contains(sep));
                } else {
                    assert(q[k] == p[k]);
                }
            } else {
                assert(q[k] == p.last().push(s.last()));
                assert(!p.last().contains(sep));
                if q[k].contains(sep) {
                    let j = choose|j: int| 0 <= j < q[k].len() && q[k][j] == sep;
                    if j < p.last().len() {
                        assert(p.last()[j] == sep);
                    }
                }
            }
        }
    } else {
        assert(split_by(s, sep) == seq![Seq::<char>::empty()]);
        assert(!Seq::<char>::empty().contains(sep));
    }
}

#[verifier::rlimit(30)]
proof fn lemma_pieces_no_cr(s: Seq<char>)
    requires
        no_crlf(s),
    ensures
        forall|k: int| 0 <= k < split_pieces(s).len() - 1 ==> !ends_with_cr(#[trigger] split_pieces(s)[k]),
    decreases s.len(),
{
    if s.len() > 0 {
        let init = s.drop_last();
        assert(no_crlf(init)) by {
            assert forall|i: int| 0 <= i < init.len() - 1 implies !(#[trigger] init[i] == '\r' && init[i + 1] == '\n') by {
                assert(init[i] == s[i] && init[i + 1] == s[i + 1]);
            }
        }
        lemma_pieces_no_cr(init);
        lemma_pieces_facts(init, '\n');
        let p = split_pieces(init);
        let q = split_pieces(s);
        assert forall|k: int| 0 <= k < q.len() - 1 implies !ends_with_cr(#[trigger] q[k]) by {
            if s.last() == '\n' {
                assert(q[k] == p[k]);
                if k == p.len() - 1 && ends_with_cr(p[k]) {
                    assert(p.last().last() == init.last());
                    assert(s[init.len() - 1] == '\r' && s[init.len() as int] == '\n');
                }
            } else {
                assert(q[k] == p[k]);
            }
        }
    }
}

/// Joining `a` and `b` puts a line break between their texts.
pub proof fn lemma_join_append(a: Seq<Seq<char>>, b: Seq<Seq<char>>)
    requires
        a.len() > 0,
        b.len() > 0,
    ensures
        join_lines(a + b) == join_lines(a) + seq!['\n'] + join_lines(b),
    decreases b.len(),
{
    if b.len() == 1 {
        assert((a + b).drop_last() == a);
        assert((a + b).last() == b[0]);
    } else {
        lemma_join_append(a, b.drop_last());
        assert((a + b).drop_last() == a + b.drop_last());
        assert((a + b).last() == b.last());
        assert(join_lines(a + b) =~= join_lines(a) + seq!['\n'] + join_lines(b));
    }
}

// ---------------------------------------------------------------------------
// The lines of a rendered changelog
// ---------------------------------------------------------------------------
/// The line of an entry: `- description`.
pub open spec fn item_line(e: EntryView) -> Seq<char> {
    entry_marker() + e.description
}

/// The lines of the entries `g`.
pub open spec fn item_lines(g: Seq<EntryView>) -> Seq<Seq<char>>
    decreases g.len(),
{
    if g.len() == 0 {
        seq![]
    } else {
        item_lines(g.drop_last()).push(item_line(g.last()))
    }
}

/// The heading line of a category: `### Name`.
pub open spec fn category_line(c: Category) -> Seq<char> {
    category_marker() + category_name(c)
}

/// The lines of category `c`'s section for the entries `es`.
pub open spec fn group_lines(es: Seq<EntryView>, c: Category) -> Seq<Seq<char>> {
    let g = of_category(es, c);
    if g.len() == 0 {
        seq![]
    } else {
        seq![seq![], category_line(c), seq![]] + item_lines(g)
    }
}

/// The lines of the sections of the first `n` categories.
pub open spec fn groups_lines(es: Seq<EntryView>, n: int) -> Seq<Seq<char>>
    decreases n,
{
    if n <= 0 {
        seq![]
    } else {
        groups_lines(es, n - 1) + group_lines(es, category_order()[n - 1])
    }
}

/// The heading line of a version.
pub open spec fn heading_line(v: VersionView) -> Seq<char> {
    if names_unreleased(v.name) {
        version_marker() + seq!['['] + unreleased_name() + seq![']']
    } else {
        match v.date {
            Some(d) => version_marker() + seq!['['] + v.name + seq![']'] + dash_separator() + d,
            None => version_marker() + seq!['['] + v.name + seq![']'],
        }
    }
}

/// The lines of a version.
pub open spec fn version_lines(v: VersionView) -> Seq<Seq<char>> {
    seq![seq![], heading_line(v)] + groups_lines(v.entries, 6)
}

/// The lines of the versions `vs`.
pub open spec fn versions_lines(vs: Seq<VersionView>) -> Seq<Seq<char>>
    decreases vs.len(),
{
    if vs.len() == 0 {
        seq![]
    } else {
        versions_lines(vs.drop_last()) + version_lines(vs.last())
    }
}

/// The lines of the title and description.
pub open spec fn front_lines(c: ChangelogView) -> Seq<Seq<char>> {
    seq![title_marker() + c.title] + match c.description {
        Some(d) => seq![seq![]] + split_pieces(d),
        None => seq![],
    }
}

/// The lines of the rendered changelog.
pub open spec fn rendered_lines(c: ChangelogView) -> Seq<Seq<char>> {
    front_lines(c) + versions_lines(c.versions)
}

proof fn lemma_unlines_one(l: Seq<char>)
    ensures
        unlines(seq![l]) == l + seq!['\n'],
{
    assert(seq![l].drop_last() == Seq::<Seq<char>>::empty());
    assert(unlines(Seq::<Seq<char>>::empty()) == Seq::<char>::empty());
    assert(unlines(seq![l]) =~= l + seq!['\n']);
}

proof fn lemma_unlines_three(a: Seq<char>, b: Seq<char>, c: Seq<char>)
    ensures
        unlines(seq![a, b, c]) == a + seq!['\n'] + b + seq!['\n'] + c + seq!['\n'],
{
    let s = seq![a, b, c];
    assert(s.drop_last() == seq![a, b]);
    assert(seq![a, b].drop_last() == seq![a]);
    lemma_unlines_one(a);
    assert(unlines(seq![a, b]) == unlines(seq![a]) + b + seq!['\n']);
    assert(unlines(s) == unlines(seq![a, b]) + c + seq!['\n']);
    assert(unlines(s) =~= a + seq!['\n'] + b + seq!['\n'] + c + seq!['\n']);
}

proof fn lemma_render_items(g: Seq<EntryView>)
    ensures
        render_items(g) == unlines(item_lines(g)),
    decreases g.len(),
{
    if g.len() > 0 {
        lemma_render_items(g.drop_last());
        reveal_strlit("- ");
        reveal_strlit("\n");
        assert("- "@ == entry_marker());
        assert("\n"@ == seq!['\n']);
        assert(item_lines(g).drop_last() == item_lines(g.drop_last()));
        assert(render_items(g) =~= unlines(item_lines(g)));
    }
}

proof fn lemma_render_group(es: Seq<EntryView>, c: Category)
    ensures
        render_group(es, c) == unlines(group_lines(es, c)),
{
    let g = of_category(es, c);
    if g.len() > 0 {
        lemma_render_items(g);
        lemma_unlines_append(seq![seq![], category_line(c), seq![]], item_lines(g));
        lemma_unlines_three(seq![], category_line(c), seq![]);
        reveal_strlit("\n### ");
        reveal_strlit("\n\n");
        assert(render_group(es, c) =~= unlines(group_lines(es, c)));
    }
}

proof fn lemma_render_groups(es: Seq<EntryView>, n: int)
    ensures
        render_groups(es, n) == unlines(groups_lines(es, n)),
    decreases n,
{
    if n > 0 {
        lemma_render_groups(es, n - 1);
        lemma_render_group(es, category_order()[n - 1]);
        lemma_unlines_append(groups_lines(es, n - 1), group_lines(es, category_order()[n - 1]));
    }
}

proof fn lemma_render_heading(v: VersionView)
    ensures
        render_heading(v) == heading_line(v) + seq!['\n'],
{
    reveal_strlit("## [Unreleased]\n");
    reveal_strlit("## [");
    reveal_strlit("] - ");
    reveal_strlit("\n");
    reveal_strlit("]\n");
    assert(render_heading(v) =~= heading_line(v) + seq!['\n']);
}

proof fn lemma_render_version(v: VersionView)
    ensures
        render_version(v) == unlines(version_lines(v)),
{
    lemma_render_heading(v);
    lemma_render_groups(v.entries, 6);
    lemma_unlines_append(seq![seq![], heading_line(v)], groups_lines(v.entries, 6));
    assert(seq![seq![], heading_line(v)].drop_last() == seq![Seq::<char>::empty()]);
    lemma_unlines_one(seq![]);
    reveal_strlit("\n");
    assert(render_version(v) =~= unlines(version_lines(v)));
}

proof fn lemma_render_versions(vs: Seq<VersionView>)
    ensures
        render_versions(vs) == unlines(versions_lines(vs)),
    decreases vs.len(),
{
    if vs.len() > 0 {
        lemma_render_versions(vs.drop_last());
        lemma_render_version(vs.last());
        lemma_unlines_append(versions_lines(vs.drop_last()), version_lines(vs.last()));
    }
}

/// The rendered markdown is the rendered lines, each followed by a line break.
pub proof fn lemma_render_lines(c: ChangelogView)
    ensures
        render(c) == unlines(rendered_lines(c)),
{
    lemma_render_versions(c.versions);
    lemma_unlines_append(front_lines(c), versions_lines(c.versions));
    reveal_strlit("# ");
    reveal_strlit("\n");
    assert("# "@ == title_marker());
    assert("\n"@ == seq!['\n']);
    lemma_unlines_one(title_marker() + c.title);
    match c.description {
        Some(d) => {
            let head: Seq<Seq<char>> = seq![title_marker() + c.title, seq![]];
            assert(front_lines(c) =~= head + split_pieces(d));
            lemma_unlines_append(head, split_pieces(d));
            assert(head.drop_last() == seq![title_marker() + c.title]);
            crate::text::lemma_split_by_nonempty(d, '\n');
            lemma_unlines_join(split_pieces(d));
            lemma_join_split(d);
            assert(render_front(c) == "# "@ + c.title + "\n"@ + ("\n"@ + d + "\n"@));
            assert(render_front(c) =~= unlines(front_lines(c)));
        },
        None => {
            assert(front_lines(c) =~= seq![title_marker() + c.title]);
            assert(render_front(c) =~= unlines(front_lines(c)));
        },
    }
}

// ---------------------------------------------------------------------------
// Conditions under which the markdown reads back
// ---------------------------------------------------------------------------
/// `s` has no leading or trailing whitespace (it may be empty).
pub open spec fn trimmed(s: Seq<char>) -> bool {
    trim(s) == s
}

/// An entry whose description is a trimmed single line.
pub open spec fn entry_ok(e: EntryView) -> bool {
    trimmed(e.description) && one_line(e.description)
}

/// Every entry of `es` is fine.
pub open spec fn entries_ok(es: Seq<EntryView>) -> bool {
    forall|k: int| 0 <= k < es.len() ==> entry_ok(#[trigger] es[k])
}

/// A version name that a `[name]` heading gives back.
pub open spec fn name_ok(n: Seq<char>) -> bool {
    (n.len() == 0 || clean(n)) && one_line(n) && !n.contains(']')
}

/// A version that renders and reads back: clean single-line entries, and,
/// unless it is an Unreleased section (which renders as `[Unreleased]`
/// without a date), a name as above and a clean single-line date.
pub open spec fn version_ok(v: VersionView) -> bool {
    &&& entries_ok(v.entries)
    &&& !names_unreleased(v.name) ==> {
        &&& name_ok(v.name)
        &&& match v.date {
            Some(d) => clean(d) && one_line(d),
            None => true,
        }
    }
}

/// A changelog whose markdown parses back: a trimmed single-line title that
/// does not start with `# ` (and is not empty unless something follows it),
/// a clean description (if any) with no `\r` before a line break and no line
/// starting with `## `, versions as above, and, since trailing whitespace of
/// the whole text is trimmed away, a last rendered entry (if any) with a
/// non-empty description.
pub open spec fn renders_back(c: ChangelogView) -> bool {
    &&& trimmed(c.title)
    &&& one_line(c.title)
    &&& !starts_with(c.title, title_marker())
    &&& (c.title.len() > 0 || c.description is Some || c.versions.len() > 0)
    &&& match c.description {
        Some(d) => {
            &&& clean(d)
            &&& no_crlf(d)
            &&& forall|k: int|
                0 <= k < split_pieces(d).len() ==> !starts_with(
                    #[trigger] split_pieces(d)[k],
                    version_marker(),
                )
        },
        None => true,
    }
    &&& forall|i: int| 0 <= i < c.versions.len() ==> version_ok(#[trigger] c.versions[i])
    &&& c.versions.len() > 0 ==> ends_filled(c.versions.last())
}

/// The entries of the first `n` categories, category by category.
pub open spec fn grouped_upto(es: Seq<EntryView>, n: int) -> Seq<EntryView>
    decreases n,
{
    if n <= 0 {
        seq![]
    } else {
        grouped_upto(es, n - 1) + of_category(es, category_order()[n - 1])
    }
}

/// The entries grouped by category in the standard order, each group in
/// the order of `es`.
pub open spec fn grouped(es: Seq<EntryView>) -> Seq<EntryView> {
    grouped_upto(es, 6)
}

/// A version as it reads back: Unreleased sections named "Unreleased"
/// without a date, entries grouped by category.
pub open spec fn normal_version(v: VersionView) -> VersionView {
    if names_unreleased(v.name) {
        VersionView { name: unreleased_name(), date: None, entries: grouped(v.entries) }
    } else {
        VersionView { name: v.name, date: v.date, entries: grouped(v.entries) }
    }
}

/// A changelog as it reads back.
pub open spec fn normal_form(c: ChangelogView) -> ChangelogView {
    ChangelogView {
        title: c.title,
        description: c.description,
        versions: c.versions.map_values(|v: VersionView| normal_version(v)),
    }
}

// ---------------------------------------------------------------------------
// Scanning from a state
// ---------------------------------------------------------------------------
/// The state after the lines `ls`, starting from `st`.
pub open spec fn scan_from(st: ScanState, ls: Seq<Seq<char>>) -> Result<ScanState, ParseErrorView>
    decreases ls.len(),
{
    if ls.len() == 0 {
        Ok(st)
    } else {
        match scan_from(st, ls.drop_last()) {
            Ok(s2) => scan_step(s2, ls.last()),
            Err(e) => Err(e),
        }
    }
}

proof fn lemma_scan_is_scan_from(ls: Seq<Seq<char>>)
    ensures
        scan(ls) == scan_from(scan_start(), ls),
    decreases ls.len(),
{
    if ls.len() > 0 {
        lemma_scan_is_scan_from(ls.drop_last());
    }
}

proof fn lemma_scan_from_append(st: ScanState, a: Seq<Seq<char>>, b: Seq<Seq<char>>)
    ensures
        scan_from(st, a + b) == match scan_from(st, a) {
            Ok(s) => scan_from(s, b),
            Err(e) => Err(e),
        },
    decreases b.len(),
{
    if b.len() == 0 {
        assert(a + b == a);
    } else {
        lemma_scan_from_append(st, a, b.drop_last());
        assert((a + b).drop_last() == a + b.drop_last());
        assert((a + b).last() == b.last());
    }
}

// ---------------------------------------------------------------------------
// One line at a time
// ---------------------------------------------------------------------------
proof fn lemma_trim_clean(s: Seq<char>)
    requires
        clean(s),
    ensures
        trim(s) == s,
{
    assert(trim_start(s) == s);
    assert(trim_end(s) == s);
}

proof fn lemma_trim_start_len(s: Seq<char>)
    ensures
        trim_start(s).len() <= s.len(),
    decreases s.len(),
{
    if s.len() > 0 && is_ws(s[0]) {
        lemma_trim_start_len(s.drop_first());
    }
}

proof fn lemma_trim_end_len(s: Seq<char>)
    ensures
        trim_end(s).len() <= s.len(),
    decreases s.len(),
{
    if s.len() > 0 && is_ws(s.last()) {
        lemma_trim_end_len(s.drop_last());
    }
}

/// A non-empty trimmed text is clean.
proof fn lemma_trimmed_clean(s: Seq<char>)
    requires
        trimmed(s),
        s.len() > 0,
    ensures
        clean(s),
{
    lemma_trim_start_len(s);
    lemma_trim_end_len(trim_start(s));
    if is_ws(s[0]) {
        lemma_trim_start_len(s.drop_first());
        assert(false);
    }
    assert(trim_start(s) == s);
    if is_ws(s.last()) {
        lemma_trim_end_len(s.drop_last());
        assert(false);
    }
}

proof fn lemma_not_marker(l: Seq<char>, p: Seq<char>, k: int)
    requires
        0 <= k < p.len(),
        k < l.len(),
        l[k] != p[k],
    ensures
        !starts_with(l, p),
{
    if starts_with(l, p) {
        assert(l.take(p.len() as int)[k] == l[k]);
    }
}

proof fn lemma_strip_once(p: Seq<char>, x: Seq<char>)
    requires
        p.len() > 0,
        !starts_with(x, p),
    ensures
        strip_repeated(p + x, p) == x,
{
    let s = p + x;
    assert(s.take(p.len() as int) == p);
    assert(s.skip(p.len() as int) == x);
    assert(strip_repeated(x, p) == x);
}

#[verifier::rlimit(30)]
proof fn lemma_step_blank(st: ScanState)
    ensures
        scan_step(st, seq![]) == Ok::<ScanState, ParseErrorView>(st),
{
    reveal(scan_step);
    let e: Seq<char> = seq![];
    assert(!starts_with(e, version_marker()));
    assert(!starts_with(e, category_marker()));
    assert(!starts_with(e, entry_marker()));
    assert(trim_start(e) == e);
    assert(trim_end(e) == e);
}

#[verifier::rlimit(30)]
proof fn lemma_step_item(st: ScanState, e: EntryView)
    requires
        st.current is Some,
        st.category == Some(e.category),
        trimmed(e.description),
    ensures
        scan_step(st, item_line(e)) == Ok::<ScanState, ParseErrorView>(
            ScanState { current: Some(with_entry(st.current.unwrap(), e)), ..st },
        ),
{
    reveal(scan_step);
    let l = item_line(e);
    lemma_not_marker(l, version_marker(), 0);
    lemma_not_marker(l, category_marker(), 0);
    assert(l.take(2) == entry_marker());
    assert(l.skip(2) == e.description);
    assert(ScanState { current: Some(with_entry(st.current.unwrap(), e)), ..st } =~= scan_step(
        st,
        l,
    )->Ok_0);
}

#[verifier::rlimit(30)]
proof fn lemma_step_category(st: ScanState, c: Category)
    ensures
        scan_step(st, category_line(c)) == Ok::<ScanState, ParseErrorView>(
            ScanState { category: Some(c), ..st },
        ),
{
    reveal(scan_step);
    let l = category_line(c);
    let n = category_name(c);
    lemma_not_marker(l, version_marker(), 2);
    assert(l.take(4) == category_marker());
    assert(!starts_with(n, category_marker())) by {
        lemma_not_marker(n, category_marker(), 0);
    }
    lemma_strip_once(category_marker(), n);
    assert(clean(n));
    lemma_trim_clean(n);
    lemma_category_name_parses(c);
}

/// The text of a heading `[n]` or `[n] - d`.
pub open spec fn bracket_text(n: Seq<char>, od: Option<Seq<char>>) -> Seq<char> {
    seq!['['] + n + seq![']'] + match od {
        Some(d) => dash_separator() + d,
        None => seq![],
    }
}

proof fn lemma_trim_empty()
    ensures
        trim(Seq::<char>::empty()) == Seq::<char>::empty(),
{
    let e = Seq::<char>::empty();
    assert(trim_start(e) == e);
    assert(trim_end(e) == e);
}

proof fn lemma_trim_dropping_space(d: Seq<char>)
    requires
        clean(d),
    ensures
        trim(seq![' '] + d) == d,
{
    let s = seq![' '] + d;
    assert(is_ws(' '));
    assert(s.drop_first() == d);
    assert(trim_start(d) == d);
    assert(trim_start(s) == d);
    assert(trim_end(d) == d);
}

proof fn lemma_bracket_date(d: Seq<char>)
    requires
        clean(d),
    ensures
        bracket_date(trim(dash_separator() + d)) == Some(d),
{
    let s = dash_separator() + d;
    let r = seq!['-', ' '] + d;
    assert(is_ws(' '));
    assert(s.drop_first() == r);
    assert(trim_start(r) == r);
    assert(trim_start(s) == r);
    assert(r.last() == d.last());
    assert(trim_end(r) == r);
    assert(trim(s) == r);
    let dash = seq!['-'];
    assert(r.take(1) == dash);
    assert(r.skip(1) == seq![' '] + d);
    lemma_not_marker(seq![' '] + d, dash, 0);
    assert(strip_repeated(seq![' '] + d, dash) == seq![' '] + d);
    assert(strip_repeated(r, dash) == seq![' '] + d);
    lemma_trim_dropping_space(d);
}

proof fn lemma_find_close(n: Seq<char>, od: Option<Seq<char>>)
    requires
        !n.contains(']'),
    ensures
        find_char(bracket_text(n, od), ']') == Some(n.len() as int + 1),
{
    let h = bracket_text(n, od);
    let p = |k: int| char_is(h, k, ']');
    assert forall|k: int| 0 <= k < n.len() + 1 implies !#[trigger] p(k) by {
        if k > 0 {
            assert(h[k] == n[k - 1]);
            assert(!(n[k - 1] == ']')) by {
                if n[k - 1] == ']' {
                    assert(n.contains(']'));
                }
            }
        }
    }
    let e: int = n.len() as int + 1;
    assert(p(e));
    lemma_first_where_some(h.len() as int, p, e);
}

#[verifier::rlimit(30)]
proof fn lemma_header_fields(n: Seq<char>, od: Option<Seq<char>>)
    requires
        name_ok(n),
        od matches Some(d) ==> clean(d),
    ensures
        header_fields(bracket_text(n, od)) == (n, od),
        !header_panics(bracket_text(n, od)),
{
    let h = bracket_text(n, od);
    lemma_find_close(n, od);
    let e: int = n.len() as int + 1;
    assert(h.subrange(1, e) == n);
    if n.len() == 0 {
        lemma_trim_empty();
    } else {
        lemma_trim_clean(n);
    }
    match od {
        Some(d) => {
            assert(h.skip(e + 1) == dash_separator() + d);
            lemma_bracket_date(d);
        },
        None => {
            assert(h.skip(e + 1) == Seq::<char>::empty());
            lemma_trim_empty();
        },
    }
}

#[verifier::rlimit(30)]
proof fn lemma_step_heading_parts(st: ScanState, n: Seq<char>, od: Option<Seq<char>>)
    requires
        name_ok(n),
        od matches Some(d) ==> clean(d),
    ensures
        ({
            let l = version_marker() + bracket_text(n, od);
            &&& starts_with(l, version_marker())
            &&& !header_panics(heading_text(l))
            &&& scan_step(st, l) == Ok::<ScanState, ParseErrorView>(
                ScanState {
                    done: finish(st),
                    current: Some(VersionView { name: n, date: od, entries: seq![] }),
                    category: None,
                },
            )
        }),
{
    reveal(scan_step);
    let h = bracket_text(n, od);
    let l = version_marker() + h;
    assert(l.take(3) == version_marker());
    lemma_not_marker(h, version_marker(), 0);
    lemma_strip_once(version_marker(), h);
    assert(clean(h)) by {
        match od {
            Some(d) => {
                assert(h.last() == d.last());
            },
            None => {},
        }
    }
    lemma_trim_clean(h);
    lemma_header_fields(n, od);
}

proof fn lemma_unreleased_name_ok()
    ensures
        name_ok(unreleased_name()),
{
    let u = unreleased_name();
    assert(!u.contains('\n')) by {
        if u.contains('\n') {
            let k = choose|k: int| 0 <= k < u.len() && u[k] == '\n';
        }
    }
    assert(!u.contains(']')) by {
        if u.contains(']') {
            let k = choose|k: int| 0 <= k < u.len() && u[k] == ']';
        }
    }
}

proof fn lemma_heading_line(v: VersionView)
    requires
        version_ok(v),
    ensures
        ({
            let nv = normal_version(v);
            &&& name_ok(nv.name)
            &&& nv.date matches Some(d) ==> clean(d)
            &&& heading_line(v) == version_marker() + bracket_text(nv.name, nv.date)
        }),
{
    let nv = normal_version(v);
    if names_unreleased(v.name) {
        lemma_unreleased_name_ok();
        assert(heading_line(v) =~= version_marker() + bracket_text(nv.name, nv.date));
    } else {
        assert(heading_line(v) =~= version_marker() + bracket_text(nv.name, nv.date));
    }
}

// ---------------------------------------------------------------------------
// Whole sections
// ---------------------------------------------------------------------------
proof fn lemma_of_category_ok(es: Seq<EntryView>, c: Category)
    requires
        entries_ok(es),
    ensures
        forall|k: int|
            0 <= k < of_category(es, c).len() ==> (#[trigger] of_category(es, c)[k]).category == c
                && entry_ok(of_category(es, c)[k]),
    decreases es.len(),
{
    if es.len() > 0 {
        assert(entries_ok(es.drop_last())) by {
            assert forall|k: int| 0 <= k < es.drop_last().len() implies entry_ok(
                #[trigger] es.drop_last()[k],
            ) by {
                assert(es.drop_last()[k] == es[k]);
            }
        }
        assert(entry_ok(es[es.len() - 1]));
        lemma_of_category_ok(es.drop_last(), c);
    }
}

#[verifier::rlimit(30)]
proof fn lemma_scan_items(st: ScanState, v: VersionView, c: Category, g: Seq<EntryView>)
    requires
        st.current == Some(v),
        st.category == Some(c),
        forall|k: int| 0 <= k < g.len() ==> (#[trigger] g[k]).category == c && entry_ok(g[k]),
    ensures
        scan_from(st, item_lines(g)) == Ok::<ScanState, ParseErrorView>(
            ScanState { current: Some(VersionView { entries: v.entries + g, ..v }), ..st },
        ),
    decreases g.len(),
{
    if g.len() == 0 {
        assert(v.entries + g == v.entries);
        assert(ScanState { current: Some(VersionView { entries: v.entries + g, ..v }), ..st } == st);
    } else {
        let init = g.drop_last();
        assert forall|k: int| 0 <= k < init.len() implies (#[trigger] init[k]).category == c
            && entry_ok(init[k]) by {
            assert(init[k] == g[k]);
        }
        lemma_scan_items(st, v, c, init);
        assert(item_lines(g).drop_last() == item_lines(init));
        let mid = ScanState { current: Some(VersionView { entries: v.entries + init, ..v }), ..st };
        let e = g[g.len() - 1];
        assert(g.last() == e);
        assert(e.category == c && entry_ok(e));
        lemma_step_item(mid, e);
        assert(with_entry(VersionView { entries: v.entries + init, ..v }, e) == VersionView {
            entries: v.entries + g,
            ..v
        }) by {
            assert((v.entries + init).push(e) =~= v.entries + g);
        }
    }
}

#[verifier::rlimit(30)]
proof fn lemma_scan_group(st: ScanState, v: VersionView, es: Seq<EntryView>, c: Category)
    requires
        st.current == Some(v),
        entries_ok(es),
    ensures
        scan_from(st, group_lines(es, c)) matches Ok(s2) && s2.done == st.done && s2.current == Some(
            VersionView { entries: v.entries + of_category(es, c), ..v },
        ),
{
    let g = of_category(es, c);
    if g.len() == 0 {
        assert(v.entries + g == v.entries);
        assert(VersionView { entries: v.entries + g, ..v } == v);
    } else {
        let head: Seq<Seq<char>> = seq![seq![], category_line(c), seq![]];
        lemma_scan_from_append(st, head, item_lines(g));
        assert(head.drop_last() == seq![seq![], category_line(c)]);
        assert(seq![Seq::<char>::empty(), category_line(c)].drop_last() == seq![
            Seq::<char>::empty(),
        ]);
        assert(seq![Seq::<char>::empty()].drop_last() == Seq::<Seq<char>>::empty());
        lemma_step_blank(st);
        lemma_step_category(st, c);
        let s1 = ScanState { category: Some(c), ..st };
        lemma_step_blank(s1);
        let e: Seq<Seq<char>> = Seq::empty();
        let h1: Seq<Seq<char>> = seq![seq![]];
        let h2: Seq<Seq<char>> = seq![seq![], category_line(c)];
        assert(scan_from(st, e) == Ok::<ScanState, ParseErrorView>(st));
        assert(h1.drop_last() == e && h1.last() == Seq::<char>::empty());
        assert(scan_from(st, h1) == Ok::<ScanState, ParseErrorView>(st));
        assert(h2.drop_last() == h1 && h2.last() == category_line(c));
        assert(scan_from(st, h2) == Ok::<ScanState, ParseErrorView>(s1));
        assert(head.drop_last() == h2 && head.last() == Seq::<char>::empty());
        assert(scan_from(st, head) == Ok::<ScanState, ParseErrorView>(s1));
        lemma_of_category_ok(es, c);
        lemma_scan_items(s1, v, c, g);
    }
}

#[verifier::rlimit(30)]
proof fn lemma_scan_groups(st: ScanState, v: VersionView, es: Seq<EntryView>, n: int)
    requires
        st.current == Some(v),
        entries_ok(es),
        0 <= n <= 6,
    ensures
        scan_from(st, groups_lines(es, n)) matches Ok(s2) && s2.done == st.done && s2.current
            == Some(VersionView { entries: v.entries + grouped_upto(es, n), ..v }),
    decreases n,
{
    if n == 0 {
        assert(v.entries + grouped_upto(es, 0) == v.entries);
        assert(VersionView { entries: v.entries + grouped_upto(es, 0), ..v } == v);
    } else {
        lemma_scan_groups(st, v, es, n - 1);
        let s1 = scan_from(st, groups_lines(es, n - 1))->Ok_0;
        let v1 = VersionView { entries: v.entries + grouped_upto(es, n - 1), ..v };
        let c = category_order()[n - 1];
        lemma_scan_from_append(st, groups_lines(es, n - 1), group_lines(es, c));
        lemma_scan_group(s1, v1, es, c);
        assert(v1.entries + of_category(es, c) =~= v.entries + grouped_upto(es, n));
    }
}

#[verifier::rlimit(30)]
proof fn lemma_scan_version(st: ScanState, v: VersionView)
    requires
        version_ok(v),
    ensures
        scan_from(st, version_lines(v)) matches Ok(s2) && s2.done == finish(st) && s2.current
            == Some(normal_version(v)),
{
    let nv = normal_version(v);
    lemma_heading_line(v);
    let head: Seq<Seq<char>> = seq![seq![], heading_line(v)];
    lemma_scan_from_append(st, head, groups_lines(v.entries, 6));
    assert(head.drop_last() == seq![Seq::<char>::empty()]);
    assert(seq![Seq::<char>::empty()].drop_last() == Seq::<Seq<char>>::empty());
    lemma_step_blank(st);
    lemma_step_heading_parts(st, nv.name, nv.date);
    let v0 = VersionView { name: nv.name, date: nv.date, entries: seq![] };
    let s1 = ScanState { done: finish(st), current: Some(v0), category: None };
    let e: Seq<Seq<char>> = Seq::empty();
    let h1: Seq<Seq<char>> = seq![seq![]];
    assert(scan_from(st, e) == Ok::<ScanState, ParseErrorView>(st));
    assert(h1.drop_last() == e && h1.last() == Seq::<char>::empty());
    assert(scan_from(st, h1) == Ok::<ScanState, ParseErrorView>(st));
    assert(head.drop_last() == h1 && head.last() == heading_line(v));
    assert(scan_from(st, head) == Ok::<ScanState, ParseErrorView>(s1));
    lemma_scan_groups(s1, v0, v.entries, 6);
    assert(v0.entries + grouped_upto(v.entries, 6) =~= grouped(v.entries));
}

#[verifier::rlimit(30)]
proof fn lemma_scan_versions(vs: Seq<VersionView>)
    requires
        forall|i: int| 0 <= i < vs.len() ==> version_ok(#[trigger] vs[i]),
    ensures
        scan_from(scan_start(), versions_lines(vs)) matches Ok(s2) && finish(s2) == vs.map_values(
            |v: VersionView| normal_version(v),
        ),
    decreases vs.len(),
{
    if vs.len() == 0 {
        assert(finish(scan_start()) =~= vs.map_values(|v: VersionView| normal_version(v)));
    } else {
        let init = vs.drop_last();
        assert forall|i: int| 0 <= i < init.len() implies version_ok(#[trigger] init[i]) by {
            assert(init[i] == vs[i]);
        }
        lemma_scan_versions(init);
        let s1 = scan_from(scan_start(), versions_lines(init))->Ok_0;
        lemma_scan_from_append(scan_start(), versions_lines(init), version_lines(vs.last()));
        assert(version_ok(vs[vs.len() - 1]));
        lemma_scan_version(s1, vs.last());
        assert(finish(scan_from(scan_start(), versions_lines(vs))->Ok_0) =~= vs.map_values(
            |v: VersionView| normal_version(v),
        ));
    }
}

// ---------------------------------------------------------------------------
// Shape of the rendered lines
// ---------------------------------------------------------------------------
/// A line that reads back as itself: no line break, no final carriage
/// return, and not a version heading that parsing cannot handle.
pub open spec fn line_fine(l: Seq<char>) -> bool {
    &&& one_line(l)
    &&& !ends_with_cr(l)
    &&& !(starts_with(l, version_marker()) && header_panics(heading_text(l)))
}

/// Every line of `ls` is fine.
pub open spec fn all_fine(ls: Seq<Seq<char>>) -> bool {
    forall|i: int| 0 <= i < ls.len() ==> line_fine(#[trigger] ls[i])
}

proof fn lemma_all_fine_append(a: Seq<Seq<char>>, b: Seq<Seq<char>>)
    requires
        all_fine(a),
        all_fine(b),
    ensures
        all_fine(a + b),
{
    assert forall|i: int| 0 <= i < (a + b).len() implies line_fine(#[trigger] (a + b)[i]) by {
        if i < a.len() {
            assert((a + b)[i] == a[i]);
        } else {
            assert((a + b)[i] == b[i - a.len()]);
        }
    }
}

proof fn lemma_one_line_concat(a: Seq<char>, b: Seq<char>)
    requires
        one_line(a),
        one_line(b),
    ensures
        one_line(a + b),
{
    if (a + b).contains('\n') {
        let k = choose|k: int| 0 <= k < (a + b).len() && (a + b)[k] == '\n';
        if k < a.len() {
            assert(a[k] == '\n');
            assert(a.contains('\n'));
        } else {
            assert(b[k - a.len()] == '\n');
            assert(b.contains('\n'));
        }
    }
}

proof fn lemma_one_line_literal(a: Seq<char>)
    requires
        forall|k: int| 0 <= k < a.len() ==> a[k] != '\n',
    ensures
        one_line(a),
{
}

proof fn lemma_blank_fine()
    ensures
        line_fine(seq![]),
{
    let e: Seq<char> = seq![];
    assert(!starts_with(e, version_marker()));
    assert(!e.contains('\n')) by {
        if e.contains('\n') {
            let k = choose|k: int| 0 <= k < e.len() && e[k] == '\n';
        }
    }
}

#[verifier::rlimit(30)]
proof fn lemma_item_lines_fine(g: Seq<EntryView>)
    requires
        forall|k: int| 0 <= k < g.len() ==> entry_ok(#[trigger] g[k]),
    ensures
        all_fine(item_lines(g)),
        item_lines(g).len() == g.len(),
    decreases g.len(),
{
    if g.len() > 0 {
        let init = g.drop_last();
        assert forall|k: int| 0 <= k < init.len() implies entry_ok(#[trigger] init[k]) by {
            assert(init[k] == g[k]);
        }
        lemma_item_lines_fine(init);
        let e = g[g.len() - 1];
        assert(entry_ok(e));
        let l = item_line(e);
        lemma_one_line_literal(entry_marker());
        lemma_one_line_concat(entry_marker(), e.description);
        lemma_not_marker(l, version_marker(), 0);
        if e.description.len() > 0 {
            lemma_trimmed_clean(e.description);
            assert(l.last() == e.description.last());
        } else {
            assert(l.last() == ' ');
        }
        assert(is_ws('\r'));
        assert(line_fine(l));
        assert forall|i: int| 0 <= i < item_lines(g).len() implies line_fine(
            #[trigger] item_lines(g)[i],
        ) by {
            if i < init.len() {
                assert(item_lines(g)[i] == item_lines(init)[i]);
            }
        }
    }
}

#[verifier::rlimit(30)]
proof fn lemma_group_lines_fine(es: Seq<EntryView>, c: Category)
    requires
        entries_ok(es),
    ensures
        all_fine(group_lines(es, c)),
        group_lines(es, c).len() > 0 <==> of_category(es, c).len() > 0,
        of_category(es, c).len() > 0 ==> group_lines(es, c).last() == item_line(
            of_category(es, c).last(),
        ),
{
    let g = of_category(es, c);
    if g.len() > 0 {
        lemma_of_category_ok(es, c);
        lemma_item_lines_fine(g);
        let l = category_line(c);
        let n = category_name(c);
        lemma_one_line_literal(category_marker());
        lemma_one_line_literal(n);
        lemma_one_line_concat(category_marker(), n);
        lemma_not_marker(l, version_marker(), 2);
        assert(l.last() == n.last());
        assert(is_ws('\r'));
        assert(line_fine(l));
        lemma_blank_fine();
        let head: Seq<Seq<char>> = seq![seq![], l, seq![]];
        assert(all_fine(head));
        lemma_all_fine_append(head, item_lines(g));
        assert(item_lines(g).last() == item_line(g.last()));
    }
}

/// A line that is non-empty and ends without whitespace.
pub open spec fn solid(l: Seq<char>) -> bool {
    l.len() > 0 && !is_ws(l.last())
}

#[verifier::rlimit(30)]
proof fn lemma_groups_lines_fine(es: Seq<EntryView>, n: int)
    requires
        entries_ok(es),
    ensures
        all_fine(groups_lines(es, n)),
        groups_lines(es, n).len() > 0 <==> grouped_upto(es, n).len() > 0,
        grouped_upto(es, n).len() > 0 ==> groups_lines(es, n).last() == item_line(
            grouped_upto(es, n).last(),
        ),
    decreases n,
{
    if n > 0 {
        let c = category_order()[n - 1];
        lemma_groups_lines_fine(es, n - 1);
        lemma_group_lines_fine(es, c);
        lemma_all_fine_append(groups_lines(es, n - 1), group_lines(es, c));
        if of_category(es, c).len() > 0 {
            assert(grouped_upto(es, n).last() == of_category(es, c).last());
        } else {
            assert(grouped_upto(es, n) =~= grouped_upto(es, n - 1));
            assert(groups_lines(es, n) =~= groups_lines(es, n - 1));
        }
    }
}

/// The last entry that a version renders (if any) has a non-empty description.
pub open spec fn ends_filled(v: VersionView) -> bool {
    let g = grouped(v.entries);
    g.len() == 0 || g.last().description.len() > 0
}

proof fn lemma_groups_last_solid(v: VersionView)
    requires
        entries_ok(v.entries),
        ends_filled(v),
    ensures
        groups_lines(v.entries, 6).len() > 0 ==> solid(groups_lines(v.entries, 6).last()),
{
    lemma_groups_lines_fine(v.entries, 6);
    let g = grouped(v.entries);
    if g.len() > 0 {
        let e = g.last();
        lemma_grouped_entries_ok(v.entries, 6);
        assert(entry_ok(g[g.len() - 1]));
        lemma_trimmed_clean(e.description);
        assert(item_line(e).last() == e.description.last());
    }
}

proof fn lemma_grouped_entries_ok(es: Seq<EntryView>, n: int)
    requires
        entries_ok(es),
    ensures
        entries_ok(grouped_upto(es, n)),
    decreases n,
{
    if n > 0 {
        let c = category_order()[n - 1];
        lemma_grouped_entries_ok(es, n - 1);
        lemma_of_category_ok(es, c);
        let a = grouped_upto(es, n - 1);
        let b = of_category(es, c);
        assert forall|k: int| 0 <= k < (a + b).len() implies entry_ok(#[trigger] (a + b)[k]) by {
            if k < a.len() {
                assert((a + b)[k] == a[k]);
            } else {
                assert((a + b)[k] == b[k - a.len()]);
            }
        }
    }
}

proof fn lemma_bracket_one_line(n: Seq<char>, od: Option<Seq<char>>)
    requires
        one_line(n),
        od matches Some(d) ==> one_line(d) && clean(d),
    ensures
        one_line(bracket_text(n, od)),
        solid(bracket_text(n, od)),
{
    let h = bracket_text(n, od);
    lemma_one_line_literal(seq!['[']);
    lemma_one_line_literal(seq![']']);
    lemma_one_line_concat(seq!['['], n);
    lemma_one_line_concat(seq!['['] + n, seq![']']);
    match od {
        Some(d) => {
            lemma_one_line_literal(dash_separator());
            lemma_one_line_concat(dash_separator(), d);
            lemma_one_line_concat(seq!['['] + n + seq![']'], dash_separator() + d);
            assert(h.last() == d.last());
        },
        None => {
            assert(h == seq!['['] + n + seq![']']);
        },
    }
}

#[verifier::rlimit(30)]
proof fn lemma_heading_line_fine(v: VersionView)
    requires
        version_ok(v),
    ensures
        line_fine(heading_line(v)),
        solid(heading_line(v)),
{
    let nv = normal_version(v);
    lemma_heading_line(v);
    lemma_step_heading_parts(scan_start(), nv.name, nv.date);
    let h = bracket_text(nv.name, nv.date);
    let l = heading_line(v);
    lemma_bracket_one_line(nv.name, nv.date);
    lemma_one_line_literal(version_marker());
    lemma_one_line_concat(version_marker(), h);
    assert(l.last() == h.last());
}

#[verifier::rlimit(30)]
proof fn lemma_version_lines_fine(v: VersionView)
    requires
        version_ok(v),
    ensures
        all_fine(version_lines(v)),
        ends_filled(v) ==> solid(version_lines(v).last()),
        version_lines(v).len() >= 2,
        version_lines(v)[0] == Seq::<char>::empty(),
        version_lines(v)[1] == heading_line(v),
{
    lemma_heading_line_fine(v);
    lemma_blank_fine();
    let head: Seq<Seq<char>> = seq![seq![], heading_line(v)];
    assert(all_fine(head));
    lemma_groups_lines_fine(v.entries, 6);
    lemma_all_fine_append(head, groups_lines(v.entries, 6));
    if ends_filled(v) {
        lemma_groups_last_solid(v);
    }
}

proof fn lemma_versions_lines_fine(vs: Seq<VersionView>)
    requires
        forall|i: int| 0 <= i < vs.len() ==> version_ok(#[trigger] vs[i]),
    ensures
        all_fine(versions_lines(vs)),
        vs.len() > 0 ==> {
            &&& versions_lines(vs).len() >= 2
            &&& versions_lines(vs)[0] == Seq::<char>::empty()
            &&& versions_lines(vs)[1] == heading_line(vs[0])
            &&& ends_filled(vs.last()) ==> solid(versions_lines(vs).last())
        },
        vs.len() == 0 ==> versions_lines(vs).len() == 0,
    decreases vs.len(),
{
    if vs.len() > 0 {
        let init = vs.drop_last();
        assert forall|i: int| 0 <= i < init.len() implies version_ok(#[trigger] init[i]) by {
            assert(init[i] == vs[i]);
        }
        lemma_versions_lines_fine(init);
        assert(version_ok(vs[vs.len() - 1]));
        lemma_version_lines_fine(vs.last());
        lemma_all_fine_append(versions_lines(init), version_lines(vs.last()));
        if init.len() > 0 {
            assert(init[0] == vs[0]);
        } else {
            assert(versions_lines(vs) == version_lines(vs.last()));
            assert(vs.last() == vs[0]);
        }
    }
}

// ---------------------------------------------------------------------------
// The whole document
// ---------------------------------------------------------------------------
proof fn lemma_no_panics(ls: Seq<Seq<char>>)
    requires
        all_fine(ls),
    ensures
        !scan_panics(ls),
    decreases ls.len(),
{
    if ls.len() > 0 {
        let init = ls.drop_last();
        assert forall|i: int| 0 <= i < init.len() implies line_fine(#[trigger] init[i]) by {
            assert(init[i] == ls[i]);
        }
        lemma_no_panics(init);
        assert(line_fine(ls[ls.len() - 1]));
    }
}

#[verifier::rlimit(30)]
proof fn lemma_description_lines_fine(d: Seq<char>)
    requires
        clean(d),
        no_crlf(d),
        forall|k: int|
            0 <= k < split_pieces(d).len() ==> !starts_with(#[trigger] split_pieces(d)[k], version_marker()),
    ensures
        all_fine(split_pieces(d)),
        split_pieces(d).len() > 0,
        solid(split_pieces(d).last()),
{
    let p = split_pieces(d);
    lemma_pieces_facts(d, '\n');
    lemma_pieces_no_cr(d);
    assert(is_ws('\n') && is_ws('\r'));
    assert forall|k: int| 0 <= k < p.len() implies line_fine(#[trigger] p[k]) by {
        assert(!p[k].contains('\n'));
        assert(!starts_with(p[k], version_marker()));
        if k == p.len() - 1 {
            assert(p[k] == p.last());
        } else {
            assert(!ends_with_cr(p[k]));
        }
    }
}

proof fn lemma_front_fine(c: ChangelogView)
    requires
        renders_back(c),
    ensures
        all_fine(front_lines(c)),
        (c.title.len() > 0 || c.description is Some) ==> solid(front_lines(c).last()),
        front_lines(c)[0] == title_marker() + c.title,
        forall|i: int| 1 <= i < front_lines(c).len() ==> !starts_with(#[trigger] front_lines(c)[i], version_marker()),
{
    let tl = title_marker() + c.title;
    lemma_one_line_literal(title_marker());
    lemma_one_line_concat(title_marker(), c.title);
    lemma_not_marker(tl, version_marker(), 1);
    if c.title.len() > 0 {
        lemma_trimmed_clean(c.title);
        assert(tl.last() == c.title.last());
    } else {
        assert(tl.last() == ' ');
    }
    assert(is_ws('\r'));
    assert(line_fine(tl));
    lemma_blank_fine();
    match c.description {
        Some(d) => {
            let head: Seq<Seq<char>> = seq![tl, seq![]];
            let p = split_pieces(d);
            let f = head + p;
            assert(front_lines(c) =~= f);
            lemma_description_lines_fine(d);
            assert(all_fine(head));
            lemma_all_fine_append(head, p);
            assert(f.last() == p.last());
            assert forall|i: int| 1 <= i < f.len() implies !starts_with(#[trigger] f[i], version_marker()) by {
                if i == 1 {
                    assert(!starts_with(Seq::<char>::empty(), version_marker()));
                } else {
                    assert(f[i] == p[i - 2]);
                }
            }
        },
        None => {
            assert(front_lines(c) =~= seq![tl]);
        },
    }
}

proof fn lemma_trim_around(d: Seq<char>, after: bool)
    requires
        clean(d),
    ensures
        trim(seq!['\n'] + d + (if after {
            seq!['\n']
        } else {
            seq![]
        })) == d,
{
    let tail: Seq<char> = if after {
        seq!['\n']
    } else {
        seq![]
    };
    let s = seq!['\n'] + d + tail;
    assert(is_ws('\n'));
    assert(s.drop_first() == d + tail);
    assert((d + tail)[0] == d[0]);
    assert(trim_start(d + tail) == d + tail);
    assert(trim_start(s) == d + tail);
    if after {
        assert((d + tail).drop_last() == d);
        assert(trim_end(d) == d);
        assert(trim_end(d + tail) == d);
    } else {
        assert(d + tail == d);
        assert(trim_end(d) == d);
    }
}

/// Where the version headings start in the rendered lines.
pub open spec fn versions_start(c: ChangelogView) -> int {
    if c.versions.len() > 0 {
        front_lines(c).len() as int + 1
    } else {
        rendered_lines(c).len() as int
    }
}

#[verifier::rlimit(30)]
proof fn lemma_doc_lines(c: ChangelogView)
    requires
        renders_back(c),
    ensures
        trim(render(c)).len() > 0,
        doc_lines(render(c)) == rendered_lines(c),
        all_fine(rendered_lines(c)),
{
    let vs = c.versions;
    let f = front_lines(c);
    let v = versions_lines(vs);
    let ls = rendered_lines(c);
    lemma_render_lines(c);
    lemma_front_fine(c);
    lemma_versions_lines_fine(vs);
    lemma_all_fine_append(f, v);
    assert(ls[0] == f[0]);
    assert(ls[0][0] == '#');
    assert(solid(ls.last())) by {
        if v.len() > 0 {
            assert(ls.last() == v.last());
        } else {
            assert(ls =~= f);
        }
    }
    lemma_trim_unlines(ls);
    assert forall|i: int| 0 <= i < ls.len() implies one_line(#[trigger] ls[i]) by {
        assert(line_fine(ls[i]));
    }
    assert forall|i: int| 0 <= i < ls.len() implies strip_cr(#[trigger] ls[i]) == ls[i] by {
        assert(line_fine(ls[i]));
        assert(is_ws('\r'));
    }
    assert(is_ws('\n'));
    lemma_lines_join(ls);
    lemma_join_first(ls);
}

#[verifier::rlimit(30)]
proof fn lemma_title(c: ChangelogView)
    requires
        renders_back(c),
    ensures
        title_index(rendered_lines(c)) == Some(0int),
        title_text(rendered_lines(c)[0]) == c.title,
{
    let ls = rendered_lines(c);
    let f = front_lines(c);
    lemma_front_fine(c);
    assert(ls[0] == f[0]);
    let pt = |i: int| title_at(ls, i);
    assert(f[0].take(2) == title_marker());
    assert(pt(0));
    lemma_first_where_some(ls.len() as int, pt, 0);
    lemma_strip_once(title_marker(), c.title);
}

#[verifier::rlimit(30)]
proof fn lemma_versions_start(c: ChangelogView)
    requires
        renders_back(c),
    ensures
        section_start(rendered_lines(c), 1) == versions_start(c),
{
    let vs = c.versions;
    let f = front_lines(c);
    let v = versions_lines(vs);
    let ls = rendered_lines(c);
    lemma_front_fine(c);
    lemma_versions_lines_fine(vs);
    let k = versions_start(c);
    let ph = |i: int| heading_from(ls, 1, i);
    assert forall|i: int| 0 <= i < k && i < ls.len() implies !#[trigger] ph(i) by {
        if 1 <= i < f.len() {
            assert(ls[i] == f[i]);
        } else if i == f.len() {
            assert(ls[i] == v[0]);
            assert(!starts_with(Seq::<char>::empty(), version_marker()));
        }
    }
    if v.len() > 0 {
        assert(ls[k] == v[1]);
        assert(version_ok(vs[0]));
        lemma_heading_line(vs[0]);
        assert(v[1].take(3) == version_marker());
        assert(ph(k));
        lemma_first_where_some(ls.len() as int, ph, k);
    } else {
        crate::text::lemma_first_where_none(ls.len() as int, ph);
    }
}

/// The lines between the title and the first version heading.
pub open spec fn description_region(desc: Option<Seq<char>>, has_versions: bool) -> Seq<Seq<char>> {
    (match desc {
        Some(d) => seq![seq![]] + split_pieces(d),
        None => seq![],
    }) + if has_versions {
        seq![seq![]]
    } else {
        seq![]
    }
}

proof fn lemma_region_text(desc: Option<Seq<char>>, has_versions: bool)
    requires
        desc matches Some(d) ==> clean(d),
    ensures
        ({
            let text = trim(join_lines(description_region(desc, has_versions)));
            desc == (if text.len() == 0 {
                None
            } else {
                Some(text)
            })
        }),
{
    let region = description_region(desc, has_versions);
    lemma_trim_empty();
    let blank: Seq<Seq<char>> = seq![seq![]];
    assert(join_lines(blank) == Seq::<char>::empty());
    match desc {
        Some(d) => {
            let p = split_pieces(d);
            crate::text::lemma_split_by_nonempty(d, '\n');
            lemma_join_split(d);
            lemma_join_append(blank, p);
            assert(join_lines(blank + p) =~= seq!['\n'] + d);
            if has_versions {
                assert(region =~= (blank + p) + blank);
                lemma_join_append(blank + p, blank);
                assert(join_lines(region) =~= seq!['\n'] + d + seq!['\n']);
                lemma_trim_around(d, true);
            } else {
                assert(region =~= blank + p);
                assert(join_lines(region) =~= seq!['\n'] + d + Seq::<char>::empty());
                lemma_trim_around(d, false);
            }
        },
        None => {
            if has_versions {
                assert(region =~= blank);
            } else {
                assert(region =~= Seq::<Seq<char>>::empty());
            }
        },
    }
}

proof fn lemma_front_region(c: ChangelogView)
    requires
        c.versions.len() > 0 ==> versions_lines(c.versions).len() >= 2 && versions_lines(
            c.versions,
        )[0] == Seq::<char>::empty(),
        c.versions.len() == 0 ==> versions_lines(c.versions).len() == 0,
    ensures
        rendered_lines(c).subrange(1, versions_start(c)) == description_region(
            c.description,
            versions_lines(c.versions).len() > 0,
        ),
{
    let v = versions_lines(c.versions);
    let ls = rendered_lines(c);
    let region = description_region(c.description, v.len() > 0);
    assert(ls.subrange(1, versions_start(c)) =~= region);
}

proof fn lemma_description(c: ChangelogView)
    requires
        renders_back(c),
    ensures
        description_of(rendered_lines(c), 0) == c.description,
{
    let v = versions_lines(c.versions);
    lemma_versions_lines_fine(c.versions);
    lemma_versions_start(c);
    lemma_front_region(c);
    lemma_region_text(c.description, v.len() > 0);
}

/// The version lines after the first (blank) one.
pub open spec fn body_of(v: Seq<Seq<char>>) -> Seq<Seq<char>> {
    if v.len() > 0 {
        v.skip(1)
    } else {
        v
    }
}

#[verifier::rlimit(30)]
proof fn lemma_body_shape(c: ChangelogView)
    requires
        renders_back(c),
    ensures
        body_lines(rendered_lines(c), 0) == body_of(versions_lines(c.versions)),
        all_fine(body_lines(rendered_lines(c), 0)),
{
    let v = versions_lines(c.versions);
    let ls = rendered_lines(c);
    let f = front_lines(c);
    lemma_doc_lines(c);
    lemma_versions_lines_fine(c.versions);
    lemma_versions_start(c);
    let k = versions_start(c);
    let body = body_lines(ls, 0);
    assert(body == ls.subrange(k, ls.len() as int));
    assert(body =~= body_of(v));
    assert forall|i: int| 0 <= i < body.len() implies line_fine(#[trigger] body[i]) by {
        assert(body[i] == ls[k + i]);
    }
}

proof fn lemma_scan_body(vs: Seq<VersionView>)
    requires
        forall|i: int| 0 <= i < vs.len() ==> version_ok(#[trigger] vs[i]),
    ensures
        scan(body_of(versions_lines(vs))) matches Ok(st) && finish(st) == vs.map_values(
            |v: VersionView| normal_version(v),
        ),
{
    let v = versions_lines(vs);
    let body = body_of(v);
    lemma_versions_lines_fine(vs);
    lemma_scan_versions(vs);
    lemma_scan_is_scan_from(body);
    if v.len() > 0 {
        let blank: Seq<Seq<char>> = seq![seq![]];
        assert(v =~= blank + body);
        lemma_scan_from_append(scan_start(), blank, body);
        let e: Seq<Seq<char>> = Seq::empty();
        assert(blank.drop_last() == e && blank.last() == Seq::<char>::empty());
        assert(scan_from(scan_start(), e) == Ok::<ScanState, ParseErrorView>(scan_start()));
        lemma_step_blank(scan_start());
        assert(scan_from(scan_start(), blank) == Ok::<ScanState, ParseErrorView>(scan_start()));
    }
}

proof fn lemma_body(c: ChangelogView)
    requires
        renders_back(c),
    ensures
        !scan_panics(body_lines(rendered_lines(c), 0)),
        scan(body_lines(rendered_lines(c), 0)) matches Ok(st) && finish(st)
            == normal_form(c).versions,
{
    lemma_body_shape(c);
    lemma_no_panics(body_lines(rendered_lines(c), 0));
    lemma_scan_body(c.versions);
}

/// Rendering a changelog to markdown and parsing the markdown gives the
/// changelog back, with each version's entries grouped by category in the
/// standard order and each Unreleased section named "Unreleased" without a
/// date; parsing it never panics. This holds for every changelog whose
/// texts render as lines that read back unchanged (see [`renders_back`]).
#[verifier::rlimit(30)]
pub proof fn lemma_render_then_parse(c: ChangelogView)
    requires
        renders_back(c),
    ensures
        !parse_panics(render(c)),
        parse_spec(render(c)) == Ok::<ChangelogView, ParseErrorView>(normal_form(c)),
{
    let ls = rendered_lines(c);
    lemma_doc_lines(c);
    lemma_title(c);
    lemma_description(c);
    lemma_body(c);
    let st = scan(body_lines(ls, 0))->Ok_0;
    assert(parse_lines(ls) == Ok::<ChangelogView, ParseErrorView>(
        ChangelogView { title: c.title, description: c.description, versions: finish(st) },
    ));
    assert(ChangelogView { title: c.title, description: c.description, versions: finish(st) }
        == normal_form(c));
}

/// A changelog already in the form that parsing gives (entries grouped by
/// category, Unreleased sections named "Unreleased" without a date) reads
/// back exactly from its markdown.
pub proof fn lemma_normal_roundtrip(c: ChangelogView)
    requires
        renders_back(c),
        normal_form(c) == c,
    ensures
        parse_spec(render(c)) == Ok::<ChangelogView, ParseErrorView>(c),
{
    lemma_render_then_parse(c);
}

// ---------------------------------------------------------------------------
// The markdown is stable
// ---------------------------------------------------------------------------
proof fn lemma_of_category_append(a: Seq<EntryView>, b: Seq<EntryView>, c: Category)
    ensures
        of_category(a + b, c) == of_category(a, c) + of_category(b, c),
    decreases b.len(),
{
    if b.len() == 0 {
        assert(a + b == a);
        assert(of_category(a, c) + of_category(b, c) == of_category(a, c));
    } else {
        lemma_of_category_append(a, b.drop_last(), c);
        assert((a + b).drop_last() == a + b.drop_last());
        assert((a + b).last() == b.last());
        assert(of_category(a + b, c) =~= of_category(a, c) + of_category(b, c));
    }
}

proof fn lemma_of_category_twice(es: Seq<EntryView>, c: Category, d: Category)
    ensures
        of_category(of_category(es, d), c) == (if c == d {
            of_category(es, c)
        } else {
            Seq::<EntryView>::empty()
        }),
    decreases es.len(),
{
    if es.len() > 0 {
        lemma_of_category_twice(es.drop_last(), c, d);
        if es.last().category == d {
            let inner = of_category(es, d);
            assert(inner.drop_last() == of_category(es.drop_last(), d));
            assert(inner.last() == es.last());
        }
    }
}

proof fn lemma_of_category_grouped_upto(es: Seq<EntryView>, c: Category, n: int)
    requires
        0 <= n <= 6,
    ensures
        of_category(grouped_upto(es, n), c) == (if exists|k: int| 0 <= k < n && category_order()[k] == c {
            of_category(es, c)
        } else {
            Seq::<EntryView>::empty()
        }),
    decreases n,
{
    if n > 0 {
        let d = category_order()[n - 1];
        lemma_of_category_grouped_upto(es, c, n - 1);
        lemma_of_category_append(grouped_upto(es, n - 1), of_category(es, d), c);
        lemma_of_category_twice(es, c, d);
        let seen = exists|k: int| 0 <= k < n - 1 && category_order()[k] == c;
        if seen {
            let k = choose|k: int| 0 <= k < n - 1 && category_order()[k] == c;
            assert(0 <= k < n && category_order()[k] == c);
            assert(c != d);
        } else if c == d {
            assert(0 <= n - 1 < n && category_order()[n - 1] == c);
        } else {
            assert forall|k: int| 0 <= k < n implies category_order()[k] != c by {
                if k < n - 1 {
                } else {
                    assert(category_order()[k] == d);
                }
            }
        }
    } else {
        assert(of_category(Seq::<EntryView>::empty(), c) == Seq::<EntryView>::empty());
    }
}

/// Grouping the entries by category does not change any category's entries.
pub proof fn lemma_grouped_same_categories(es: Seq<EntryView>, c: Category)
    ensures
        of_category(grouped(es), c) == of_category(es, c),
{
    lemma_of_category_grouped_upto(es, c, 6);
    let k: int = match c {
        Category::Added => 0,
        Category::Changed => 1,
        Category::Deprecated => 2,
        Category::Removed => 3,
        Category::Fixed => 4,
        Category::Security => 5,
    };
    assert(0 <= k < 6 && category_order()[k] == c);
}

proof fn lemma_render_groups_grouped(es: Seq<EntryView>, n: int)
    ensures
        render_groups(grouped(es), n) == render_groups(es, n),
    decreases n,
{
    if n > 0 {
        lemma_render_groups_grouped(es, n - 1);
        lemma_grouped_same_categories(es, category_order()[n - 1]);
    }
}

proof fn lemma_render_normal_version(v: VersionView)
    ensures
        render_version(normal_version(v)) == render_version(v),
{
    lemma_render_groups_grouped(v.entries, 6);
    if names_unreleased(v.name) {
        assert(eq_ignore_ascii_case(unreleased_name(), unreleased_name()));
    }
}

proof fn lemma_render_normal_versions(vs: Seq<VersionView>)
    ensures
        render_versions(vs.map_values(|v: VersionView| normal_version(v))) == render_versions(vs),
    decreases vs.len(),
{
    if vs.len() > 0 {
        let f = |v: VersionView| normal_version(v);
        lemma_render_normal_versions(vs.drop_last());
        assert(vs.map_values(f).drop_last() == vs.drop_last().map_values(f));
        assert(vs.map_values(f).last() == normal_version(vs.last()));
        lemma_render_normal_version(vs.last());
    }
}

/// Markdown that `to_markdown` writes is stable: parsing it and rendering the
/// result again gives the same text.
pub proof fn lemma_markdown_stable(c: ChangelogView)
    requires
        renders_back(c),
    ensures
        parse_spec(render(c)) matches Ok(back) && render(back) == render(c),
{
    lemma_render_then_parse(c);
    lemma_render_normal_versions(c.versions);
}

} // verus!
