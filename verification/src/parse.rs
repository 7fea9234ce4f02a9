//! Parsing Keep a Changelog markdown.
use vstd::prelude::*;
use crate::model::{
    Category, Changelog, ChangelogView, Entry, EntryView, ParseError, ParseErrorView, Version,
    VersionView, category_from, category_from_chars, entries_view, opt_view, versions_view,
};
use crate::text::{
    char_is, chars_of, find_char, find_char_exec, find_pattern, find_pattern_exec, first_where,
    lemma_first_where_facts, lemma_first_where_none, lemma_first_where_some, occurs_at, pieces_view,
    push_char, split_by, split_vec, starts_with, starts_with_exec, string_of, strip_repeated,
    strip_repeated_vec, sub_vec, trim, trim_bounds, trim_vec,
};
use crate::version::with_entry;

verus! {

// ---------------------------------------------------------------------------
// Lines
// ---------------------------------------------------------------------------
/// The pieces of `s` between its `'\n'` characters (always at least one).
pub open spec fn split_pieces(s: Seq<char>) -> Seq<Seq<char>> {
    split_by(s, '\n')
}

/// `l` without one trailing carriage return.
pub open spec fn strip_cr(l: Seq<char>) -> Seq<char> {
    if l.len() > 0 && l.last() == '\r' {
        l.drop_last()
    } else {
        l
    }
}

/// The lines of `s` (`str::lines`): the pieces between `'\n'`s, each that
/// was ended by `'\n'` losing one trailing `'\r'`, with no empty last line
/// after a final `'\n'`.
pub open spec fn lines(s: Seq<char>) -> Seq<Seq<char>> {
    if s.len() == 0 {
        seq![]
    } else {
        let ps = split_pieces(s);
        let n = if s.last() == '\n' {
            ps.len() - 1
        } else {
            ps.len() as int
        };
        Seq::new(n as nat, |i: int| if i + 1 < ps.len() { strip_cr(ps[i]) } else { ps[i] })
    }
}

/// The lines of `ls` joined with `'\n'`.
pub open spec fn join_lines(ls: Seq<Seq<char>>) -> Seq<char>
    decreases ls.len(),
{
    if ls.len() == 0 {
        seq![]
    } else if ls.len() == 1 {
        ls[0]
    } else {
        join_lines(ls.drop_last()) + seq!['\n'] + ls.last()
    }
}


// ---------------------------------------------------------------------------
// Markers
// ---------------------------------------------------------------------------
/// `# `, which starts the title line.
pub open spec fn title_marker() -> Seq<char> {
    seq!['#', ' ']
}

/// `## `, which starts a version heading.
pub open spec fn version_marker() -> Seq<char> {
    seq!['#', '#', ' ']
}

/// `### `, which starts a category heading.
pub open spec fn category_marker() -> Seq<char> {
    seq!['#', '#', '#', ' ']
}

/// `- `, which starts an entry.
pub open spec fn entry_marker() -> Seq<char> {
    seq!['-', ' ']
}

/// ` - `, which separates name and date in a plain heading.
pub open spec fn dash_separator() -> Seq<char> {
    seq![' ', '-', ' ']
}

/// Line `i` is a title line.
pub open spec fn title_at(ls: Seq<Seq<char>>, i: int) -> bool {
    starts_with(ls[i], title_marker())
}

/// Line `i` is a version heading at or after line `from`.
pub open spec fn heading_from(ls: Seq<Seq<char>>, from: int, i: int) -> bool {
    from <= i && starts_with(ls[i], version_marker())
}

/// The first version heading at or after `from`, or the number of lines.
pub open spec fn section_start(ls: Seq<Seq<char>>, from: int) -> int {
    match first_where(ls.len() as int, |i: int| heading_from(ls, from, i)) {
        Some(k) => k,
        None => ls.len() as int,
    }
}

// ---------------------------------------------------------------------------
// Version headings
// ---------------------------------------------------------------------------
/// The text of a version heading line: the `## ` markers and surrounding
/// whitespace removed.
pub open spec fn heading_text(line: Seq<char>) -> Seq<char> {
    trim(strip_repeated(line, version_marker()))
}

/// The heading has no `[name]` form and its first `)` comes before its first
/// `(`, so that the date between them would be a reversed range: a heading
/// that parsing cannot handle.
pub open spec fn header_panics(h: Seq<char>) -> bool {
    &&& !(h.len() > 0 && h[0] == '[' && find_char(h, ']') is Some)
    &&& find_char(h, '(') matches Some(ps)
    &&& find_char(h, ')') matches Some(pe)
    &&& pe < ps + 1
}

/// The date part after `]` in a `[name] - date` heading.
pub open spec fn bracket_date(rest: Seq<char>) -> Option<Seq<char>> {
    if rest.len() > 0 && rest[0] == '-' {
        let d = trim(strip_repeated(rest, seq!['-']));
        if d.len() == 0 {
            None
        } else {
            Some(d)
        }
    } else {
        None
    }
}

/// Name and date of a version heading, in the forms `[name] - date`,
/// `[name]`, `name (date)`, `name - date` and `name`.
pub open spec fn header_fields(h: Seq<char>) -> (Seq<char>, Option<Seq<char>>) {
    if h.len() > 0 && h[0] == '[' && find_char(h, ']') is Some {
        let e = find_char(h, ']').unwrap();
        (trim(h.subrange(1, e)), bracket_date(trim(h.skip(e + 1))))
    } else if find_char(h, '(') is Some && find_char(h, ')') is Some {
        let ps = find_char(h, '(').unwrap();
        let pe = find_char(h, ')').unwrap();
        (trim(h.take(ps)), Some(trim(h.subrange(ps + 1, pe))))
    } else if find_pattern(h, dash_separator()) is Some {
        let d = find_pattern(h, dash_separator()).unwrap();
        (trim(h.take(d)), Some(trim(h.skip(d + 3))))
    } else {
        (trim(h), None)
    }
}

// ---------------------------------------------------------------------------
// Scanning the version sections
// ---------------------------------------------------------------------------
/// The parser's state between lines: the finished versions, the version
/// being read, and the category of the entries being read.
#[verifier::ext_equal]
pub struct ScanState {
    pub done: Seq<VersionView>,
    pub current: Option<VersionView>,
    pub category: Option<Category>,
}

/// The state before the first version heading.
pub open spec fn scan_start() -> ScanState {
    ScanState { done: seq![], current: None, category: None }
}

/// All versions read, the current one included.
pub open spec fn finish(st: ScanState) -> Seq<VersionView> {
    match st.current {
        Some(v) => st.done.push(v),
        None => st.done,
    }
}

/// `v` with `more` appended, after a space, to the description of its last entry.
pub open spec fn extend_last(v: VersionView, more: Seq<char>) -> VersionView {
    let last = v.entries.last();
    VersionView {
        entries: v.entries.update(
            v.entries.len() - 1,
            EntryView { description: last.description + seq![' '] + more, ..last },
        ),
        ..v
    }
}

/// What one line of a version section does to the state.
#[verifier::opaque]
pub open spec fn scan_step(st: ScanState, line: Seq<char>) -> Result<ScanState, ParseErrorView> {
    if starts_with(line, version_marker()) {
        let (name, date) = header_fields(heading_text(line));
        Ok(
            ScanState {
                done: finish(st),
                current: Some(VersionView { name: name, date: date, entries: seq![] }),
                category: None,
            },
        )
    } else if starts_with(line, category_marker()) {
        let text = trim(strip_repeated(line, category_marker()));
        match category_from(text) {
            Some(c) => Ok(ScanState { category: Some(c), ..st }),
            None => Err(ParseErrorView::InvalidCategory(text)),
        }
    } else if starts_with(line, entry_marker()) {
        match (st.current, st.category) {
            (Some(v), Some(c)) => Ok(
                ScanState {
                    current: Some(
                        with_entry(v, EntryView { category: c, description: trim(line.skip(2)) }),
                    ),
                    ..st
                },
            ),
            _ => Ok(st),
        }
    } else if trim(line).len() > 0 {
        match st.current {
            Some(v) => if v.entries.len() > 0 {
                Ok(ScanState { current: Some(extend_last(v, trim(line))), ..st })
            } else {
                Ok(st)
            },
            None => Ok(st),
        }
    } else {
        Ok(st)
    }
}

/// The state after the lines `ls`, or the first error.
pub open spec fn scan(ls: Seq<Seq<char>>) -> Result<ScanState, ParseErrorView>
    decreases ls.len(),
{
    if ls.len() == 0 {
        Ok(scan_start())
    } else {
        match scan(ls.drop_last()) {
            Ok(st) => scan_step(st, ls.last()),
            Err(e) => Err(e),
        }
    }
}

/// Reading `ls` reaches a version heading that parsing cannot handle.
pub open spec fn scan_panics(ls: Seq<Seq<char>>) -> bool
    decreases ls.len(),
{
    ls.len() > 0 && (scan_panics(ls.drop_last()) || (scan(ls.drop_last()) is Ok && starts_with(
        ls.last(),
        version_marker(),
    ) && header_panics(heading_text(ls.last()))))
}

// ---------------------------------------------------------------------------
// The whole document
// ---------------------------------------------------------------------------
/// The title line's text.
pub open spec fn title_text(line: Seq<char>) -> Seq<char> {
    trim(strip_repeated(line, title_marker()))
}

/// The lines of the trimmed input.
pub open spec fn doc_lines(md: Seq<char>) -> Seq<Seq<char>> {
    lines(trim(md))
}

/// The index of the title line.
pub open spec fn title_index(ls: Seq<Seq<char>>) -> Option<int> {
    first_where(ls.len() as int, |i: int| title_at(ls, i))
}

/// The description: the lines between the title and the first version
/// heading, joined and trimmed, or `None` when that is empty.
pub open spec fn description_of(ls: Seq<Seq<char>>, ti: int) -> Option<Seq<char>> {
    let text = trim(join_lines(ls.subrange(ti + 1, section_start(ls, ti + 1))));
    if text.len() == 0 {
        None
    } else {
        Some(text)
    }
}

/// The lines from the first version heading on.
pub open spec fn body_lines(ls: Seq<Seq<char>>, ti: int) -> Seq<Seq<char>> {
    ls.subrange(section_start(ls, ti + 1), ls.len() as int)
}

/// What parsing the lines `ls` of a non-blank document gives.
pub open spec fn parse_lines(ls: Seq<Seq<char>>) -> Result<ChangelogView, ParseErrorView> {
    match title_index(ls) {
        None => Err(ParseErrorView::InvalidFormat("no title heading found"@)),
        Some(ti) => match scan(body_lines(ls, ti)) {
            Ok(st) => Ok(
                ChangelogView {
                    title: title_text(ls[ti]),
                    description: description_of(ls, ti),
                    versions: finish(st),
                },
            ),
            Err(e) => Err(e),
        },
    }
}

/// Parsing the lines `ls` reaches a version heading that parsing cannot handle.
pub open spec fn lines_panic(ls: Seq<Seq<char>>) -> bool {
    &&& title_index(ls) matches Some(ti)
    &&& scan_panics(body_lines(ls, ti))
}

/// What `Changelog::parse` returns for the input `md`.
pub open spec fn parse_spec(md: Seq<char>) -> Result<ChangelogView, ParseErrorView> {
    if trim(md).len() == 0 {
        Err(ParseErrorView::EmptyInput)
    } else {
        parse_lines(doc_lines(md))
    }
}

/// `md` cannot be parsed: a version heading that parsing reaches has no
/// `[name]` form and a `)` before its first `(`.
pub open spec fn parse_panics(md: Seq<char>) -> bool {
    trim(md).len() > 0 && lines_panic(doc_lines(md))
}

// ---------------------------------------------------------------------------
// Executable parsing
// ---------------------------------------------------------------------------
proof fn lemma_lines_view_push(ls: Seq<Vec<char>>, l: Vec<char>)
    ensures
        pieces_view(ls.push(l)) == pieces_view(ls).push(l@),
{
    assert(pieces_view(ls.push(l)) =~= pieces_view(ls).push(l@));
}

/// `l` without one trailing carriage return.
fn strip_cr_vec(l: &Vec<char>) -> (r: Vec<char>)
    ensures
        r@ == strip_cr(l@),
{
    if l.len() > 0 && l[l.len() - 1] == '\r' {
        sub_vec(l, 0, l.len() - 1)
    } else {
        sub_vec(l, 0, l.len())
    }
}

/// The lines of `t` (see [`lines`]).
fn split_lines(t: &Vec<char>) -> (ls: Vec<Vec<char>>)
    ensures
        pieces_view(ls@) == lines(t@),
{
    let mut out: Vec<Vec<char>> = Vec::new();
    if t.len() == 0 {
        assert(pieces_view(out@) =~= lines(t@));
        return out;
    }
    let pieces = split_vec(t, '\n');
    let ghost ps = split_pieces(t@);
    assert(pieces_view(pieces@) == ps);
    let n = if t[t.len() - 1] == '\n' {
        pieces.len() - 1
    } else {
        pieces.len()
    };
    let mut i: usize = 0;
    while i < n
        invariant
            i <= n <= pieces@.len(),
            n == lines(t@).len(),
            pieces_view(pieces@) == ps,
            t@.len() > 0,
            lines(t@) == Seq::new(
                n as nat,
                |k: int| if k + 1 < ps.len() { strip_cr(ps[k]) } else { ps[k] },
            ),
            pieces_view(out@) == lines(t@).take(i as int),
        decreases n - i,
    {
        assert(ps[i as int] == pieces@[i as int]@);
        let line = if i + 1 < pieces.len() {
            strip_cr_vec(&pieces[i])
        } else {
            sub_vec(&pieces[i], 0, pieces[i].len())
        };
        assert(pieces@[i as int]@.subrange(0, pieces@[i as int]@.len() as int) == pieces@[
            i as int
        ]@);
        let ghost before = out@;
        out.push(line);
        proof {
            lemma_lines_view_push(before, line);
        }
        assert(pieces_view(out@) =~= lines(t@).take(i + 1));
        i = i + 1;
    }
    assert(lines(t@).take(n as int) == lines(t@));
    out
}

/// `trim(s)` as a `String`.
fn trimmed_string(s: &Vec<char>) -> (r: String)
    ensures
        r@ == trim(s@),
{
    let (i, j) = trim_bounds(s, 0, s.len());
    assert(s@.subrange(0, s@.len() as int) == s@);
    string_of(s, i, j)
}

/// Parse a version header string into (name, optional date).
#[verifier::rlimit(30)]
fn parse_version_header(h: &Vec<char>) -> (r: (String, Option<String>))
    requires
        !header_panics(h@),
    ensures
        r.0@ == header_fields(h@).0,
        opt_view(r.1) == header_fields(h@).1,
{
    proof {
        lemma_first_where_facts(h@.len() as int, |i: int| char_is(h@, i, ']'));
        lemma_first_where_facts(h@.len() as int, |i: int| char_is(h@, i, '('));
        lemma_first_where_facts(h@.len() as int, |i: int| char_is(h@, i, ')'));
        lemma_first_where_facts(h@.len() as int, |i: int| occurs_at(h@, dash_separator(), i));
    }
    // Format: [version] - date
    if h.len() > 0 && h[0] == '[' {
        if let Some(e) = find_char_exec(h, ']') {
            let name = trimmed_string(&sub_vec(h, 1, e));
            let rest = trim_vec(&sub_vec(h, e + 1, h.len()));
            assert(h@.subrange(e + 1, h@.len() as int) == h@.skip(e + 1));
            let date = if rest.len() > 0 && rest[0] == '-' {
                let dash: [char; 1] = ['-'];
                assert(dash@ =~= seq!['-']);
                let d = trim_vec(&strip_repeated_vec(&rest, &dash));
                if d.len() == 0 {
                    None
                } else {
                    assert(d@.subrange(0, d@.len() as int) == d@);
                    Some(string_of(&d, 0, d.len()))
                }
            } else {
                None
            };
            return (name, date);
        }
    }
    // Format: version (date)
    if let Some(ps) = find_char_exec(h, '(') {
        if let Some(pe) = find_char_exec(h, ')') {
            let name = trimmed_string(&sub_vec(h, 0, ps));
            assert(h@.subrange(0, ps as int) == h@.take(ps as int));
            let date = trimmed_string(&sub_vec(h, ps + 1, pe));
            return (name, Some(date));
        }
    }
    // Format: version - date
    let sep: [char; 3] = [' ', '-', ' '];
    assert(sep@ =~= dash_separator());
    if let Some(d) = find_pattern_exec(h, &sep) {
        let name = trimmed_string(&sub_vec(h, 0, d));
        assert(h@.subrange(0, d as int) == h@.take(d as int));
        let date = trimmed_string(&sub_vec(h, d + 3, h.len()));
        assert(h@.subrange(d + 3, h@.len() as int) == h@.skip(d + 3));
        return (name, Some(date));
    }
    // Just a version name
    (trimmed_string(h), None)
}

/// The executable parser state (see [`ScanState`]).
struct Scanner {
    done: Vec<Version>,
    current: Option<Version>,
    category: Option<Category>,
}

/// The view of an optional version.
pub open spec fn opt_version_view(o: Option<Version>) -> Option<VersionView> {
    match o {
        Some(v) => Some(v@),
        None => None,
    }
}

impl View for Scanner {
    type V = ScanState;

    closed spec fn view(&self) -> ScanState {
        ScanState {
            done: versions_view(self.done@),
            current: opt_version_view(self.current),
            category: self.category,
        }
    }
}

proof fn lemma_versions_view_push(vs: Seq<Version>, v: Version)
    ensures
        versions_view(vs.push(v)) == versions_view(vs).push(v@),
{
    assert(versions_view(vs.push(v)) =~= versions_view(vs).push(v@));
}

/// The versions of a finished scan.
fn finish_exec(sc: Scanner) -> (r: Vec<Version>)
    ensures
        versions_view(r@) == finish(sc@),
{
    let Scanner { mut done, current, category } = sc;
    match current {
        Some(v) => {
            let ghost before = done@;
            done.push(v);
            proof {
                lemma_versions_view_push(before, v);
            }
            done
        },
        None => done,
    }
}

/// A version heading line: the current version is finished and a new one begins.
#[verifier::rlimit(30)]
fn scan_heading(sc: Scanner, line: &Vec<char>) -> (r: Scanner)
    requires
        starts_with(line@, version_marker()),
        !header_panics(heading_text(line@)),
    ensures
        scan_step(sc@, line@) == Ok::<ScanState, ParseErrorView>(r@),
{
    reveal(scan_step);
    let h2: [char; 3] = ['#', '#', ' '];
    assert(h2@ =~= version_marker());
    let ghost st = sc@;
    let header = trim_vec(&strip_repeated_vec(line, &h2));
    let (name, date) = parse_version_header(&header);
    let done = finish_exec(sc);
    let v = Version { name, date, entries: Vec::new() };
    let out = Scanner { done, current: Some(v), category: None };
    assert(entries_view(v.entries@) =~= Seq::<EntryView>::empty());
    assert(out@ =~= scan_step(st, line@)->Ok_0);
    out
}

/// A category heading line.
#[verifier::rlimit(30)]
fn scan_category(sc: Scanner, line: &Vec<char>) -> (r: Result<Scanner, ParseError>)
    requires
        !starts_with(line@, version_marker()),
        starts_with(line@, category_marker()),
    ensures
        match scan_step(sc@, line@) {
            Ok(st) => r matches Ok(x) && x@ == st,
            Err(e) => r matches Err(x) && x@ == e,
        },
{
    reveal(scan_step);
    let h3: [char; 4] = ['#', '#', '#', ' '];
    assert(h3@ =~= category_marker());
    let ghost st = sc@;
    let text = trim_vec(&strip_repeated_vec(line, &h3));
    match category_from_chars(&text) {
        Some(c) => {
            let Scanner { done, current, category } = sc;
            let out = Scanner { done, current, category: Some(c) };
            assert(out@ =~= scan_step(st, line@)->Ok_0);
            Ok(out)
        },
        None => {
            assert(text@.subrange(0, text@.len() as int) == text@);
            Err(ParseError::InvalidCategory(string_of(&text, 0, text.len())))
        },
    }
}

/// An entry line.
#[verifier::rlimit(30)]
fn scan_entry(sc: Scanner, line: &Vec<char>) -> (r: Scanner)
    requires
        !starts_with(line@, version_marker()),
        !starts_with(line@, category_marker()),
        starts_with(line@, entry_marker()),
    ensures
        scan_step(sc@, line@) == Ok::<ScanState, ParseErrorView>(r@),
{
    reveal(scan_step);
    let ghost st = sc@;
    let Scanner { done, current, category } = sc;
    match (current, category) {
        (Some(mut v), Some(c)) => {
            let description = trimmed_string(&sub_vec(line, 2, line.len()));
            assert(line@.subrange(2, line@.len() as int) == line@.skip(2));
            v.add_entry(c, description.as_str());
            let out = Scanner { done, current: Some(v), category };
            assert(out@ =~= scan_step(st, line@)->Ok_0);
            out
        },
        (current, category) => {
            let out = Scanner { done, current, category };
            assert(out@ =~= st);
            out
        },
    }
}

/// Any other line: a non-blank one continues the last entry of the current version.
#[verifier::rlimit(30)]
fn scan_other(sc: Scanner, line: &Vec<char>) -> (r: Scanner)
    requires
        !starts_with(line@, version_marker()),
        !starts_with(line@, category_marker()),
        !starts_with(line@, entry_marker()),
    ensures
        scan_step(sc@, line@) == Ok::<ScanState, ParseErrorView>(r@),
{
    reveal(scan_step);
    let ghost st = sc@;
    let trimmed = trim_vec(line);
    if trimmed.len() == 0 {
        return sc;
    }
    let Scanner { done, current, category } = sc;
    match current {
        Some(mut v) => {
            if v.entries.len() > 0 {
                let ghost before = v@;
                let ghost old_es = v.entries@;
                let last = v.entries.pop().unwrap();
                let ghost last_view = last@;
                assert(last_view == before.entries.last());
                let Entry { category: ec, description: mut d } = last;
                push_char(&mut d, ' ');
                let more = string_of(&trimmed, 0, trimmed.len());
                assert(trimmed@.subrange(0, trimmed@.len() as int) == trimmed@);
                d.append(more.as_str());
                assert(d@ =~= last_view.description + seq![' '] + trim(line@));
                let ne = Entry { category: ec, description: d };
                v.entries.push(ne);
                assert(v.entries@ =~= old_es.update(old_es.len() - 1, ne));
                assert(entries_view(v.entries@) =~= entries_view(old_es).update(
                    old_es.len() - 1,
                    ne@,
                ));
                assert(v@ =~= extend_last(before, trim(line@)));
            }
            let out = Scanner { done, current: Some(v), category };
            assert(out@ =~= scan_step(st, line@)->Ok_0);
            out
        },
        None => {
            let out = Scanner { done, current: None, category };
            assert(out@ =~= st);
            out
        },
    }
}

/// Processes one line of the version sections.
fn scan_line(sc: Scanner, line: &Vec<char>) -> (r: Result<Scanner, ParseError>)
    requires
        !(starts_with(line@, version_marker()) && header_panics(heading_text(line@))),
    ensures
        match scan_step(sc@, line@) {
            Ok(st) => r matches Ok(x) && x@ == st,
            Err(e) => r matches Err(x) && x@ == e,
        },
{
    let h2: [char; 3] = ['#', '#', ' '];
    let h3: [char; 4] = ['#', '#', '#', ' '];
    let bullet: [char; 2] = ['-', ' '];
    assert(h2@ =~= version_marker());
    assert(h3@ =~= category_marker());
    assert(bullet@ =~= entry_marker());
    if starts_with_exec(line, &h2) {
        Ok(scan_heading(sc, line))
    } else if starts_with_exec(line, &h3) {
        scan_category(sc, line)
    } else if starts_with_exec(line, &bullet) {
        Ok(scan_entry(sc, line))
    } else {
        Ok(scan_other(sc, line))
    }
}

/// The lines `ls[lo..hi]` joined with `'\n'`.
fn join_range(ls: &Vec<Vec<char>>, lo: usize, hi: usize) -> (r: Vec<char>)
    requires
        lo <= hi <= ls@.len(),
    ensures
        r@ == join_lines(pieces_view(ls@).subrange(lo as int, hi as int)),
{
    let ghost lv = pieces_view(ls@);
    let mut out: Vec<char> = Vec::new();
    let mut j = lo;
    while j < hi
        invariant
            lo <= j <= hi <= ls@.len(),
            lv == pieces_view(ls@),
            out@ == join_lines(lv.subrange(lo as int, j as int)),
        decreases hi - j,
    {
        assert(lv.subrange(lo as int, j + 1).drop_last() == lv.subrange(lo as int, j as int));
        let line = &ls[j];
        if j > lo {
            out.push('\n');
        }
        let ghost before = out@;
        let mut k: usize = 0;
        while k < line.len()
            invariant
                k <= line@.len(),
                out@ == before + line@.take(k as int),
            decreases line.len() - k,
        {
            out.push(line[k]);
            assert(line@.take(k + 1) == line@.take(k as int).push(line@[k as int]));
            assert(out@ =~= before + line@.take(k + 1));
            k = k + 1;
        }
        assert(line@.take(line@.len() as int) == line@);
        assert(lv[j as int] == line@);
        if j == lo {
            assert(out@ =~= join_lines(lv.subrange(lo as int, j + 1)));
        } else {
            assert(out@ =~= join_lines(lv.subrange(lo as int, j + 1)));
        }
        j = j + 1;
    }
    out
}

proof fn lemma_scan_panics_prefix(ls: Seq<Seq<char>>, m: int)
    requires
        0 <= m <= ls.len(),
        scan_panics(ls.take(m)),
    ensures
        scan_panics(ls),
    decreases ls.len(),
{
    if m < ls.len() {
        assert(ls.drop_last().take(m) == ls.take(m));
        lemma_scan_panics_prefix(ls.drop_last(), m);
    } else {
        assert(ls.take(m) == ls);
    }
}

proof fn lemma_scan_err_prefix(ls: Seq<Seq<char>>, m: int)
    requires
        0 <= m <= ls.len(),
        scan(ls.take(m)) is Err,
    ensures
        scan(ls) == scan(ls.take(m)),
    decreases ls.len(),
{
    if m < ls.len() {
        assert(ls.drop_last().take(m) == ls.take(m));
        lemma_scan_err_prefix(ls.drop_last(), m);
    } else {
        assert(ls.take(m) == ls);
    }
}

/// The index of the first title line, if any.
fn find_title(ls: &Vec<Vec<char>>) -> (r: Option<usize>)
    ensures
        r matches Some(i) ==> title_index(pieces_view(ls@)) == Some(i as int) && i < ls@.len(),
        r is None ==> title_index(pieces_view(ls@)) is None,
{
    let ghost lv = pieces_view(ls@);
    let title_mark: [char; 2] = ['#', ' '];
    assert(title_mark@ =~= title_marker());
    let mut ti: usize = 0;
    while ti < ls.len()
        invariant
            ti <= ls@.len(),
            lv == pieces_view(ls@),
            title_mark@ == title_marker(),
            forall|j: int| 0 <= j < ti ==> !#[trigger] title_at(lv, j),
        decreases ls.len() - ti,
    {
        if starts_with_exec(&ls[ti], &title_mark) {
            proof {
                let p = |i: int| title_at(lv, i);
                assert(p(ti as int));
                lemma_first_where_some(lv.len() as int, p, ti as int);
            }
            return Some(ti);
        }
        ti = ti + 1;
    }
    proof {
        lemma_first_where_none(lv.len() as int, |i: int| title_at(lv, i));
    }
    None
}

/// The index of the first version heading at or after `from`, or the number of lines.
fn find_section(ls: &Vec<Vec<char>>, from: usize) -> (k: usize)
    requires
        from <= ls@.len(),
    ensures
        k == section_start(pieces_view(ls@), from as int),
        from <= k <= ls@.len(),
{
    let ghost lv = pieces_view(ls@);
    let h2: [char; 3] = ['#', '#', ' '];
    assert(h2@ =~= version_marker());
    let mut k = from;
    while k < ls.len()
        invariant
            from <= k <= ls@.len(),
            lv == pieces_view(ls@),
            h2@ == version_marker(),
            forall|j: int| 0 <= j < k ==> !#[trigger] heading_from(lv, from as int, j),
        decreases ls.len() - k,
    {
        if starts_with_exec(&ls[k], &h2) {
            proof {
                let p = |i: int| heading_from(lv, from as int, i);
                assert(p(k as int));
                lemma_first_where_some(lv.len() as int, p, k as int);
            }
            return k;
        }
        k = k + 1;
    }
    proof {
        lemma_first_where_none(lv.len() as int, |i: int| heading_from(lv, from as int, i));
    }
    k
}

/// Reads the version sections `ls[k..]`.
#[verifier::rlimit(30)]
fn scan_sections(ls: &Vec<Vec<char>>, k: usize) -> (r: Result<Vec<Version>, ParseError>)
    requires
        k <= ls@.len(),
        !scan_panics(pieces_view(ls@).subrange(k as int, ls@.len() as int)),
    ensures
        match scan(pieces_view(ls@).subrange(k as int, ls@.len() as int)) {
            Ok(st) => r matches Ok(vs) && versions_view(vs@) == finish(st),
            Err(e) => r matches Err(x) && x@ == e,
        },
{
    let ghost lv = pieces_view(ls@);
    let ghost body = lv.subrange(k as int, lv.len() as int);
    let mut sc = Scanner { done: Vec::new(), current: None, category: None };
    assert(body.take(0) == Seq::<Seq<char>>::empty());
    assert(sc@ =~= scan_start());
    let mut j = k;
    while j < ls.len()
        invariant
            k <= j <= ls@.len(),
            lv == pieces_view(ls@),
            body == lv.subrange(k as int, lv.len() as int),
            scan(body.take(j - k)) == Ok::<ScanState, ParseErrorView>(sc@),
            !scan_panics(body),
        decreases ls.len() - j,
    {
        let ghost m = j - k;
        let ghost line = ls@[j as int]@;
        proof {
            assert(body.take(m + 1).drop_last() == body.take(m));
            assert(body.take(m + 1).last() == line);
            if starts_with(line, version_marker()) && header_panics(heading_text(line)) {
                assert(scan_panics(body.take(m + 1)));
                lemma_scan_panics_prefix(body, m + 1);
            }
        }
        let next = scan_line(sc, &ls[j]);
        match next {
            Ok(n) => {
                assert(scan(body.take(m + 1)) == Ok::<ScanState, ParseErrorView>(n@));
                sc = n;
            },
            Err(e) => {
                proof {
                    assert(scan(body.take(m + 1)) is Err);
                    lemma_scan_err_prefix(body, m + 1);
                }
                return Err(e);
            },
        }
        j = j + 1;
    }
    assert(body.take(j - k) == body);
    Ok(finish_exec(sc))
}

proof fn lemma_scan_err_stops_panics(ls: Seq<Seq<char>>, m: int)
    requires
        0 <= m <= ls.len(),
        scan(ls.take(m)) is Err,
        !scan_panics(ls.take(m)),
    ensures
        !scan_panics(ls),
    decreases ls.len(),
{
    if m < ls.len() {
        assert(ls.drop_last().take(m) == ls.take(m));
        lemma_scan_err_stops_panics(ls.drop_last(), m);
        lemma_scan_err_prefix(ls.drop_last(), m);
    } else {
        assert(ls.take(m) == ls);
    }
}

/// Whether the heading text `h` is one that parsing cannot handle.
fn header_panics_exec(h: &Vec<char>) -> (b: bool)
    ensures
        b == header_panics(h@),
{
    if h.len() > 0 && h[0] == '[' {
        if let Some(_) = find_char_exec(h, ']') {
            return false;
        }
    }
    match (find_char_exec(h, '('), find_char_exec(h, ')')) {
        (Some(ps), Some(pe)) => pe <= ps,
        _ => false,
    }
}

/// Whether reading the version sections `ls[k..]` reaches a heading that
/// parsing cannot handle.
#[verifier::rlimit(30)]
fn sections_panic(ls: &Vec<Vec<char>>, k: usize) -> (b: bool)
    requires
        k <= ls@.len(),
    ensures
        b == scan_panics(pieces_view(ls@).subrange(k as int, ls@.len() as int)),
{
    let ghost lv = pieces_view(ls@);
    let ghost body = lv.subrange(k as int, lv.len() as int);
    let h2: [char; 3] = ['#', '#', ' '];
    assert(h2@ =~= version_marker());
    let mut sc = Scanner { done: Vec::new(), current: None, category: None };
    assert(body.take(0) == Seq::<Seq<char>>::empty());
    assert(sc@ =~= scan_start());
    let mut j = k;
    while j < ls.len()
        invariant
            k <= j <= ls@.len(),
            lv == pieces_view(ls@),
            body == lv.subrange(k as int, lv.len() as int),
            h2@ == version_marker(),
            scan(body.take(j - k)) == Ok::<ScanState, ParseErrorView>(sc@),
            !scan_panics(body.take(j - k)),
        decreases ls.len() - j,
    {
        let ghost m = j - k;
        let ghost line = ls@[j as int]@;
        proof {
            assert(body.take(m + 1).drop_last() == body.take(m));
            assert(body.take(m + 1).last() == line);
        }
        if starts_with_exec(&ls[j], &h2) {
            let text = trim_vec(&strip_repeated_vec(&ls[j], &h2));
            if header_panics_exec(&text) {
                proof {
                    assert(scan_panics(body.take(m + 1)));
                    lemma_scan_panics_prefix(body, m + 1);
                }
                return true;
            }
        }
        match scan_line(sc, &ls[j]) {
            Ok(n) => {
                sc = n;
            },
            Err(_) => {
                proof {
                    assert(scan(body.take(m + 1)) is Err);
                    lemma_scan_err_stops_panics(body, m + 1);
                }
                return false;
            },
        }
        j = j + 1;
    }
    assert(body.take(j - k) == body);
    false
}

/// Parses the lines of a non-blank document.
#[verifier::rlimit(30)]
fn parse_line_vec(ls: &Vec<Vec<char>>) -> (r: Result<Changelog, ParseError>)
    requires
        !lines_panic(pieces_view(ls@)),
    ensures
        match parse_lines(pieces_view(ls@)) {
            Ok(c) => r matches Ok(x) && x@ == c,
            Err(e) => r matches Err(x) && x@ == e,
        },
{
    let ghost lv = pieces_view(ls@);
    // Find the title (first `# ` line)
    let ti = match find_title(ls) {
        Some(ti) => ti,
        None => {
            return Err(ParseError::InvalidFormat("no title heading found".to_owned()));
        },
    };
    assert(ti < ls.len());
    let title_mark: [char; 2] = ['#', ' '];
    assert(title_mark@ =~= title_marker());
    let title = trimmed_string(&strip_repeated_vec(&ls[ti], &title_mark));
    // Collect description lines (between title and first ## heading)
    let k = find_section(ls, ti + 1);
    let joined = join_range(ls, ti + 1, k);
    let dtext = trim_vec(&joined);
    let description = if dtext.len() == 0 {
        None
    } else {
        assert(dtext@.subrange(0, dtext@.len() as int) == dtext@);
        Some(string_of(&dtext, 0, dtext.len()))
    };
    assert(description_of(lv, ti as int) == opt_view(description));
    // Parse version sections
    match scan_sections(ls, k) {
        Ok(versions) => {
            let c = Changelog { title, description, versions };
            assert(c@ =~= parse_lines(lv)->Ok_0);
            Ok(c)
        },
        Err(e) => Err(e),
    }
}

impl Changelog {
    /// Whether [`Changelog::parse`] can read `markdown`: it cannot exactly
    /// when a version heading that parsing reaches has no `[version]` form
    /// and a `)` before its first `(`.
    pub fn can_parse(markdown: &str) -> (b: bool)
        ensures
            b == !parse_panics(markdown@),
    {
        let cs = chars_of(markdown);
        let t = trim_vec(&cs);
        if t.len() == 0 {
            return true;
        }
        let ls = split_lines(&t);
        let ti = match find_title(&ls) {
            Some(ti) => ti,
            None => return true,
        };
        let k = find_section(&ls, ti + 1);
        !sections_panic(&ls, k)
    }

    /// Parse a Keep a Changelog formatted markdown string.
    ///
    /// Supports header formats:
    /// - `## [version] - date`
    /// - `## [version]`
    /// - `## version (date)`
    /// - `## version - date`
    ///
    /// A version heading without the `[version]` form whose first `)` comes
    /// before its first `(` cannot be read (its date would be a reversed
    /// range); the input must not reach one.
    pub fn parse(markdown: &str) -> (r: Result<Changelog, ParseError>)
        requires
            !parse_panics(markdown@),
        ensures
            match parse_spec(markdown@) {
                Ok(c) => r matches Ok(x) && x@ == c,
                Err(e) => r matches Err(x) && x@ == e,
            },
    {
        let cs = chars_of(markdown);
        let t = trim_vec(&cs);
        if t.len() == 0 {
            return Err(ParseError::EmptyInput);
        }
        let ls = split_lines(&t);
        parse_line_vec(&ls)
    }
}

} // verus!
