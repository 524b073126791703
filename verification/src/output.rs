//! How results look on a terminal: pieces of text, each with a role that
//! decides its color.
use crate::order::{comes_first, key_lists, lemma_all_places, lex_is_strict, order_by_keys, sorts};
use crate::paths::{is_same_path, path_key, path_key_of, same_key_is_same_path, same_path};
use crate::query::ast::texts;
use crate::query::content::numbered;
use crate::query::search::{
    arranged, content_key, counts_of, path_keys, picked, sort_paths, tally, tally_paths,
};
use crate::server::protocol::ContentMatch;
use crate::text::{chars_of, chars_within, count_within, decimal_text, number_text, text_between};
use vstd::prelude::*;

verus! {

/// The role of a piece of output.
#[derive(Debug, Clone, Copy, PartialEq, Eq, Structural)]
pub enum Role {
    Plain,
    /// A path before a line.
    Path,
    /// A path above its lines.
    PathHeading,
    LineNumber,
    /// The mark between groups of lines.
    Separator,
    /// The matching part of a line.
    Highlight,
}

/// A piece of output.
#[derive(Debug)]
pub struct Piece {
    pub role: Role,
    pub text: String,
}

/// The contents of pieces.
pub open spec fn pieces_of(v: Seq<Piece>) -> Seq<(Role, Seq<char>)> {
    v.map_values(|p: Piece| (p.role, p.text@))
}

/// The role of a piece, which is plain where there are no colors.
pub open spec fn shown(role: Role, color: bool) -> Role {
    if color {
        role
    } else {
        Role::Plain
    }
}

/// Adds a piece.
fn put(out: &mut Vec<Piece>, role: Role, color: bool, text: String)
    ensures
        pieces_of(final(out)@) == pieces_of(old(out)@).push((shown(role, color), text@)),
{
    let role = if color {
        role
    } else {
        Role::Plain
    };
    out.push(Piece { role, text });
    assert(pieces_of(out@) =~= pieces_of(old(out)@).push((role, text@)));
}

/// A text and a line feed.
fn ended(text: &str) -> (r: String)
    ensures
        r@ == text@.push('\n'),
{
    let mut out = text.to_owned();
    out.push('\n');
    out
}

/// A line to be shown: a match, or a line around one.
#[derive(Debug)]
pub struct Row {
    pub path: String,
    pub line: u32,
    pub text: String,
    /// The bytes of the match; none for a line around one.
    pub span: Option<(usize, usize)>,
}

/// The mathematical content of a [`Row`].
pub struct RowModel {
    pub path: Seq<char>,
    pub line: u32,
    pub text: Seq<char>,
    pub span: Option<(usize, usize)>,
}

impl View for Row {
    type V = RowModel;

    open spec fn view(&self) -> RowModel {
        RowModel { path: self.path@, line: self.line, text: self.text@, span: self.span }
    }
}

/// The contents of rows.
pub open spec fn rows_of(v: Seq<Row>) -> Seq<RowModel> {
    v.map_values(|r: Row| r@)
}

/// The first `n` lines around a match, as rows.
pub open spec fn context_rows(path: Seq<char>, v: Seq<(u32, Seq<char>)>, n: nat) -> Seq<RowModel>
    decreases n,
{
    if n == 0 {
        Seq::empty()
    } else {
        context_rows(path, v, (n - 1) as nat).push(
            RowModel { path, line: v[n - 1].0, text: v[n - 1].1, span: None },
        )
    }
}

/// The place of the first of the first `n` matches in the file of a path; `n`
/// where there is none.
pub open spec fn first_place(v: Seq<ContentMatch>, path: Seq<char>, n: nat) -> nat
    decreases n,
{
    if n == 0 {
        0
    } else {
        let before = first_place(v, path, (n - 1) as nat);
        if before < n - 1 {
            before
        } else if same_path(v[n - 1].path@, path) {
            (n - 1) as nat
        } else {
            n
        }
    }
}

/// The path of a match as it is shown: as the first match in the same file has
/// it.
pub open spec fn shown_path(v: Seq<ContentMatch>, i: int) -> Seq<char> {
    v[first_place(v, v[i].path@, (i + 1) as nat) as int].path@
}

/// The rows of a match, under a path: the lines before, those after, and its own.
pub open spec fn match_rows(m: ContentMatch, path: Seq<char>) -> Seq<RowModel> {
    let h = m@;
    (context_rows(path, h.context_before, h.context_before.len()) + context_rows(
        path,
        h.context_after,
        h.context_after.len(),
    )).push(
        RowModel {
            path,
            line: h.line_number,
            text: h.line_content,
            span: Some((m.match_start, m.match_end)),
        },
    )
}

/// The rows of the first `n` matches.
pub open spec fn all_rows(v: Seq<ContentMatch>, n: nat) -> Seq<RowModel>
    decreases n,
{
    if n == 0 {
        Seq::empty()
    } else {
        all_rows(v, (n - 1) as nat) + match_rows(v[n - 1], shown_path(v, n - 1))
    }
}

/// The key of a row: by path and line; of the rows for one line, matches come
/// before lines around matches, and the last match before the others.
pub open spec fn row_key(r: RowModel, place: int) -> Seq<u32> {
    content_key(r.path, r.line) + if r.span is Some {
        let back = u64::MAX - place;
        seq![0u32, (back / 0x1_0000_0000) as u32, (back % 0x1_0000_0000) as u32]
    } else {
        seq![1u32]
    }
}

/// The keys of rows.
pub open spec fn row_keys(v: Seq<RowModel>) -> Seq<Seq<u32>> {
    Seq::new(v.len(), |i: int| row_key(v[i], i))
}

/// Whether two rows are for the same line.
#[verifier::opaque]
pub open spec fn same_line(a: RowModel, b: RowModel) -> bool {
    same_path(a.path, b.path) && a.line == b.line
}

/// The first of the rows for each line, in a list in which those for a line
/// stand together.
pub open spec fn firsts(v: Seq<RowModel>) -> Seq<RowModel>
    decreases v.len(),
{
    if v.len() == 0 {
        v
    } else if v.len() > 1 && same_line(v[v.len() - 2], v.last()) {
        firsts(v.drop_last())
    } else {
        firsts(v.drop_last()).push(v.last())
    }
}

/// The line with the match in it set off.
pub open spec fn match_pieces(text: Seq<char>, start: usize, end: usize, color: bool) -> Seq<
    (Role, Seq<char>),
> {
    let a = chars_within(text, start as nat) as int;
    let b = chars_within(text, end as nat) as int;
    (if a > 0 {
        seq![(Role::Plain, text.take(a))]
    } else {
        Seq::empty()
    }) + (if b > a {
        seq![(shown(Role::Highlight, color), text.subrange(a, b))]
    } else {
        Seq::empty()
    }) + (if b < text.len() {
        seq![(Role::Plain, text.skip(b))]
    } else {
        Seq::empty()
    }) + seq![(Role::Plain, seq!['\n'])]
}

/// A row as it is shown.
pub open spec fn row_pieces(r: RowModel, color: bool, heading: bool) -> Seq<(Role, Seq<char>)> {
    let mark = if r.span is Some {
        seq![':']
    } else {
        seq!['-']
    };
    (if heading {
        Seq::empty()
    } else {
        seq![(shown(Role::Path, color), r.path), (Role::Plain, mark)]
    }) + seq![
        (shown(Role::LineNumber, color), decimal_text(r.line as nat)),
        (Role::Plain, mark),
    ] + match r.span {
        Some((start, end)) => match_pieces(r.text, start, end, color),
        None => seq![(Role::Plain, r.text.push('\n'))],
    }
}

/// What comes before the row at place `i`: the path above the first row of a
/// file, with an empty line between files; or the mark where lines are left
/// out.
pub open spec fn lead(v: Seq<RowModel>, i: int, color: bool, heading: bool, context: bool) -> Seq<
    (Role, Seq<char>),
> {
    if i == 0 || !same_path(v[i - 1].path, v[i].path) {
        if heading {
            (if i == 0 {
                Seq::empty()
            } else {
                seq![(Role::Plain, seq!['\n'])]
            }) + seq![(shown(Role::PathHeading, color), v[i].path.push('\n'))]
        } else {
            Seq::empty()
        }
    } else if context && v[i].line > v[i - 1].line + 1 {
        seq![(shown(Role::Separator, color), "--"@.push('\n'))]
    } else {
        Seq::empty()
    }
}

/// The first `n` rows as they are shown.
pub open spec fn shown_rows(
    v: Seq<RowModel>,
    n: nat,
    color: bool,
    heading: bool,
    context: bool,
) -> Seq<(Role, Seq<char>)>
    decreases n,
{
    if n == 0 {
        Seq::empty()
    } else {
        shown_rows(v, (n - 1) as nat, color, heading, context) + lead(
            v,
            n - 1,
            color,
            heading,
            context,
        ) + row_pieces(v[n - 1], color, heading)
    }
}

/// Whether one of the matches comes with lines around it.
pub open spec fn any_context(v: Seq<ContentMatch>) -> bool {
    exists|i: int|
        0 <= i < v.len() && ((#[trigger] v[i]).context_before@.len() > 0
            || v[i].context_after@.len() > 0)
}

/// Adds the rows of lines around a match.
fn add_context(out: &mut Vec<Row>, path: &String, v: &Vec<(u32, String)>)
    ensures
        rows_of(final(out)@) == rows_of(old(out)@) + context_rows(
            path@,
            numbered(v@),
            v@.len(),
        ),
{
    let ghost start = rows_of(out@);
    let mut i: usize = 0;
    assert(start + context_rows(path@, numbered(v@), 0) =~= start);
    while i < v.len()
        invariant
            i <= v@.len(),
            rows_of(out@) == start + context_rows(path@, numbered(v@), i as nat),
        decreases v@.len() - i,
    {
        let ghost was = out@;
        let row = Row { path: path.clone(), line: v[i].0, text: v[i].1.clone(), span: None };
        out.push(row);
        i += 1;
        assert(numbered(v@)[i - 1] == (v@[i - 1].0, v@[i - 1].1@));
        assert(rows_of(out@) =~= rows_of(was).push(row@));
        assert(rows_of(out@) =~= start + context_rows(path@, numbered(v@), i as nat));
    }
}

/// Whether the match at place `j` is the first in the file of that at place `i`.
spec fn opens_file(v: Seq<ContentMatch>, i: int, j: int) -> bool {
    &&& 0 <= j <= i
    &&& same_path(v[j].path@, v[i].path@)
    &&& forall|k: int| 0 <= k < j ==> !same_path((#[trigger] v[k]).path@, v[i].path@)
}

proof fn lemma_first_place(v: Seq<ContentMatch>, path: Seq<char>, j: int, n: nat)
    requires
        0 <= j,
        forall|k: int| 0 <= k < j ==> !same_path((#[trigger] v[k]).path@, path),
        j < n ==> same_path(v[j].path@, path),
    ensures
        first_place(v, path, n) == if j < n {
            j
        } else {
            n as int
        },
    decreases n,
{
    if n > 0 {
        lemma_first_place(v, path, j, (n - 1) as nat);
    }
}

/// The keys of the paths of matches.
spec fn match_keys(v: Seq<ContentMatch>) -> Seq<Seq<u32>> {
    v.map_values(|m: ContentMatch| path_key(m.path@))
}

/// Where the path changes in a list in order of paths, the first match in a file
/// comes.
proof fn lemma_new_file(v: Seq<ContentMatch>, perm: Seq<usize>, a: int)
    requires
        sorts(match_keys(v), perm),
        0 <= a < perm.len(),
        a > 0 ==> !same_path(v[perm[a - 1] as int].path@, v[perm[a] as int].path@),
    ensures
        opens_file(v, perm[a] as int, perm[a] as int),
{
    let keys = match_keys(v);
    let i = perm[a] as int;
    assert(perm[a] < keys.len());
    lemma_all_places(keys, perm);
    assert forall|j: int| 0 <= j < i implies !same_path((#[trigger] v[j]).path@, v[i].path@) by {
        same_key_is_same_path(v[j].path@, v[i].path@);
        if keys[j] == keys[i] {
            assert(perm.contains(j as usize));
            let q = choose|q: int| 0 <= q < perm.len() && perm[q] == j as usize;
            lex_is_strict(keys[i], keys[j]);
            if a < q {
                assert(comes_first(keys[perm[a] as int], i, keys[perm[q] as int], j));
            }
            assert(q < a);
            let b = keys[perm[a - 1] as int];
            assert(perm[a - 1] < keys.len());
            same_key_is_same_path(v[perm[a - 1] as int].path@, v[i].path@);
            assert(comes_first(b, perm[a - 1] as int, keys[i], i));
            if q < a - 1 {
                assert(comes_first(keys[perm[q] as int], j, b, perm[a - 1] as int));
            }
            lex_is_strict(b, keys[i]);
            assert(false);
        }
    }
}

/// For each match, the place of the first in the same file.
fn first_places(v: &Vec<ContentMatch>) -> (r: Vec<usize>)
    ensures
        r@.len() == v@.len(),
        forall|i: int| 0 <= i < v@.len() ==> opens_file(v@, i, #[trigger] r@[i] as int),
{
    let mut keys: Vec<Vec<u32>> = Vec::new();
    let mut out: Vec<usize> = Vec::new();
    let mut i: usize = 0;
    while i < v.len()
        invariant
            i <= v@.len(),
            out@.len() == i,
            key_lists(keys@) == match_keys(v@).take(i as int),
        decreases v@.len() - i,
    {
        let ghost was = keys@;
        let key = path_key_of(v[i].path.as_str());
        keys.push(key);
        out.push(i);
        i += 1;
        assert(key_lists(keys@) =~= key_lists(was).push(key@));
        assert(match_keys(v@).take(i as int) =~= match_keys(v@).take(i - 1).push(key@));
    }
    assert(match_keys(v@).take(v@.len() as int) =~= match_keys(v@));
    let perm = order_by_keys(keys);
    proof {
        lemma_all_places(match_keys(v@), perm@);
    }
    let mut head: usize = 0;
    let mut a: usize = 0;
    while a < perm.len()
        invariant
            a <= perm@.len(),
            out@.len() == v@.len(),
            sorts(match_keys(v@), perm@),
            perm@.no_duplicates(),
            a > 0 ==> opens_file(v@, perm@[a - 1] as int, head as int),
            forall|q: int|
                0 <= q < a ==> opens_file(v@, #[trigger] perm@[q] as int, out@[perm@[q] as int] as int),
        decreases perm@.len() - a,
    {
        let place = perm[a];
        assert(perm@[a as int] < match_keys(v@).len());
        let again = if a > 0 {
            assert(perm@[a - 1] < match_keys(v@).len());
            is_same_path(v[perm[a - 1]].path.as_str(), v[place].path.as_str())
        } else {
            false
        };
        if again {
            proof {
                let keys = match_keys(v@);
                let x = keys[perm@[a - 1] as int];
                let y = keys[place as int];
                same_key_is_same_path(v@[perm@[a - 1] as int].path@, v@[place as int].path@);
                assert(comes_first(x, perm@[a - 1] as int, y, place as int));
                lex_is_strict(x, y);
            }
        } else {
            head = place;
            proof {
                lemma_new_file(v@, perm@, a as int);
            }
        }
        assert(opens_file(v@, place as int, head as int));
        let ghost was = out@;
        out.set(place, head);
        assert forall|q: int| 0 <= q < a + 1 implies opens_file(
            v@,
            #[trigger] perm@[q] as int,
            out@[perm@[q] as int] as int,
        ) by {
            if q < a {
                assert(perm@[q] != perm@[a as int]);
                assert(out@[perm@[q] as int] == was[perm@[q] as int]);
            }
        }
        a += 1;
    }
    assert forall|i: int| 0 <= i < v@.len() implies opens_file(v@, i, #[trigger] out@[i] as int) by {
        assert(perm@.contains(i as usize));
        let q = choose|q: int| 0 <= q < perm@.len() && perm@[q] == i as usize;
        assert(opens_file(v@, perm@[q] as int, out@[perm@[q] as int] as int));
    }
    out
}

/// The rows of all matches.
fn rows_of_matches(v: &Vec<ContentMatch>) -> (r: Vec<Row>)
    ensures
        rows_of(r@) == all_rows(v@, v@.len()),
{
    let first = first_places(v);
    let mut out: Vec<Row> = Vec::new();
    let mut i: usize = 0;
    assert(rows_of(out@) =~= Seq::<RowModel>::empty());
    while i < v.len()
        invariant
            i <= v@.len() == first@.len(),
            forall|k: int| 0 <= k < v@.len() ==> opens_file(v@, k, #[trigger] first@[k] as int),
            rows_of(out@) == all_rows(v@, i as nat),
        decreases v@.len() - i,
    {
        let m = &v[i];
        assert(numbered(m.context_before@).len() == m.context_before@.len());
        assert(numbered(m.context_after@).len() == m.context_after@.len());
        let ghost before = rows_of(out@);
        assert(opens_file(v@, i as int, first@[i as int] as int));
        let path = &v[first[i]].path;
        proof {
            lemma_first_place(v@, m.path@, first@[i as int] as int, (i + 1) as nat);
        }
        add_context(&mut out, path, &m.context_before);
        add_context(&mut out, path, &m.context_after);
        let ghost was = out@;
        let row = Row {
            path: path.clone(),
            line: m.line_number,
            text: m.line_content.clone(),
            span: Some((m.match_start, m.match_end)),
        };
        out.push(row);
        assert(rows_of(out@) =~= rows_of(was).push(row@));
        assert(rows_of(out@) =~= before + match_rows(*m, path@));
        i += 1;
    }
    out
}

fn has_context(v: &Vec<ContentMatch>) -> (r: bool)
    ensures
        r == any_context(v@),
{
    let mut i: usize = 0;
    while i < v.len()
        invariant
            i <= v@.len(),
            forall|j: int|
                0 <= j < i ==> (#[trigger] v@[j]).context_before@.len() == 0
                    && v@[j].context_after@.len() == 0,
        decreases v@.len() - i,
    {
        if v[i].context_before.len() > 0 || v[i].context_after.len() > 0 {
            assert(v@[i as int].context_before@.len() > 0 || v@[i as int].context_after@.len()
                > 0);
            return true;
        }
        i += 1;
    }
    false
}

/// Adds a line with the match in it set off.
fn put_match(out: &mut Vec<Piece>, text: &str, start: usize, end: usize, color: bool)
    ensures
        pieces_of(final(out)@) == pieces_of(old(out)@) + match_pieces(text@, start, end, color),
{
    let ghost before = pieces_of(out@);
    let chars = chars_of(text);
    let a = count_within(&chars, start);
    let b = count_within(&chars, end);
    if a > 0 {
        let t = text_between(&chars, 0, a);
        assert(t@ =~= text@.take(a as int));
        put(out, Role::Plain, color, t);
    }
    if b > a {
        put(out, Role::Highlight, color, text_between(&chars, a, b));
    }
    if b < chars.len() {
        let t = text_between(&chars, b, chars.len());
        assert(t@ =~= text@.skip(b as int));
        put(out, Role::Plain, color, t);
    }
    let end_of_line = ended("");
    proof {
        reveal_strlit("");
        assert(end_of_line@ =~= seq!['\n']);
    }
    put(out, Role::Plain, color, end_of_line);
    assert(pieces_of(out@) =~= before + match_pieces(text@, start, end, color));
}

/// One character as a text.
fn one(c: char) -> (r: String)
    ensures
        r@ == seq![c],
{
    let mut out = String::new();
    out.push(c);
    assert(out@ =~= seq![c]);
    out
}

/// Adds a row.
fn put_row(out: &mut Vec<Piece>, row: &Row, color: bool, heading: bool)
    ensures
        pieces_of(final(out)@) == pieces_of(old(out)@) + row_pieces(row@, color, heading),
{
    let ghost before = pieces_of(out@);
    let mark = if row.span.is_some() {
        ':'
    } else {
        '-'
    };
    if !heading {
        put(out, Role::Path, color, row.path.clone());
        put(out, Role::Plain, color, one(mark));
    }
    put(out, Role::LineNumber, color, number_text(row.line as u64));
    put(out, Role::Plain, color, one(mark));
    let ghost head = pieces_of(out@);
    match row.span {
        Some((start, end)) => put_match(out, row.text.as_str(), start, end, color),
        None => {
            put(out, Role::Plain, color, ended(row.text.as_str()));
            assert(pieces_of(out@) =~= head + seq![(Role::Plain, row.text@.push('\n'))]);
        },
    }
    assert(pieces_of(out@) =~= before + row_pieces(row@, color, heading));
}

/// Puts rows in order and keeps the first for each line.
fn sorted_rows(rows: Vec<Row>) -> (r: Vec<Row>)
    ensures
        exists|sorted: Seq<RowModel>| #[trigger]
            arranged(rows_of(rows@), row_keys(rows_of(rows@)), sorted) && rows_of(r@) == firsts(
                sorted,
            ),
{
    let ghost all = rows_of(rows@);
    let mut keys: Vec<Vec<u32>> = Vec::new();
    let mut k: usize = 0;
    while k < rows.len()
        invariant
            k <= rows@.len(),
            all == rows_of(rows@),
            key_lists(keys@) == row_keys(all).take(k as int),
        decreases rows@.len() - k,
    {
        let ghost was = keys@;
        let mut key = path_key_of(rows[k].path.as_str());
        key.push(0);
        key.push(rows[k].line);
        assert(all[k as int] == rows@[k as int]@);
        assert(key@ =~= content_key(all[k as int].path, all[k as int].line));
        if rows[k].span.is_some() {
            let back: u64 = u64::MAX - k as u64;
            key.push(0);
            key.push((back / 0x1_0000_0000) as u32);
            key.push((back % 0x1_0000_0000) as u32);
        } else {
            key.push(1);
        }
        assert(key@ =~= row_key(all[k as int], k as int));
        keys.push(key);
        k += 1;
        assert(key_lists(keys@) =~= key_lists(was).push(key@));
        assert(row_keys(all).take(k as int) =~= row_keys(all).take(k - 1).push(key@));
    }
    assert(row_keys(all).take(all.len() as int) =~= row_keys(all));
    let perm = order_by_keys(keys);
    let ghost sorted = picked(all, perm@);
    let mut out: Vec<Row> = Vec::new();
    let mut i: usize = 0;
    assert(rows_of(out@) =~= firsts(sorted.take(0)));
    while i < perm.len()
        invariant
            i <= perm@.len(),
            all == rows_of(rows@),
            sorted == picked(all, perm@),
            forall|j: int| 0 <= j < perm@.len() ==> (#[trigger] perm@[j]) < rows@.len(),
            rows_of(out@) == firsts(sorted.take(i as int)),
        decreases perm@.len() - i,
    {
        let ghost was = out@;
        assert(perm@[i as int] < rows@.len());
        let row = &rows[perm[i]];
        assert(sorted[i as int] == row@);
        proof {
            reveal(same_line);
        }
        let again = if i > 0 {
            assert(perm@[i - 1] < rows@.len());
            let before = &rows[perm[i - 1]];
            assert(sorted[i - 1] == before@);
            before.line == row.line && is_same_path(before.path.as_str(), row.path.as_str())
        } else {
            false
        };
        assert(sorted.take(i + 1).drop_last() =~= sorted.take(i as int));
        if !again {
            let copy = Row {
                path: row.path.clone(),
                line: row.line,
                text: row.text.clone(),
                span: row.span,
            };
            out.push(copy);
            assert(rows_of(out@) =~= rows_of(was).push(copy@));
            assert(copy@ == row@);
        }
        i += 1;
    }
    assert(sorted.take(sorted.len() as int) =~= sorted);
    assert(arranged(all, row_keys(all), sorted));
    out
}

/// Matches as they are shown: by path and line, each line once, with a mark
/// where lines are left out between lines around matches.
pub fn print_content_matches(matches: &Vec<ContentMatch>, color: bool, heading: bool) -> (r: Vec<
    Piece,
>)
    ensures
        exists|sorted: Seq<RowModel>| #[trigger]
            arranged(
                all_rows(matches@, matches@.len()),
                row_keys(all_rows(matches@, matches@.len())),
                sorted,
            ) && pieces_of(r@) == shown_rows(
                firsts(sorted),
                firsts(sorted).len(),
                color,
                heading,
                any_context(matches@),
            ),
{
    let context = has_context(matches);
    let rows = sorted_rows(rows_of_matches(matches));
    let ghost v = rows_of(rows@);
    let mut out: Vec<Piece> = Vec::new();
    let mut i: usize = 0;
    assert(pieces_of(out@) =~= Seq::<(Role, Seq<char>)>::empty());
    while i < rows.len()
        invariant
            i <= rows@.len(),
            v == rows_of(rows@),
            pieces_of(out@) == shown_rows(v, i as nat, color, heading, context),
        decreases rows@.len() - i,
    {
        let ghost before = pieces_of(out@);
        assert(v[i as int] == rows@[i as int]@);
        let fresh = if i == 0 {
            true
        } else {
            assert(v[i - 1] == rows@[i - 1]@);
            !is_same_path(rows[i - 1].path.as_str(), rows[i].path.as_str())
        };
        if fresh {
            if heading {
                if i > 0 {
                    put(&mut out, Role::Plain, color, one('\n'));
                }
                put(&mut out, Role::PathHeading, color, ended(rows[i].path.as_str()));
            }
        } else if context && rows[i].line > rows[i - 1].line.saturating_add(1) {
            put(&mut out, Role::Separator, color, ended("--"));
        }
        assert(pieces_of(out@) =~= before + lead(v, i as int, color, heading, context));
        put_row(&mut out, &rows[i], color, heading);
        i += 1;
    }
    out
}

/// The paths that are not the same as an earlier one.
pub open spec fn distinct_paths(v: Seq<Seq<char>>) -> Seq<Seq<char>>
    decreases v.len(),
{
    if v.len() == 0 {
        v
    } else {
        let before = distinct_paths(v.drop_last());
        if exists|i: int| 0 <= i < v.len() - 1 && same_path(#[trigger] v[i], v.last()) {
            before
        } else {
            before.push(v.last())
        }
    }
}

/// Paths as they are shown, one on a line.
pub open spec fn shown_paths(v: Seq<Seq<char>>, color: bool) -> Seq<(Role, Seq<char>)> {
    v.map_values(|p: Seq<char>| (shown(Role::Path, color), p.push('\n')))
}

/// Whether the path at a place is not the same as an earlier one.
pub open spec fn is_first(v: Seq<Seq<char>>, i: int) -> bool {
    forall|j: int| 0 <= j < i ==> !same_path(#[trigger] v[j], v[i])
}

/// For each path, whether it is not the same as an earlier one.
fn first_flags(paths: &Vec<String>) -> (r: Vec<bool>)
    ensures
        r@.len() == paths@.len(),
        forall|i: int|
            0 <= i < paths@.len() ==> #[trigger] r@[i] == is_first(texts(paths@), i),
{
    let ghost all = texts(paths@);
    let ghost ks = path_keys(all);
    let n = paths.len();
    let mut keys: Vec<Vec<u32>> = Vec::new();
    let mut flags: Vec<bool> = Vec::new();
    let mut k: usize = 0;
    while k < n
        invariant
            k <= n == paths@.len(),
            all == texts(paths@),
            ks == path_keys(all),
            key_lists(keys@) == ks.take(k as int),
            flags@.len() == k,
            forall|j: int| 0 <= j < k ==> #[trigger] flags@[j],
        decreases n - k,
    {
        let ghost was = keys@;
        let key = path_key_of(paths[k].as_str());
        keys.push(key);
        flags.push(true);
        k += 1;
        assert(key_lists(keys@) =~= key_lists(was).push(key@));
        assert(ks.take(k as int) =~= ks.take(k - 1).push(key@));
    }
    assert(ks.take(ks.len() as int) =~= ks);
    let perm = order_by_keys(keys);
    proof {
        crate::order::lemma_all_places(ks, perm@);
    }
    let mut i: usize = 0;
    while i < perm.len()
        invariant
            i <= perm@.len(),
            n == paths@.len(),
            all == texts(paths@),
            ks == path_keys(all),
            sorts(ks, perm@),
            perm@.no_duplicates(),
            flags@.len() == n,
            forall|j: int|
                0 <= j < i ==> flags@[#[trigger] perm@[j] as int] == is_first(
                    all,
                    perm@[j] as int,
                ),
            forall|j: int| i <= j < perm@.len() ==> flags@[#[trigger] perm@[j] as int],
        decreases perm@.len() - i,
    {
        let p = perm[i];
        assert(perm@[i as int] < ks.len());
        let again = if i > 0 {
            assert(perm@[i - 1] < ks.len());
            let q = perm[i - 1];
            is_same_path(paths[q].as_str(), paths[p].as_str())
        } else {
            false
        };
        proof {
            lemma_first_in_order(all, perm@, i as int);
            assert(all[p as int] == paths@[p as int]@);
            if i > 0 {
                assert(all[perm@[i - 1] as int] == paths@[perm@[i - 1] as int]@);
            }
        }
        let ghost was = flags@;
        if again {
            flags.set(p, false);
        }
        assert forall|j: int| 0 <= j < i + 1 implies flags@[#[trigger] perm@[j] as int]
            == is_first(all, perm@[j] as int) by {
            if j < i {
                assert(perm@[j] != perm@[i as int]);
                assert(was[perm@[j] as int] == is_first(all, perm@[j] as int));
            }
        }
        assert forall|j: int| i + 1 <= j < perm@.len() implies flags@[
            #[trigger] perm@[j] as int
        ] by {
            assert(perm@[j] != perm@[i as int]);
            assert(was[perm@[j] as int]);
        }
        i += 1;
    }
    assert forall|x: int| 0 <= x < n implies #[trigger] flags@[x] == is_first(all, x) by {
        assert(perm@.contains(x as usize));
        let j = choose|j: int| 0 <= j < perm@.len() && perm@[j] == x as usize;
        assert(flags@[perm@[j] as int] == is_first(all, perm@[j] as int));
    }
    flags
}

/// In order of keys, a path is the same as an earlier one exactly if it is the
/// same as the one right before it in that order.
proof fn lemma_first_in_order(all: Seq<Seq<char>>, perm: Seq<usize>, i: int)
    requires
        sorts(path_keys(all), perm),
        0 <= i < perm.len(),
    ensures
        is_first(all, perm[i] as int) <==> !(i > 0 && same_path(
            all[perm[i - 1] as int],
            all[perm[i] as int],
        )),
{
    let ks = path_keys(all);
    let p = perm[i] as int;
    crate::order::lemma_all_places(ks, perm);
    assert(perm[i] < ks.len());
    if i > 0 && same_path(all[perm[i - 1] as int], all[p]) {
        let q = perm[i - 1] as int;
        assert(perm[i - 1] < ks.len());
        same_key_is_same_path(all[q], all[p]);
        assert(ks[q] == ks[p]);
        assert(crate::order::comes_first(ks[q], q, ks[p], p));
        crate::order::lex_is_strict(ks[q], ks[p]);
        assert(q < p);
        assert(!is_first(all, p));
    } else {
        assert forall|j: int| 0 <= j < p implies !same_path(#[trigger] all[j], all[p]) by {
            if same_path(all[j], all[p]) {
                same_key_is_same_path(all[j], all[p]);
                assert(ks[j] == ks[p]);
                assert(perm.contains(j as usize));
                let a = choose|a: int| 0 <= a < perm.len() && perm[a] == j as usize;
                if a > i {
                    assert(crate::order::comes_first(ks[p], p, ks[j], j));
                    crate::order::lex_is_strict(ks[p], ks[j]);
                    assert(false);
                }
                if a == i {
                    assert(false);
                }
                // What stands between two equal keys has the same key.
                let q = perm[i - 1] as int;
                assert(perm[i - 1] < ks.len());
                if a == i - 1 {
                    assert(q == j);
                    assert(false);
                } else {
                    assert(crate::order::comes_first(ks[j], j, ks[q], q));
                    assert(crate::order::comes_first(ks[q], q, ks[p], p));
                    if ks[q] != ks[p] {
                        assert(crate::order::lex_lt(ks[j], ks[q]) || ks[j] == ks[q]);
                        crate::order::lex_is_strict(ks[q], ks[p]);
                        assert(false);
                    }
                    same_key_is_same_path(all[q], all[p]);
                    assert(false);
                }
            }
        }
    }
}

/// Paths as they are shown, each once.
pub fn print_file_paths(paths: &Vec<String>, color: bool) -> (r: Vec<Piece>)
    ensures
        pieces_of(r@) == shown_paths(distinct_paths(texts(paths@)), color),
{
    let ghost all = texts(paths@);
    let flags = first_flags(paths);
    let mut out: Vec<Piece> = Vec::new();
    let mut i: usize = 0;
    assert(pieces_of(out@) =~= shown_paths(distinct_paths(all.take(0)), color));
    while i < paths.len()
        invariant
            i <= paths@.len(),
            all == texts(paths@),
            flags@.len() == paths@.len(),
            forall|j: int| 0 <= j < paths@.len() ==> #[trigger] flags@[j] == is_first(all, j),
            pieces_of(out@) == shown_paths(distinct_paths(all.take(i as int)), color),
        decreases paths@.len() - i,
    {
        let ghost longer = all.take(i + 1);
        let ghost before = pieces_of(out@);
        assert(longer.drop_last() =~= all.take(i as int));
        assert(longer.last() == paths@[i as int]@);
        assert(flags@[i as int] == is_first(all, i as int));
        proof {
            if !is_first(all, i as int) {
                let j = choose|j: int| 0 <= j < i && same_path(#[trigger] all[j], all[i as int]);
                assert(same_path(longer[j], longer.last()));
            }
            if exists|j: int|
                0 <= j < longer.len() - 1 && same_path(#[trigger] longer[j], longer.last()) {
                let j = choose|j: int|
                    0 <= j < longer.len() - 1 && same_path(#[trigger] longer[j], longer.last());
                assert(same_path(all[j], all[i as int]));
            }
        }
        if flags[i] {
            put(&mut out, Role::Path, color, ended(paths[i].as_str()));
            assert(pieces_of(out@) =~= shown_paths(
                distinct_paths(all.take(i as int)).push(paths@[i as int]@),
                color,
            ));
        }
        i += 1;
    }
    assert(all.take(all.len() as int) =~= all);
    out
}

/// Counts as they are shown: the first `n` paths, each with its count.
pub open spec fn shown_counts(v: Seq<(Seq<char>, nat)>, n: nat, color: bool) -> Seq<
    (Role, Seq<char>),
>
    decreases n,
{
    if n == 0 {
        Seq::empty()
    } else {
        shown_counts(v, (n - 1) as nat, color) + seq![
            (shown(Role::Path, color), v[n - 1].0),
            (Role::Plain, seq![':']),
            (shown(Role::LineNumber, color), decimal_text(v[n - 1].1).push('\n')),
        ]
    }
}

/// Counts as they are shown, in the order given.
pub fn print_file_counts(counts: &Vec<(String, usize)>, color: bool) -> (r: Vec<Piece>)
    ensures
        pieces_of(r@) == shown_counts(counts_of(counts@), counts@.len(), color),
{
    let mut out: Vec<Piece> = Vec::new();
    let mut i: usize = 0;
    assert(pieces_of(out@) =~= Seq::<(Role, Seq<char>)>::empty());
    while i < counts.len()
        invariant
            i <= counts@.len(),
            pieces_of(out@) == shown_counts(counts_of(counts@), i as nat, color),
        decreases counts@.len() - i,
    {
        let ghost before = pieces_of(out@);
        assert(counts_of(counts@)[i as int] == (
            counts@[i as int].0@,
            counts@[i as int].1 as nat,
        ));
        put(&mut out, Role::Path, color, counts[i].0.clone());
        put(&mut out, Role::Plain, color, one(':'));
        put(
            &mut out,
            Role::LineNumber,
            color,
            ended(number_text(counts[i].1 as u64).as_str()),
        );
        i += 1;
        assert(pieces_of(out@) =~= shown_counts(counts_of(counts@), i as nat, color));
    }
    out
}

/// The paths of matches.
pub open spec fn match_paths(v: Seq<ContentMatch>) -> Seq<Seq<char>> {
    v.map_values(|m: ContentMatch| m.path@)
}

/// The number of matches in each file as it is shown, in order of paths.
pub fn print_match_counts(matches: &Vec<ContentMatch>, color: bool) -> (r: Vec<Piece>)
    ensures
        exists|sorted: Seq<Seq<char>>| #[trigger]
            arranged(match_paths(matches@), path_keys(match_paths(matches@)), sorted)
                && pieces_of(r@) == shown_counts(tally(sorted), tally(sorted).len(), color),
{
    let ghost all = match_paths(matches@);
    let mut paths: Vec<String> = Vec::new();
    let mut i: usize = 0;
    while i < matches.len()
        invariant
            i <= matches@.len(),
            all == match_paths(matches@),
            texts(paths@) == all.take(i as int),
        decreases matches@.len() - i,
    {
        let ghost was = paths@;
        paths.push(matches[i].path.clone());
        i += 1;
        assert(texts(paths@) =~= texts(was).push(matches@[i - 1].path@));
        assert(all.take(i as int) =~= all.take(i - 1).push(all[i - 1]));
    }
    assert(all.take(all.len() as int) =~= all);
    let sorted = sort_paths(paths);
    let counts = tally_paths(&sorted);
    assert(counts_of(counts@).len() == counts@.len());
    assert(arranged(all, path_keys(all), texts(sorted@)));
    print_file_counts(&counts, color)
}

} // verus!
