//! What is printed: nothing of a line is lost, colors change nothing but colors,
//! and a matching line is shown as one.
use crate::order::{lex_lt, names_place};
use crate::output::{
    all_rows, context_rows, firsts, lead, match_pieces, match_rows, row_key, row_keys, row_pieces,
    same_line, shown_counts, shown_path, shown_paths, shown_rows, Role, RowModel,
};
use crate::path_laws::lemma_same_start;
use crate::paths::{same_key_is_same_path, same_path};
use crate::query::rank_laws::sorting_moves_each_item_once;
use crate::query::search::{arranged, content_key};
use crate::server::protocol::ContentMatch;
use crate::text::{
    byte_len, chars_within, decimal_text, lemma_byte_len_bounds, lemma_byte_len_concat,
};
use vstd::prelude::*;

verus! {

/// The text of pieces, one after the other.
pub open spec fn said(v: Seq<(Role, Seq<char>)>) -> Seq<char>
    decreases v.len(),
{
    if v.len() == 0 {
        Seq::empty()
    } else {
        said(v.drop_last()) + v.last().1
    }
}

proof fn lemma_said_sum(a: Seq<(Role, Seq<char>)>, b: Seq<(Role, Seq<char>)>)
    ensures
        said(a + b) == said(a) + said(b),
    decreases b.len(),
{
    if b.len() == 0 {
        assert(a + b =~= a);
        assert(said(a) + said(b) =~= said(a));
    } else {
        lemma_said_sum(a, b.drop_last());
        assert((a + b).drop_last() =~= a + b.drop_last());
        assert((a + b).last() == b.last());
        assert(said(a + b) =~= said(a) + said(b));
    }
}

proof fn lemma_said_one(p: (Role, Seq<char>))
    ensures
        said(seq![p]) == p.1,
        said(Seq::<(Role, Seq<char>)>::empty()) == Seq::<char>::empty(),
{
    reveal_with_fuel(said, 2);
    assert(seq![p].drop_last() =~= Seq::<(Role, Seq<char>)>::empty());
    assert(said(seq![p]) =~= p.1);
}

pub(crate) proof fn lemma_within(s: Seq<char>, n: nat)
    ensures
        chars_within(s, n) <= s.len(),
        byte_len(s.take(chars_within(s, n) as int)) <= n,
        chars_within(s, n) < s.len() ==> byte_len(s.take(chars_within(s, n) as int + 1)) > n,
    decreases s.len(),
{
    if byte_len(s) <= n || s.len() == 0 {
        assert(s.take(s.len() as int) =~= s);
    } else {
        let front = s.drop_last();
        lemma_within(front, n);
        let k = chars_within(front, n) as int;
        assert(front.take(k) =~= s.take(k));
        if k < front.len() {
            assert(front.take(k + 1) =~= s.take(k + 1));
        } else {
            assert(s.take(k + 1) =~= s);
        }
    }
}

pub(crate) proof fn lemma_longer_start(s: Seq<char>, a: int, b: int)
    requires
        0 <= a <= b <= s.len(),
    ensures
        byte_len(s.take(a)) <= byte_len(s.take(b)),
        a < b ==> byte_len(s.take(a)) < byte_len(s.take(b)),
{
    let more = s.subrange(a, b);
    assert(s.take(b) =~= s.take(a) + more);
    lemma_byte_len_concat(s.take(a), more);
    lemma_byte_len_bounds(more);
}

/// The line of a match is printed whole, and a line feed behind it, whichever
/// part of it is set off.
pub proof fn matching_line_is_printed_whole(text: Seq<char>, start: usize, end: usize, color: bool)
    requires
        start <= end,
    ensures
        said(match_pieces(text, start, end, color)) == text.push('\n'),
{
    let a = chars_within(text, start as nat) as int;
    let b = chars_within(text, end as nat) as int;
    lemma_within(text, start as nat);
    lemma_within(text, end as nat);
    if b < a {
        lemma_longer_start(text, b + 1, a);
    }
    let none: Seq<(Role, Seq<char>)> = Seq::empty();
    let p = if a > 0 {
        seq![(Role::Plain, text.take(a))]
    } else {
        none
    };
    let hot = (crate::output::shown(Role::Highlight, color), text.subrange(a, b));
    let q = if b > a {
        seq![hot]
    } else {
        none
    };
    let r = if b < text.len() {
        seq![(Role::Plain, text.skip(b))]
    } else {
        none
    };
    let z = seq![(Role::Plain, seq!['\n'])];
    lemma_said_sum(p + q + r, z);
    lemma_said_sum(p + q, r);
    lemma_said_sum(p, q);
    lemma_said_one((Role::Plain, text.take(a)));
    lemma_said_one(hot);
    lemma_said_one((Role::Plain, text.skip(b)));
    lemma_said_one((Role::Plain, seq!['\n']));
    assert(said(p) =~= text.take(a));
    assert(said(q) =~= text.subrange(a, b));
    assert(said(r) =~= text.skip(b));
    assert(match_pieces(text, start, end, color) =~= p + q + r + z);
    assert(text.take(a) + text.subrange(a, b) + text.skip(b) + seq!['\n'] =~= text.push('\n'));
}

/// What is set off is the match: the characters between its first byte and its
/// end.
pub proof fn the_match_is_set_off(x: Seq<char>, y: Seq<char>, z: Seq<char>)
    requires
        y.len() > 0,
        byte_len(x + y) <= usize::MAX,
    ensures
        match_pieces(
            x + y + z,
            byte_len(x) as usize,
            byte_len(x + y) as usize,
            true,
        ).contains((Role::Highlight, y)),
        forall|i: int|
            0 <= i < match_pieces(
                x + y + z,
                byte_len(x) as usize,
                byte_len(x + y) as usize,
                true,
            ).len() && (#[trigger] match_pieces(
                x + y + z,
                byte_len(x) as usize,
                byte_len(x + y) as usize,
                true,
            )[i]).0 == Role::Highlight ==> match_pieces(
                x + y + z,
                byte_len(x) as usize,
                byte_len(x + y) as usize,
                true,
            )[i].1 == y,
{
    let text = x + y + z;
    lemma_byte_len_concat(x, y);
    lemma_place(text, x.len() as int);
    lemma_place(text, (x.len() + y.len()) as int);
    let a = x.len() as int;
    let b = a + y.len();
    assert(text.take(a) =~= x);
    assert(text.take(b) =~= x + y);
    assert(text.subrange(a, b) =~= y);
    let v = match_pieces(text, byte_len(x) as usize, byte_len(x + y) as usize, true);
    let k: int = if a > 0 {
        1
    } else {
        0
    };
    assert(v[k] == (Role::Highlight, y));
}

pub(crate) proof fn lemma_place(s: Seq<char>, k: int)
    requires
        0 <= k <= s.len(),
    ensures
        chars_within(s, byte_len(s.take(k))) == k,
{
    let n = byte_len(s.take(k));
    lemma_within(s, n);
    let m = chars_within(s, n) as int;
    if m < k {
        lemma_longer_start(s, m + 1, k);
    }
    if k < m {
        lemma_longer_start(s, k, m);
    }
}

/// A row is printed as its path, its number and its text with a mark between: a
/// colon for a match, a dash for a line around one. Under headings the path is
/// left out.
pub proof fn rows_are_printed_with_path_and_number(r: RowModel, color: bool)
    requires
        match r.span {
            Some((start, end)) => start <= end,
            None => true,
        },
    ensures
        ({
            let mark = if r.span is Some {
                seq![':']
            } else {
                seq!['-']
            };
            let number = decimal_text(r.line as nat);
            &&& said(row_pieces(r, color, false)) == r.path + mark + number + mark + r.text.push(
                '\n',
            )
            &&& said(row_pieces(r, color, true)) == number + mark + r.text.push('\n')
        }),
{
    let mark = if r.span is Some {
        seq![':']
    } else {
        seq!['-']
    };
    let number = decimal_text(r.line as nat);
    let p = (crate::output::shown(Role::Path, color), r.path);
    let m = (Role::Plain, mark);
    let n = (crate::output::shown(Role::LineNumber, color), number);
    let tail = match r.span {
        Some((start, end)) => match_pieces(r.text, start, end, color),
        None => seq![(Role::Plain, r.text.push('\n'))],
    };
    match r.span {
        Some((start, end)) => {
            matching_line_is_printed_whole(r.text, start, end, color);
        },
        None => {
            lemma_said_one((Role::Plain, r.text.push('\n')));
        },
    }
    let none: Seq<(Role, Seq<char>)> = Seq::empty();
    lemma_said_one(p);
    lemma_said_one(m);
    lemma_said_one(n);
    lemma_said_sum(seq![p], seq![m]);
    lemma_said_sum(seq![n], seq![m]);
    assert(seq![p] + seq![m] =~= seq![p, m]);
    assert(seq![n] + seq![m] =~= seq![n, m]);
    lemma_said_sum(seq![p, m] + seq![n, m], tail);
    lemma_said_sum(seq![p, m], seq![n, m]);
    lemma_said_sum(none + seq![n, m], tail);
    lemma_said_sum(none, seq![n, m]);
    assert(said(row_pieces(r, color, false)) =~= r.path + mark + number + mark + r.text.push('\n'));
    assert(said(row_pieces(r, color, true)) =~= number + mark + r.text.push('\n'));
}

/// Colors change no text, and without them every piece is plain.
pub proof fn colors_change_no_text(
    v: Seq<RowModel>,
    n: nat,
    heading: bool,
    context: bool,
)
    requires
        n <= v.len(),
    ensures
        ({
            let a = shown_rows(v, n, false, heading, context);
            let b = shown_rows(v, n, true, heading, context);
            &&& a.len() == b.len()
            &&& forall|i: int| 0 <= i < a.len() ==> (#[trigger] a[i]).1 == b[i].1 && a[i].0
                == Role::Plain
        }),
    decreases n,
{
    if n > 0 {
        colors_change_no_text(v, (n - 1) as nat, heading, context);
        let r = v[n - 1];
        let a = shown_rows(v, (n - 1) as nat, false, heading, context);
        let b = shown_rows(v, (n - 1) as nat, true, heading, context);
        let la = lead(v, n - 1, false, heading, context);
        let lb = lead(v, n - 1, true, heading, context);
        let ra = row_pieces(r, false, heading);
        let rb = row_pieces(r, true, heading);
        assert(la.len() == lb.len());
        assert(ra.len() == rb.len());
        assert forall|i: int| 0 <= i < la.len() implies (#[trigger] la[i]).1 == lb[i].1 && la[i].0
            == Role::Plain by {}
        assert forall|i: int| 0 <= i < ra.len() implies (#[trigger] ra[i]).1 == rb[i].1 && ra[i].0
            == Role::Plain by {}
        let x = a + la + ra;
        let y = b + lb + rb;
        assert forall|i: int| 0 <= i < x.len() implies (#[trigger] x[i]).1 == y[i].1 && x[i].0
            == Role::Plain by {
            if i < a.len() {
                assert(x[i] == a[i] && y[i] == b[i]);
            } else if i < a.len() + la.len() {
                assert(x[i] == la[i - a.len()] && y[i] == lb[i - a.len()]);
            } else {
                let k = i - a.len() - la.len();
                assert(x[i] == ra[k] && y[i] == rb[k]);
            }
        }
    }
}

/// Under headings, the first row of each file has the path of the file above it,
/// and no other row has; files stand apart by an empty line.
pub proof fn each_file_has_one_heading(v: Seq<RowModel>, i: int, color: bool, context: bool)
    requires
        0 <= i < v.len(),
    ensures
        i == 0 ==> said(lead(v, i, color, true, context)) == v[i].path.push('\n'),
        i > 0 && !same_path(v[i - 1].path, v[i].path) ==> said(lead(v, i, color, true, context))
            == seq!['\n'] + v[i].path.push('\n'),
        i > 0 && same_path(v[i - 1].path, v[i].path) ==> said(lead(v, i, color, true, context))
            == if context && v[i].line > v[i - 1].line + 1 {
            seq!['-', '-', '\n']
        } else {
            Seq::empty()
        },
{
    reveal_strlit("--");
    assert("--"@ =~= seq!['-', '-']);
    let head = (crate::output::shown(Role::PathHeading, color), v[i].path.push('\n'));
    let gap = (Role::Plain, seq!['\n']);
    let cut = (crate::output::shown(Role::Separator, color), "--"@.push('\n'));
    lemma_said_one(head);
    lemma_said_one(gap);
    lemma_said_one(cut);
    lemma_said_sum(seq![gap], seq![head]);
    lemma_said_sum(Seq::<(Role, Seq<char>)>::empty(), seq![head]);
    assert("--"@.push('\n') =~= seq!['-', '-', '\n']);
    assert(Seq::<char>::empty() + v[i].path.push('\n') =~= v[i].path.push('\n'));
}

/// A further file adds its path, a colon and its count on a line of its own.
pub proof fn counts_are_printed_file_by_file(v: Seq<(Seq<char>, nat)>, n: nat, color: bool)
    requires
        n < v.len(),
    ensures
        said(shown_counts(v, 0, color)).len() == 0,
        said(shown_counts(v, n + 1, color)) == said(shown_counts(v, n, color)) + v[n as int].0
            + seq![':'] + decimal_text(v[n as int].1).push('\n'),
{
    let p = (crate::output::shown(Role::Path, color), v[n as int].0);
    let m = (Role::Plain, seq![':']);
    let d = (crate::output::shown(Role::LineNumber, color), decimal_text(v[n as int].1).push('\n'));
    let before = shown_counts(v, n, color);
    lemma_said_one(p);
    lemma_said_one(m);
    lemma_said_one(d);
    lemma_said_sum(before, seq![p, m, d]);
    lemma_said_sum(seq![p] + seq![m], seq![d]);
    lemma_said_sum(seq![p], seq![m]);
    assert(seq![p] + seq![m] + seq![d] =~= seq![p, m, d]);
    assert(said(shown_counts(v, n + 1, color)) =~= said(before) + v[n as int].0 + seq![':']
        + decimal_text(v[n as int].1).push('\n'));
}

/// Each path is printed on a line of its own, in the order given.
pub proof fn paths_are_printed_one_by_one(v: Seq<Seq<char>>, p: Seq<char>, color: bool)
    ensures
        said(shown_paths(Seq::empty(), color)).len() == 0,
        said(shown_paths(v.push(p), color)) == said(shown_paths(v, color)) + p.push('\n'),
{
    assert(shown_paths(v.push(p), color).drop_last() =~= shown_paths(v, color));
    assert(shown_paths(Seq::<Seq<char>>::empty(), color).len() == 0);
}

proof fn lemma_context_rows(path: Seq<char>, v: Seq<(u32, Seq<char>)>, n: nat)
    requires
        n <= v.len(),
    ensures
        context_rows(path, v, n).len() == n,
        forall|i: int|
            0 <= i < n ==> #[trigger] context_rows(path, v, n)[i] == (RowModel {
                path,
                line: v[i].0,
                text: v[i].1,
                span: None,
            }),
    decreases n,
{
    if n > 0 {
        lemma_context_rows(path, v, (n - 1) as nat);
    }
}

/// A match has a row for its own line, with the place of the match, and one for
/// each of the lines around it, all under one path; nothing else has a row.
pub proof fn a_match_has_its_rows(m: ContentMatch, path: Seq<char>)
    ensures
        ({
            let h = m@;
            let r = match_rows(m, path);
            let a = h.context_before.len();
            let b = h.context_after.len();
            &&& r.len() == a + b + 1
            &&& forall|i: int|
                0 <= i < a ==> #[trigger] r[i] == (RowModel {
                    path,
                    line: h.context_before[i].0,
                    text: h.context_before[i].1,
                    span: None,
                })
            &&& forall|i: int|
                a <= i < a + b ==> #[trigger] r[i] == (RowModel {
                    path,
                    line: h.context_after[i - a].0,
                    text: h.context_after[i - a].1,
                    span: None,
                })
            &&& r.last() == (RowModel {
                path,
                line: h.line_number,
                text: h.line_content,
                span: Some((m.match_start, m.match_end)),
            })
        }),
{
    let h = m@;
    lemma_context_rows(path, h.context_before, h.context_before.len());
    lemma_context_rows(path, h.context_after, h.context_after.len());
}

/// The rows of a further match stand behind those of the others.
pub proof fn each_match_adds_its_rows(v: Seq<ContentMatch>, n: nat)
    requires
        n < v.len(),
    ensures
        all_rows(v, 0).len() == 0,
        all_rows(v, n + 1) == all_rows(v, n) + match_rows(v[n as int], shown_path(v, n as int)),
{
}

proof fn lemma_first_is_match(v: Seq<RowModel>)
    requires
        forall|i: int, j: int|
            0 <= i <= j < v.len() && #[trigger] same_line(v[i], v[j]) && v[j].span is Some
                ==> v[i].span is Some,
    ensures
        forall|p: int|
            0 <= p < v.len() && (#[trigger] v[p]).span is Some ==> shows_match(firsts(v), v[p]),
    decreases v.len(),
{
    if v.len() > 0 {
        let front = v.drop_last();
        assert forall|i: int, j: int|
            0 <= i <= j < front.len() && #[trigger] same_line(front[i], front[j])
                && front[j].span is Some implies front[i].span is Some by {
            assert(same_line(v[i], v[j]));
        }
        lemma_first_is_match(front);
        let f = firsts(v);
        let g = firsts(front);
        assert forall|p: int| 0 <= p < v.len() && (#[trigger] v[p]).span is Some implies shows_match(
            f,
            v[p],
        ) by {
            reveal(same_line);
            if p < v.len() - 1 {
                assert(front[p] == v[p]);
                let i = choose|i: int|
                    0 <= i < g.len() && same_line(#[trigger] g[i], v[p]) && g[i].span is Some;
                assert(f[i] == g[i]);
            } else if v.len() > 1 && same_line(v[v.len() - 2], v.last()) {
                let q = v.len() - 2;
                assert(same_line(v[q], v[p]));
                assert(front[q] == v[q]);
                assert(shows_match(g, front[q]));
                let i = choose|i: int|
                    0 <= i < g.len() && same_line(#[trigger] g[i], front[q]) && g[i].span is Some;
                assert(same_line(f[i], v[p]));
            } else {
                assert(f[g.len() as int] == v.last());
                assert(same_line(f[g.len() as int], v[p]));
            }
        }
    }
}

/// Whether a line is among rows, as a match.
pub open spec fn shows_match(r: Seq<RowModel>, row: RowModel) -> bool {
    exists|i: int| 0 <= i < r.len() && same_line(#[trigger] r[i], row) && r[i].span is Some
}

/// A line with a match is shown as one, also where it stands near other matches.
pub proof fn matches_are_shown_as_matches(items: Seq<RowModel>, sorted: Seq<RowModel>, p: int)
    requires
        arranged(items, row_keys(items), sorted),
        0 <= p < items.len(),
        items[p].span is Some,
    ensures
        shows_match(firsts(sorted), items[p]),
{
    let keys = row_keys(items);
    let perm = sorting_moves_each_item_once(items, keys, sorted);
    assert forall|i: int, j: int|
        0 <= i <= j < sorted.len() && #[trigger] same_line(sorted[i], sorted[j])
            && sorted[j].span is Some implies sorted[i].span is Some by {
        reveal(same_line);
        if i < j && sorted[i].span is None {
            let a = sorted[i];
            let b = sorted[j];
            assert(a == items[perm[i] as int] && b == items[perm[j] as int]);
            same_key_is_same_path(a.path, b.path);
            let start = content_key(a.path, a.line);
            assert(start == content_key(b.path, b.line));
            let x = keys[perm[i] as int];
            let y = keys[perm[j] as int];
            assert(x == row_key(a, perm[i] as int) && y == row_key(b, perm[j] as int));
            let back = u64::MAX - perm[j] as int;
            let tail = seq![0u32, (back / 0x1_0000_0000) as u32, (back % 0x1_0000_0000) as u32];
            assert(x == start + seq![1u32]);
            assert(y == start + tail);
            lemma_same_start(start, tail, seq![1u32]);
            assert(lex_lt(tail, seq![1u32]));
            assert(!lex_lt(y, x));
        }
    }
    lemma_first_is_match(sorted);
    assert(names_place(perm, p));
    let q = choose|q: int| 0 <= q < perm.len() && #[trigger] perm[q] as int == p;
    assert(sorted[q] == items[p]);
}

} // verus!
