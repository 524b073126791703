//! What the matches of a check are: every line that matches is shown, and nothing
//! else.
use crate::query::content::{
    all_hits, any_hits, are_close, ascii_search, ascii_spot, check_hits, exact_spot, has_break,
    hits, lemma_all_hits, lower_spot, lower_terms, near_hits, pattern_spot, plain_segments,
    regex_compiles, regex_find, size_sum, stands_in, terms_close, Hit, Spot,
};
use crate::query::line_laws::{lemma_lowered_strip, lemma_stands, lemma_strip};
use crate::query::lines::{
    first_at, first_place_is_first, lemma_line_count, lines, occurs_at, segments, strip_return,
};
use crate::query::plan::CheckModel;
use crate::query::scan_laws::{
    lemma_line_piece, lemma_lowered_is_ascii, lemma_piece_lowered, lemma_segment_piece,
    lemma_strip_piece,
};
use crate::query::validate::spelled_text;
use crate::text::{
    byte_len, lemma_byte_len_encoding, lemma_span, lemma_span_is, lower_case, lowered, span,
};
use vstd::prelude::*;
use vstd::utf8::{encode_utf8, is_ascii_chars};

verus! {

/// A further alternative adds its matches behind those of the others, and takes
/// none of them away.
pub proof fn alternatives_add_their_matches(content: Seq<char>, v: Seq<CheckModel>, c: CheckModel)
    ensures
        check_hits(content, CheckModel::Or(Seq::empty())).len() == 0,
        check_hits(content, CheckModel::Or(v.push(c))) == check_hits(content, CheckModel::Or(v))
            + check_hits(content, c),
{
    let w = v.push(c);
    lemma_any_prefix(content, v, c, v.len());
    assert(w[v.len() as int] == c);
    assert(any_hits(content, w, w.len()) == any_hits(content, w, v.len()) + check_hits(content, c));
    assert(check_hits(content, CheckModel::Or(w)) == any_hits(content, w, w.len()));
    let none = Seq::<CheckModel>::empty();
    assert(any_hits(content, none, none.len()).len() == 0);
}

proof fn lemma_any_prefix(content: Seq<char>, v: Seq<CheckModel>, c: CheckModel, n: nat)
    requires
        n <= v.len(),
    ensures
        any_hits(content, v.push(c), n) == any_hits(content, v, n),
    decreases n,
{
    if n > 0 {
        lemma_any_prefix(content, v, c, (n - 1) as nat);
        assert(v.push(c)[n - 1] == v[n - 1]);
    }
}

/// Every match of an alternative is shown.
pub proof fn alternatives_show_every_match(
    content: Seq<char>,
    v: Seq<CheckModel>,
    i: int,
    h: Hit,
)
    requires
        0 <= i < v.len(),
        check_hits(content, v[i]).contains(h),
    ensures
        check_hits(content, CheckModel::Or(v)).contains(h),
{
    lemma_any_shows(content, v, v.len(), i, h);
}

proof fn lemma_any_shows(content: Seq<char>, v: Seq<CheckModel>, n: nat, i: int, h: Hit)
    requires
        0 <= i < n <= v.len(),
        check_hits(content, v[i]).contains(h),
    ensures
        any_hits(content, v, n).contains(h),
    decreases n,
{
    let front = any_hits(content, v, (n - 1) as nat);
    let more = check_hits(content, v[n - 1]);
    if i < n - 1 {
        lemma_any_shows(content, v, (n - 1) as nat, i, h);
        let k = choose|k: int| 0 <= k < front.len() && front[k] == h;
        assert((front + more)[k] == h);
    } else {
        let k = choose|k: int| 0 <= k < more.len() && more[k] == h;
        assert((front + more)[front.len() + k] == h);
    }
}

/// Every match that alternatives show is one of an alternative.
pub proof fn alternatives_show_nothing_else(content: Seq<char>, v: Seq<CheckModel>, h: Hit) -> (i:
    int)
    requires
        check_hits(content, CheckModel::Or(v)).contains(h),
    ensures
        0 <= i < v.len(),
        check_hits(content, v[i]).contains(h),
{
    lemma_any_source(content, v, v.len(), h)
}

proof fn lemma_any_source(content: Seq<char>, v: Seq<CheckModel>, n: nat, h: Hit) -> (i: int)
    requires
        n <= v.len(),
        any_hits(content, v, n).contains(h),
    ensures
        0 <= i < n,
        check_hits(content, v[i]).contains(h),
    decreases n,
{
    let all = any_hits(content, v, n);
    let k = choose|k: int| 0 <= k < all.len() && all[k] == h;
    let front = any_hits(content, v, (n - 1) as nat);
    if k < front.len() {
        assert(front[k] == h);
        lemma_any_source(content, v, (n - 1) as nat, h)
    } else {
        assert(check_hits(content, v[n - 1])[k - front.len()] == h);
        n - 1
    }
}

/// A further term of a conjunction that has matches adds its own behind them;
/// where either has none, there are none.
pub proof fn terms_add_their_matches(content: Seq<char>, v: Seq<CheckModel>, c: CheckModel)
    requires
        v.len() > 0,
    ensures
        check_hits(content, CheckModel::And(seq![c])) == check_hits(content, c),
        ({
            let before = check_hits(content, CheckModel::And(v));
            let more = check_hits(content, c);
            check_hits(content, CheckModel::And(v.push(c))) == if before.len() == 0 || more.len()
                == 0 {
                Seq::<Hit>::empty()
            } else {
                before + more
            }
        }),
{
    let w = v.push(c);
    lemma_all_prefix(content, v, c, v.len());
    assert(w[v.len() as int] == c);
    assert(check_hits(content, CheckModel::And(w)) == all_hits(content, w, w.len()));
    assert(w.len() - 1 == v.len());
    assert(seq![c][0] == c);
    assert(all_hits(content, seq![c], 1) == check_hits(content, c));
}

proof fn lemma_all_prefix(content: Seq<char>, v: Seq<CheckModel>, c: CheckModel, n: nat)
    requires
        n <= v.len(),
    ensures
        all_hits(content, v.push(c), n) == all_hits(content, v, n),
    decreases n,
{
    if n > 0 {
        lemma_all_prefix(content, v, c, (n - 1) as nat);
        assert(v.push(c)[n - 1] == v[n - 1]);
        assert(v.push(c)[0] == v[0]);
    }
}

/// Every match of every term is shown where all terms have some.
pub proof fn terms_show_every_match(content: Seq<char>, v: Seq<CheckModel>, i: int, h: Hit)
    requires
        forall|k: int| 0 <= k < v.len() ==> check_hits(content, #[trigger] v[k]).len() > 0,
        0 <= i < v.len(),
        check_hits(content, v[i]).contains(h),
    ensures
        check_hits(content, CheckModel::And(v)).contains(h),
{
    lemma_all_shows(content, v, v.len(), i, h);
}

proof fn lemma_all_shows(content: Seq<char>, v: Seq<CheckModel>, n: nat, i: int, h: Hit)
    requires
        forall|k: int| 0 <= k < v.len() ==> check_hits(content, #[trigger] v[k]).len() > 0,
        0 <= i < n <= v.len(),
        check_hits(content, v[i]).contains(h),
    ensures
        all_hits(content, v, n).contains(h),
    decreases n,
{
    if n > 1 {
        let front = all_hits(content, v, (n - 1) as nat);
        let more = check_hits(content, v[n - 1]);
        lemma_all_hits(content, v, (n - 1) as nat);
        if i < n - 1 {
            lemma_all_shows(content, v, (n - 1) as nat, i, h);
            let k = choose|k: int| 0 <= k < front.len() && front[k] == h;
            assert((front + more)[k] == h);
        } else {
            let k = choose|k: int| 0 <= k < more.len() && more[k] == h;
            assert((front + more)[front.len() + k] == h);
        }
    }
}

/// Every match that terms together show is one of a term.
pub proof fn terms_show_nothing_else(content: Seq<char>, v: Seq<CheckModel>, h: Hit) -> (i: int)
    requires
        check_hits(content, CheckModel::And(v)).contains(h),
    ensures
        0 <= i < v.len(),
        check_hits(content, v[i]).contains(h),
{
    lemma_all_source(content, v, v.len(), h)
}

proof fn lemma_all_source(content: Seq<char>, v: Seq<CheckModel>, n: nat, h: Hit) -> (i: int)
    requires
        n <= v.len(),
        all_hits(content, v, n).contains(h),
    ensures
        0 <= i < n,
        check_hits(content, v[i]).contains(h),
    decreases n,
{
    let all = all_hits(content, v, n);
    let k = choose|k: int| 0 <= k < all.len() && all[k] == h;
    if n == 1 {
        0
    } else {
        let front = all_hits(content, v, (n - 1) as nat);
        if k < front.len() {
            assert(front[k] == h);
            lemma_all_source(content, v, (n - 1) as nat, h)
        } else {
            assert(check_hits(content, v[n - 1])[k - front.len()] == h);
            n - 1
        }
    }
}

/// What is excluded shows the start of the first line, once, where it has no
/// match itself, and nothing where it has one.
pub proof fn exclusion_shows_the_first_line(content: Seq<char>, c: CheckModel)
    ensures
        ({
            let r = check_hits(content, CheckModel::Not(Box::new(c)));
            if check_hits(content, c).len() > 0 {
                r.len() == 0
            } else {
                r.len() == 1 && r[0].0 == 1 && r[0].2 == 0 && r[0].3 == 0 && r[0].1 == if lines(
                    content,
                ).len() > 0 {
                    lines(content)[0]
                } else {
                    Seq::empty()
                }
            }
        }),
{
}

/// Each line with a spot has a match, numbered from one on, and there are no
/// others; they come in order of lines.
proof fn lemma_each_line(v: Seq<Seq<char>>, spot: spec_fn(Seq<char>) -> Spot)
    requires
        v.len() <= u32::MAX,
    ensures
        forall|k: int|
            0 <= k < v.len() && spot(#[trigger] v[k]) is Some ==> shows_line(hits(v, spot), k + 1),
        forall|i: int|
            0 <= i < hits(v, spot).len() ==> {
                let h = #[trigger] hits(v, spot)[i];
                1 <= h.0 <= v.len() && h.1 == v[h.0 - 1] && spot(h.1) == Some((h.2, h.3))
            },
        in_line_order(hits(v, spot)),
    decreases v.len(),
{
    if v.len() > 0 {
        let front = v.drop_last();
        let before = hits(front, spot);
        let all = hits(v, spot);
        lemma_each_line(front, spot);
        assert forall|i: int| 0 <= i < all.len() implies {
            let h = #[trigger] all[i];
            1 <= h.0 <= v.len() && h.1 == v[h.0 - 1] && spot(h.1) == Some((h.2, h.3))
        } by {
            if i < before.len() {
                assert(all[i] == before[i]);
                assert(front[before[i].0 - 1] == v[before[i].0 - 1]);
            }
        }
        assert forall|k: int| 0 <= k < v.len() && spot(#[trigger] v[k]) is Some implies shows_line(
            all,
            k + 1,
        ) by {
            if k < v.len() - 1 {
                assert(front[k] == v[k]);
                let i = choose|i: int| 0 <= i < before.len() && (#[trigger] before[i]).0 == k + 1;
                assert(all[i] == before[i]);
            } else {
                assert(all[all.len() - 1].0 == k + 1);
            }
        }
        assert forall|i: int, j: int| 0 <= i < j < all.len() implies (#[trigger] all[i]).0 < (
        #[trigger] all[j]).0 by {
            assert(all[i] == before[i]);
            if j < before.len() {
                assert(all[j] == before[j]);
            }
        }
    }
}

/// Whether a line, by its number, is among matches.
pub open spec fn shows_line(r: Seq<Hit>, n: int) -> bool {
    exists|i: int| 0 <= i < r.len() && (#[trigger] r[i]).0 == n
}

/// Whether matches come in order of their lines, no two on one line.
pub open spec fn in_line_order(r: Seq<Hit>) -> bool {
    forall|i: int, j: int| 0 <= i < j < r.len() ==> (#[trigger] r[i]).0 < (#[trigger] r[j]).0
}

/// Whether a match is at the first place of a row of bytes in another, and so
/// many bytes long.
pub open spec fn at_first_place(h: Hit, line: Seq<u8>, n: Seq<u8>, width: nat) -> bool {
    &&& occurs_at(line, n, h.2 as int)
    &&& forall|q: int| 0 <= q < h.2 ==> !#[trigger] occurs_at(line, n, q)
    &&& h.2 + width <= usize::MAX ==> h.3 == h.2 + width
}

proof fn lemma_at_first_place(h: Hit, line: Seq<u8>, n: Seq<u8>, width: nat)
    requires
        first_at(line, n) == Some(h.2),
        h.3 == size_sum(h.2, width),
    ensures
        at_first_place(h, line, n, width),
{
    first_place_is_first(line, n, 0);
}

/// A phrase is shown on every line on which it stands as it is written, once on
/// each, where it stands there first, and on no other line; the lines come in
/// their order.
pub proof fn phrase_is_shown_on_its_lines(content: Seq<char>, text: Seq<char>)
    requires
        lines(content).len() <= u32::MAX,
    ensures
        ({
            let v = lines(content);
            let n = encode_utf8(text);
            let r = check_hits(content, CheckModel::Phrase { text, case_insensitive: false });
            &&& forall|k: int, p: int|
                0 <= k < v.len() && #[trigger] occurs_at(encode_utf8(v[k]), n, p) ==> shows_line(
                    r,
                    k + 1,
                )
            &&& forall|i: int|
                0 <= i < r.len() ==> 1 <= (#[trigger] r[i]).0 <= v.len() && r[i].1 == v[r[i].0 - 1]
                    && at_first_place(r[i], encode_utf8(r[i].1), n, n.len())
            &&& in_line_order(r)
        }),
{
    let v = lines(content);
    let n = encode_utf8(text);
    let spot = exact_spot(text);
    let r = hits(v, spot);
    lemma_each_line(v, spot);
    lemma_byte_len_encoding(text);
    assert forall|k: int, p: int|
        0 <= k < v.len() && #[trigger] occurs_at(encode_utf8(v[k]), n, p) implies shows_line(
        r,
        k + 1,
    ) by {
        first_place_is_first(encode_utf8(v[k]), n, 0);
        assert(spot(v[k]) is Some);
    }
    assert forall|i: int| 0 <= i < r.len() implies 1 <= (#[trigger] r[i]).0 <= v.len() && r[i].1
        == v[r[i].0 - 1] && at_first_place(r[i], encode_utf8(r[i].1), n, n.len()) by {
        assert(spot(r[i].1) == Some((r[i].2, r[i].3)));
        lemma_at_first_place(r[i], encode_utf8(r[i].1), n, n.len());
    }
}

/// The pieces between line feeds are the lines, but that a carriage return at the
/// very end is left out, and that an empty piece stands behind the last line feed.
proof fn lemma_lines_are_segments(s: Seq<char>)
    ensures
        lines(s).len() <= plain_segments(s).len() <= lines(s).len() + 1,
        forall|k: int|
            0 <= k < lines(s).len() ==> #[trigger] plain_segments(s)[k] == lines(s)[k] || (k + 1
                == lines(s).len() && plain_segments(s)[k] == strip_return(lines(s)[k])),
        plain_segments(s).len() > lines(s).len() ==> plain_segments(s)[lines(s).len() as int].len()
            == 0,
    decreases s.len(),
{
    let p = |c: char| c != '\n';
    let n = span(s, p) as int;
    lemma_span(s, p);
    if n < s.len() {
        let rest = s.skip(n + 1);
        lemma_lines_are_segments(rest);
        assert(plain_segments(s) =~= seq![strip_return(s.take(n))] + plain_segments(rest));
        assert(lines(s) == seq![strip_return(s.take(n))] + lines(rest));
        assert forall|k: int| 0 <= k < lines(s).len() implies #[trigger] plain_segments(s)[k]
            == lines(s)[k] || (k + 1 == lines(s).len() && plain_segments(s)[k] == strip_return(
            lines(s)[k],
        )) by {
            if k > 0 {
                assert(plain_segments(s)[k] == plain_segments(rest)[k - 1]);
                assert(lines(s)[k] == lines(rest)[k - 1]);
            }
        }
    } else {
        assert(plain_segments(s) =~= seq![strip_return(s)]);
    }
}

/// A bare term, or a phrase for which case is ignored, is shown on every line in
/// whose lower case its own lower case stands, once on each, where it stands
/// there first, and on no other line; the lines come in their order. A carriage
/// return at the very end of the text may be left out.
pub proof fn term_is_shown_on_its_lines(content: Seq<char>, text: Seq<char>)
    requires
        content.len() < u32::MAX,
        text.len() > 0,
    ensures
        ({
            let v = lines(content);
            let n = encode_utf8(lower_case(text));
            let r = check_hits(content, CheckModel::Literal(text));
            &&& check_hits(content, CheckModel::Phrase { text, case_insensitive: true }) == r
            &&& forall|k: int, p: int|
                0 <= k < v.len() && #[trigger] occurs_at(encode_utf8(lower_case(v[k])), n, p)
                    ==> shows_line(r, k + 1)
            &&& forall|i: int|
                0 <= i < r.len() ==> 1 <= (#[trigger] r[i]).0 <= v.len() && (r[i].1 == v[r[i].0 - 1]
                    || r[i].0 == v.len() && r[i].1 == strip_return(v[r[i].0 - 1]))
                    && at_first_place(r[i], encode_utf8(lower_case(r[i].1)), n, byte_len(text))
            &&& in_line_order(r)
        }),
{
    let v = lines(content);
    let n = encode_utf8(lower_case(text));
    let r = check_hits(content, CheckModel::Literal(text));
    lemma_line_count(content);
    lemma_lines_are_segments(content);
    if ascii_search(content, text) {
        let w = plain_segments(content);
        let spot = ascii_spot(text);
        lemma_each_line(w, spot);
        assert(r == hits(w, spot));
        lemma_lowered_is_ascii(text);
        vstd::utf8::is_ascii_chars_encode_utf8(lower_case(text));
        assert forall|k: int, p: int|
            0 <= k < v.len() && #[trigger] occurs_at(
                encode_utf8(lower_case(v[k])),
                n,
                p,
            ) implies shows_line(r, k + 1) by {
            lemma_line_piece(content, k);
            lemma_piece_lowered(content, v[k]);
            assert(occurs_at(encode_utf8(lowered(v[k])), n, p));
            lemma_stands(lowered(v[k]), lower_case(text));
            lemma_strip(lowered(v[k]), lower_case(text));
            lemma_lowered_strip(v[k]);
            assert(w[k] == v[k] || w[k] == strip_return(v[k]));
            assert(stands_in(lowered(w[k]), lower_case(text)));
            assert(spot(w[k]) is Some);
        }
        assert forall|i: int| 0 <= i < r.len() implies 1 <= (#[trigger] r[i]).0 <= v.len() && (
        r[i].1 == v[r[i].0 - 1] || r[i].0 == v.len() && r[i].1 == strip_return(v[r[i].0 - 1]))
            && at_first_place(r[i], encode_utf8(lower_case(r[i].1)), n, byte_len(text)) by {
            let k = r[i].0 - 1;
            assert(w[k] == r[i].1);
            assert(spot(w[k]) == Some((r[i].2, r[i].3)));
            lemma_segment_is_ascii(content, k);
            lemma_at_first_place(r[i], encode_utf8(lower_case(w[k])), n, byte_len(text));
            if k >= v.len() {
                assert(w[k].len() == 0);
                assert(lowered(w[k]) =~= Seq::<char>::empty());
                assert(encode_utf8(lower_case(w[k])).len() == 0);
                assert(false);
            }
        }
    } else {
        let spot = lower_spot(text);
        lemma_each_line(v, spot);
        assert forall|k: int, p: int|
            0 <= k < v.len() && #[trigger] occurs_at(
                encode_utf8(lower_case(v[k])),
                n,
                p,
            ) implies shows_line(r, k + 1) by {
            first_place_is_first(encode_utf8(lower_case(v[k])), n, 0);
            assert(occurs_at(encode_utf8(lower_case(v[k])), n, p));
            assert(spot(v[k]) is Some);
        }
        assert forall|i: int| 0 <= i < r.len() implies 1 <= (#[trigger] r[i]).0 <= v.len()
            && r[i].1 == v[r[i].0 - 1] && at_first_place(
            r[i],
            encode_utf8(lower_case(r[i].1)),
            n,
            byte_len(text),
        ) by {
            assert(spot(r[i].1) == Some((r[i].2, r[i].3)));
            lemma_at_first_place(r[i], encode_utf8(lower_case(r[i].1)), n, byte_len(text));
        }
    }
}

/// The pieces of an ASCII text are ASCII.
proof fn lemma_segment_is_ascii(s: Seq<char>, k: int)
    requires
        is_ascii_chars(s),
        0 <= k < plain_segments(s).len(),
    ensures
        is_ascii_chars(plain_segments(s)[k]),
{
    lemma_segment_piece(s, k);
    lemma_piece_lowered(s, segments(s)[k]);
    lemma_strip_piece(segments(s)[k]);
    lemma_piece_lowered(segments(s)[k], plain_segments(s)[k]);
}

/// A boost changes nothing about the matches.
pub proof fn boosts_leave_matches_alone(
    content: Seq<char>,
    text: Seq<char>,
    case_insensitive: bool,
    boost: Seq<char>,
)
    ensures
        check_hits(content, (CheckModel::BoostedLiteral { text, boost })) == check_hits(
            content,
            CheckModel::Literal(text),
        ),
        check_hits(content, (CheckModel::BoostedPhrase { text, case_insensitive, boost }))
            == check_hits(content, (CheckModel::Phrase { text, case_insensitive })),
{
}

/// A regular expression is shown on every line on which `regex::Regex::find`
/// finds a match, with that match, and on no other line; the lines come in their
/// order.
pub proof fn pattern_is_shown_on_its_lines(content: Seq<char>, pattern: Seq<char>)
    requires
        lines(content).len() <= u32::MAX,
        spelled_text(pattern) is None,
    ensures
        ({
            let v = lines(content);
            let r = check_hits(content, CheckModel::Regex(pattern));
            &&& !regex_compiles(pattern) ==> r.len() == 0
            &&& regex_compiles(pattern) ==> forall|k: int|
                0 <= k < v.len() && regex_find(pattern, #[trigger] v[k]) is Some ==> shows_line(
                    r,
                    k + 1,
                )
            &&& forall|i: int|
                0 <= i < r.len() ==> 1 <= (#[trigger] r[i]).0 <= v.len() && r[i].1 == v[r[i].0 - 1]
                    && regex_find(pattern, r[i].1) == Some((r[i].2, r[i].3))
            &&& in_line_order(r)
        }),
{
    let v = lines(content);
    let spot = |line: Seq<char>| pattern_spot(pattern, line);
    let r = check_hits(content, CheckModel::Regex(pattern));
    lemma_each_line(v, spot);
    if regex_compiles(pattern) {
        assert(r == hits(v, spot));
        assert forall|k: int|
            0 <= k < v.len() && regex_find(pattern, #[trigger] v[k]) is Some implies shows_line(
            r,
            k + 1,
        ) by {
            assert(spot(v[k]) is Some);
        }
        assert forall|i: int| 0 <= i < r.len() implies 1 <= (#[trigger] r[i]).0 <= v.len()
            && r[i].1 == v[r[i].0 - 1] && regex_find(pattern, r[i].1) == Some(
            (r[i].2, r[i].3),
        ) by {
            assert(spot(r[i].1) == Some((r[i].2, r[i].3)));
        }
    }
}

/// A proximity search shows each line on which the first term stands, such that
/// every other term stands on some line and no two of these lines lie further
/// apart than the distance. The lines are those of the text in lower case.
pub proof fn near_terms_are_shown(
    content: Seq<char>,
    terms: Seq<Seq<char>>,
    distance: u32,
    js: Seq<int>,
)
    requires
        segments(lower_case(content)).len() <= u32::MAX,
        terms.len() > 0,
        forall|k: int| 0 <= k < terms.len() ==> !has_break(lower_case(#[trigger] terms[k])),
        js.len() == terms.len(),
        forall|k: int|
            0 <= k < js.len() ==> 0 <= #[trigger] js[k] < segments(lower_case(content)).len()
                && stands_in(segments(lower_case(content))[js[k]], lower_case(terms[k])),
        forall|k: int, l: int|
            0 <= k < js.len() && 0 <= l < js.len() ==> #[trigger] js[k] - #[trigger] js[l]
                <= distance,
        js[0] < lines(content).len(),
    ensures
        shows_line(check_hits(content, CheckModel::Near { terms, distance }), js[0] + 1),
{
    let low = lower_terms(terms);
    let v = segments(lower_case(content));
    assert(are_close(v, low, js[0], distance as int, js)) by {
        assert forall|k: int| 0 <= k < js.len() implies 0 <= #[trigger] js[k] < v.len()
            && stands_in(v[js[k]], low[k]) by {
            assert(low[k] == lower_case(terms[k]));
        }
    }
    assert(terms_close(v, low, js[0], distance as int));
    assert forall|k: int| 0 <= k < low.len() implies !has_break(#[trigger] low[k]) by {
        assert(low[k] == lower_case(terms[k]));
    }
    lemma_near_shows(
        v,
        lines(content),
        low,
        distance as int,
        byte_len(terms[0]),
        v.len(),
        js[0],
    );
}

proof fn lemma_near_shows(
    v: Seq<Seq<char>>,
    plain: Seq<Seq<char>>,
    terms: Seq<Seq<char>>,
    distance: int,
    width: nat,
    n: nat,
    i: int,
)
    requires
        0 <= i < n <= v.len() <= u32::MAX,
        i < plain.len(),
        terms_close(v, terms, i, distance),
    ensures
        shows_line(near_hits(v, plain, terms, distance, width, n), i + 1),
    decreases n,
{
    let all = near_hits(v, plain, terms, distance, width, n);
    if i == n - 1 {
        assert(all[all.len() - 1].0 == i + 1);
    } else {
        lemma_near_shows(v, plain, terms, distance, width, (n - 1) as nat, i);
        let before = near_hits(v, plain, terms, distance, width, (n - 1) as nat);
        let k = choose|k: int| 0 <= k < before.len() && (#[trigger] before[k]).0 == i + 1;
        assert(all[k] == before[k]);
    }
}

/// Every match of a proximity search is on a line with the first term, at its
/// first place there, and the other terms stand close by: lines `js` for the
/// terms lie within the distance of each other. The lines come in their order.
pub proof fn shown_terms_are_near(
    content: Seq<char>,
    terms: Seq<Seq<char>>,
    distance: u32,
    i: int,
) -> (js: Seq<int>)
    requires
        segments(lower_case(content)).len() <= u32::MAX,
        0 <= i < check_hits(content, CheckModel::Near { terms, distance }).len(),
    ensures
        ({
            let v = segments(lower_case(content));
            let r = check_hits(content, CheckModel::Near { terms, distance });
            &&& js.len() == terms.len() > 0
            &&& forall|k: int|
                0 <= k < js.len() ==> 0 <= #[trigger] js[k] < v.len() && stands_in(
                    v[js[k]],
                    lower_case(terms[k]),
                )
            &&& forall|k: int, l: int|
                0 <= k < js.len() && 0 <= l < js.len() ==> #[trigger] js[k] - #[trigger] js[l]
                    <= distance
            &&& r[i].0 == js[0] + 1
            &&& js[0] < lines(content).len()
            &&& r[i].1 == lines(content)[js[0]]
            &&& at_first_place(
                r[i],
                encode_utf8(v[js[0]]),
                encode_utf8(lower_case(terms[0])),
                byte_len(terms[0]),
            )
            &&& in_line_order(r)
        }),
{
    let low = lower_terms(terms);
    let v = segments(lower_case(content));
    let r = check_hits(content, CheckModel::Near { terms, distance });
    lemma_near_source(v, lines(content), low, distance as int, byte_len(terms[0]), v.len());
    let m = r[i].0 - 1;
    assert(terms_close(v, low, m, distance as int));
    let js = choose|js: Seq<int>| #[trigger] are_close(v, low, m, distance as int, js);
    assert forall|k: int| 0 <= k < js.len() implies 0 <= #[trigger] js[k] < v.len() && stands_in(
        v[js[k]],
        lower_case(terms[k]),
    ) by {
        assert(low[k] == lower_case(terms[k]));
    }
    assert(low[0] == lower_case(terms[0]));
    lemma_at_first_place(r[i], encode_utf8(v[m]), encode_utf8(low[0]), byte_len(terms[0]));
    js
}

proof fn lemma_near_source(
    v: Seq<Seq<char>>,
    plain: Seq<Seq<char>>,
    terms: Seq<Seq<char>>,
    distance: int,
    width: nat,
    n: nat,
)
    requires
        n <= v.len() <= u32::MAX,
        terms.len() > 0,
    ensures
        ({
            let r = near_hits(v, plain, terms, distance, width, n);
            &&& forall|i: int|
                0 <= i < r.len() ==> {
                    let h = #[trigger] r[i];
                    &&& 1 <= h.0 <= n
                    &&& h.0 <= plain.len()
                    &&& h.1 == plain[h.0 - 1]
                    &&& terms_close(v, terms, h.0 - 1, distance)
                    &&& first_at(encode_utf8(v[h.0 - 1]), encode_utf8(terms[0])) == Some(h.2)
                    &&& h.3 == size_sum(h.2, width)
                }
            &&& in_line_order(r)
        }),
    decreases n,
{
    if n > 0 {
        lemma_near_source(v, plain, terms, distance, width, (n - 1) as nat);
        let before = near_hits(v, plain, terms, distance, width, (n - 1) as nat);
        let r = near_hits(v, plain, terms, distance, width, n);
        if terms_close(v, terms, n - 1, distance) {
            let js = choose|js: Seq<int>| #[trigger] are_close(v, terms, n - 1, distance, js);
            assert(js[0] == n - 1);
            assert(stands_in(v[js[0]], terms[0]));
        }
        assert forall|i: int| 0 <= i < r.len() implies {
            let h = #[trigger] r[i];
            &&& 1 <= h.0 <= n
            &&& h.0 <= plain.len()
            &&& h.1 == plain[h.0 - 1]
            &&& terms_close(v, terms, h.0 - 1, distance)
            &&& first_at(encode_utf8(v[h.0 - 1]), encode_utf8(terms[0])) == Some(h.2)
            &&& h.3 == size_sum(h.2, width)
        } by {
            if i < before.len() {
                assert(r[i] == before[i]);
            }
        }
        assert forall|i: int, j: int| 0 <= i < j < r.len() implies (#[trigger] r[i]).0 < (
        #[trigger] r[j]).0 by {
            assert(r[i] == before[i]);
            if j < before.len() {
                assert(r[j] == before[j]);
            }
        }
    }
}

/// Lines, each with an ending behind it.
pub open spec fn with_endings(v: Seq<Seq<char>>, ending: Seq<char>) -> Seq<char>
    decreases v.len(),
{
    if v.len() == 0 {
        Seq::empty()
    } else {
        v[0] + ending + with_endings(v.drop_first(), ending)
    }
}

/// Whether a text can be a line: it has no line feed and does not end in a
/// carriage return.
pub open spec fn is_line(t: Seq<char>) -> bool {
    !t.contains('\n') && (t.len() > 0 ==> t.last() != '\r')
}

proof fn lemma_first_line(t: Seq<char>, ending: Seq<char>, rest: Seq<char>)
    requires
        is_line(t),
        ending == seq!['\n'] || ending == seq!['\r', '\n'],
    ensures
        lines(t + ending + rest) == seq![t] + lines(rest),
{
    let s = t + ending + rest;
    let p = |c: char| c != '\n';
    let n = t.len() + ending.len() - 1;
    assert forall|i: int| 0 <= i < n implies p(#[trigger] s[i]) by {
        if i < t.len() {
            assert(s[i] == t[i]);
            assert(t.contains(t[i]));
        } else {
            assert(s[i] == ending[i - t.len()]);
        }
    }
    assert(s[n] == ending[ending.len() - 1]);
    lemma_span_is(s, p, n);
    let head = s.take(n);
    assert(strip_return(head) =~= t) by {
        if ending.len() == 1 {
            assert(head =~= t);
        } else {
            assert(head =~= t.push('\r'));
        }
    }
    assert(s.skip(n + 1) =~= rest);
}

/// A text is made up of its lines: texts that can be lines, each with a line feed
/// behind it, or a carriage return and a line feed, are read back as those
/// lines; the last may lack its ending.
pub proof fn lines_are_read_back(v: Seq<Seq<char>>, ending: Seq<char>, last: Seq<char>)
    requires
        forall|i: int| 0 <= i < v.len() ==> is_line(#[trigger] v[i]),
        ending == seq!['\n'] || ending == seq!['\r', '\n'],
        last.len() > 0,
        !last.contains('\n'),
    ensures
        lines(with_endings(v, ending)) == v,
        lines(with_endings(v, ending) + last) == v.push(last),
    decreases v.len(),
{
    if v.len() == 0 {
        let p = |c: char| c != '\n';
        assert forall|i: int| 0 <= i < last.len() implies p(#[trigger] last[i]) by {
            assert(last.contains(last[i]));
        }
        lemma_span_is(last, p, last.len() as int);
        assert(with_endings(v, ending) + last =~= last);
        assert(v.push(last) =~= seq![last]);
        assert(lines(with_endings(v, ending)) =~= v);
    } else {
        let rest = v.drop_first();
        assert forall|i: int| 0 <= i < rest.len() implies is_line(#[trigger] rest[i]) by {
            assert(is_line(v[i + 1]));
        }
        assert(is_line(v[0]));
        lines_are_read_back(rest, ending, last);
        let t = with_endings(rest, ending);
        lemma_first_line(v[0], ending, t);
        lemma_first_line(v[0], ending, t + last);
        assert(with_endings(v, ending) + last =~= v[0] + ending + (t + last));
        assert(seq![v[0]] + rest =~= v);
        assert(seq![v[0]] + rest.push(last) =~= v.push(last));
    }
}

} // verus!
