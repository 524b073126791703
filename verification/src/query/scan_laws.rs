//! The index is a shortcut: a search gives what checking the text of every
//! document would give.
use crate::query::ast::{no_filters, NodeModel, QueryModel};
use crate::query::bitmap::ascending;
use crate::query::content::{
    are_close, ascii_search, ascii_spot, check_hits, check_present, exact_spot, hits,
    lemma_all_hits, lemma_any_hits, literal_hits, lower_spot, lower_terms, near_hits, pattern_spot,
    plain_segments, proximity_hits, regex_compiles, regex_find, regex_hits, stands_in, terms_close,
    Hit,
};
use crate::query::filter::passes;
use crate::query::index::Index;
use crate::query::index_laws::{
    asks_grams, complete_index_loses_nothing, is_complete, narrowing_asks_grams, plans_ask_grams,
    steps_ask_grams,
};
use crate::query::laws::lemma_escaped_spells;
use crate::query::line_laws::{
    lemma_encode_sum, lemma_hits, lemma_stands, occurs, term_is_listed_where_it_stands,
};
use crate::query::lines::{lines, occurs_at, segments, strip_return};
use crate::query::plan::{CheckModel, PlanModel, StepModel, Trigram};
use crate::query::planner::{
    all_fit, cased_pattern, filter_step, literal_pattern, near_steps, node_fits, plan_of, planned,
    planned_all, planned_any, terms_fit, with_check,
};
use crate::query::regex_laws::{accepts, admits, admits_first, narrowing_keeps_matches};
use crate::query::regex_plan::{narrowing, pattern_fits, pattern_steps};
use crate::query::search::{ascending_list, kept_lines, line_bounds, FileHits};
use crate::query::shape::pattern_shape;
use crate::query::validate::spelled_text;
use crate::text::{lemma_span, lowered, span};
use vstd::prelude::*;
use vstd::utf8::{
    encode_scalar, encode_utf8, is_ascii_chars, leading_byte_width_2, leading_byte_width_3,
    leading_byte_width_4,
};

verus! {

/// Whether a text is a piece of another.
pub open spec fn is_piece(s: Seq<char>, t: Seq<char>) -> bool {
    exists|a: int, b: int| 0 <= a <= b <= s.len() && t == #[trigger] s.subrange(a, b)
}

proof fn lemma_piece_of_piece(s: Seq<char>, t: Seq<char>, u: Seq<char>)
    requires
        is_piece(s, t),
        is_piece(t, u),
    ensures
        is_piece(s, u),
{
    let (a, b) = choose|a: int, b: int| 0 <= a <= b <= s.len() && t == #[trigger] s.subrange(a, b);
    let (c, d) = choose|c: int, d: int| 0 <= c <= d <= t.len() && u == #[trigger] t.subrange(c, d);
    assert(u =~= s.subrange(a + c, a + d));
}

pub(crate) proof fn lemma_strip_piece(s: Seq<char>)
    ensures
        is_piece(s, strip_return(s)),
{
    if s.len() > 0 && s.last() == '\r' {
        assert(strip_return(s) =~= s.subrange(0, s.len() - 1));
    } else {
        assert(s =~= s.subrange(0, s.len() as int));
    }
}

/// The pieces between line feeds are pieces.
pub(crate) proof fn lemma_segment_piece(s: Seq<char>, k: int)
    requires
        0 <= k < segments(s).len(),
    ensures
        is_piece(s, segments(s)[k]),
    decreases s.len(),
{
    let p = |c: char| c != '\n';
    let n = span(s, p) as int;
    lemma_span(s, p);
    if n < s.len() {
        if k == 0 {
            assert(segments(s)[0] =~= s.subrange(0, n));
        } else {
            let rest = s.skip(n + 1);
            lemma_segment_piece(rest, k - 1);
            assert(segments(s)[k] == segments(rest)[k - 1]);
            assert(rest =~= s.subrange(n + 1, s.len() as int));
            lemma_piece_of_piece(s, rest, segments(s)[k]);
        }
    } else {
        assert(segments(s)[0] =~= s.subrange(0, s.len() as int));
    }
}

/// The lines are pieces.
pub(crate) proof fn lemma_line_piece(s: Seq<char>, k: int)
    requires
        0 <= k < lines(s).len(),
    ensures
        is_piece(s, lines(s)[k]),
    decreases s.len(),
{
    let p = |c: char| c != '\n';
    let n = span(s, p) as int;
    lemma_span(s, p);
    if n < s.len() {
        if k == 0 {
            assert(s.take(n) =~= s.subrange(0, n));
            lemma_strip_piece(s.take(n));
            lemma_piece_of_piece(s, s.take(n), strip_return(s.take(n)));
        } else {
            let rest = s.skip(n + 1);
            lemma_line_piece(rest, k - 1);
            assert(lines(s)[k] == lines(rest)[k - 1]);
            assert(rest =~= s.subrange(n + 1, s.len() as int));
            lemma_piece_of_piece(s, rest, lines(s)[k]);
        }
    } else {
        assert(lines(s)[0] =~= s.subrange(0, s.len() as int));
    }
}

/// The bytes of a piece stand among the bytes of the whole.
pub(crate) proof fn lemma_piece_occurs(s: Seq<char>, t: Seq<char>)
    requires
        is_piece(s, t),
    ensures
        occurs(encode_utf8(s), encode_utf8(t)),
{
    let (a, b) = choose|a: int, b: int| 0 <= a <= b <= s.len() && t == #[trigger] s.subrange(a, b);
    let front = s.take(a);
    let back = s.skip(b);
    assert(s =~= front + t + back);
    lemma_encode_sum(front + t, back);
    lemma_encode_sum(front, t);
    let h = encode_utf8(s);
    let p = encode_utf8(front).len() as int;
    assert(h.subrange(p, p + encode_utf8(t).len()) =~= encode_utf8(t));
    assert(occurs_at(h, encode_utf8(t), p));
}

pub(crate) proof fn lemma_occurs_through(a: Seq<u8>, b: Seq<u8>, c: Seq<u8>)
    requires
        occurs(a, b),
        occurs(b, c),
    ensures
        occurs(a, c),
{
    let p = choose|p: int| #[trigger] occurs_at(a, b, p);
    let q = choose|q: int| #[trigger] occurs_at(b, c, q);
    assert(a.subrange(p + q, p + q + c.len()) =~= b.subrange(q, q + c.len()));
    assert(occurs_at(a, c, p + q));
}

/// A piece in lower case is a piece of the whole in lower case.
pub(crate) proof fn lemma_piece_lowered(s: Seq<char>, t: Seq<char>)
    requires
        is_piece(s, t),
    ensures
        is_piece(lowered(s), lowered(t)),
        is_ascii_chars(s) ==> is_ascii_chars(t),
{
    let (a, b) = choose|a: int, b: int| 0 <= a <= b <= s.len() && t == #[trigger] s.subrange(a, b);
    assert(lowered(t) =~= lowered(s).subrange(a, b));
    if is_ascii_chars(s) {
        assert forall|i: int| 0 <= i < t.len() implies '\0' <= #[trigger] t[i] <= '\u{7f}' by {
            assert(t[i] == s[a + i]);
        }
    }
}

pub(crate) proof fn lemma_lowered_is_ascii(s: Seq<char>)
    requires
        is_ascii_chars(s),
    ensures
        is_ascii_chars(lowered(s)),
{
    assert forall|i: int| 0 <= i < lowered(s).len() implies '\0' <= #[trigger] lowered(s)[i]
        <= '\u{7f}' by {
        assert('\0' <= s[i] <= '\u{7f}');
    }
}

/// Where an ASCII text stands in another in lower case, some piece of the other
/// differs from it in case alone.
proof fn lemma_case(s: Seq<char>, needle: Seq<char>) -> (x: Seq<char>)
    requires
        is_ascii_chars(s),
        is_ascii_chars(needle),
        occurs(encode_utf8(lowered(s)), encode_utf8(lowered(needle))),
    ensures
        is_piece(s, x),
        is_ascii_chars(x),
        lowered(x) == lowered(needle),
{
    let low = lowered(s);
    let wanted = lowered(needle);
    lemma_lowered_is_ascii(s);
    lemma_lowered_is_ascii(needle);
    vstd::utf8::is_ascii_chars_encode_utf8(low);
    vstd::utf8::is_ascii_chars_encode_utf8(wanted);
    let h = encode_utf8(low);
    let n = encode_utf8(wanted);
    let p = choose|p: int| #[trigger] occurs_at(h, n, p);
    let x = s.subrange(p, p + needle.len());
    assert(is_piece(s, x));
    lemma_piece_lowered(s, x);
    assert forall|i: int| 0 <= i < needle.len() implies #[trigger] lowered(x)[i] == wanted[i] by {
        assert(h.subrange(p, p + n.len())[i] == n[i]);
        assert(low[p + i] as u8 == h[p + i]);
        assert(wanted[i] as u8 == n[i]);
        assert(lowered(x)[i] == low[p + i]);
        assert('\0' <= low[p + i] <= '\u{7f}');
        assert('\0' <= wanted[i] <= '\u{7f}');
    }
    assert(lowered(x) =~= wanted);
    x
}

/// Whether a step leaves a document in.
pub open spec fn keeps(index: Index, step: StepModel, d: u32) -> bool {
    match step {
        StepModel::TrigramIntersect(v) => index.all_gram_docs(index.usable(v)).contains(d),
        StepModel::Union(plans) => index.found_by_any(plans, plans.len()).contains(d),
        StepModel::Exclude(plan) => match plan.verification {
            Some(check) => !(index.text(d) is Some && check_present(index.text(d)->0, check)),
            None => !index.found(*plan).contains(d),
        },
        StepModel::Filter(f) => d < index.documents@.len() && passes(
            index.documents@[d as int],
            f,
        ),
        _ => false,
    }
}

/// Whether all steps leave a document in.
pub open spec fn all_keep(index: Index, steps: Seq<StepModel>, d: u32) -> bool {
    forall|k: int| 0 <= k < steps.len() ==> keeps(index, #[trigger] steps[k], d)
}

proof fn lemma_narrowed(index: Index, steps: Seq<StepModel>, n: nat, d: u32)
    requires
        n <= steps.len(),
        index.valid_docs().contains(d),
        all_keep(index, steps, d),
    ensures
        index.narrowed(steps, n) is Some ==> index.narrowed(steps, n)->0.contains(d),
    decreases n,
{
    if n > 0 {
        lemma_narrowed(index, steps, (n - 1) as nat, d);
        assert(keeps(index, steps[n - 1], d));
    }
}

proof fn lemma_not_excluded(index: Index, steps: Seq<StepModel>, n: nat, s: Set<u32>, d: u32)
    requires
        n <= steps.len(),
        s.contains(d),
        all_keep(index, steps, d),
    ensures
        index.excluded(steps, n, s).contains(d),
    decreases n,
{
    if n > 0 {
        lemma_not_excluded(index, steps, (n - 1) as nat, s, d);
        assert(keeps(index, steps[n - 1], d));
    }
}

/// A plan finds a valid document that all its steps leave in.
pub(crate) proof fn lemma_found(index: Index, plan: PlanModel, d: u32)
    requires
        index.valid_docs().contains(d),
        all_keep(index, plan.steps, d),
    ensures
        index.found(plan).contains(d),
{
    let n = plan.steps.len();
    lemma_narrowed(index, plan.steps, n, d);
    if index.narrowed(plan.steps, n) is Some {
        lemma_not_excluded(index, plan.steps, n, index.narrowed(plan.steps, n)->0, d);
    }
}

/// Where a pattern's tree accepts bytes of a document, the steps of the pattern
/// leave the document in.
pub(crate) proof fn lemma_pattern_keeps(index: Index, pattern: Seq<char>, d: u32, piece: Seq<u8>)
    requires
        is_complete(index),
        index.valid_docs().contains(d),
        index.text(d) is Some,
        occurs(encode_utf8(index.text(d)->0), piece),
        pattern_shape(pattern) is Some ==> accepts(pattern_shape(pattern)->0, piece),
    ensures
        all_keep(index, pattern_steps(pattern), d),
{
    if pattern_shape(pattern) is Some {
        let s = pattern_shape(pattern)->0;
        let text = encode_utf8(index.text(d)->0);
        let steps = pattern_steps(pattern);
        let p = choose|p: int| #[trigger] occurs_at(text, piece, p);
        narrowing_keeps_matches(s, text, p, p + piece.len());
        narrowing_asks_grams(s);
        assert forall|k: int| 0 <= k < steps.len() implies keeps(index, #[trigger] steps[k], d) by {
            lemma_one_of_steps(steps, steps.len(), k, text);
            let one = PlanModel { steps: seq![steps[k]], verification: None };
            assert(one.steps[0] == steps[k]);
            assert(steps_ask_grams(one.steps, 0));
            assert(steps_ask_grams(one.steps, 1));
            assert(admits_first(one.steps, 0, text));
            assert(admits_first(one.steps, 1, text));
            complete_index_loses_nothing(index, one, d);
            assert(index.narrowed(one.steps, 0) is None);
            match steps[k] {
                StepModel::TrigramIntersect(v) => {
                    assert(index.narrowed(one.steps, 1) == if index.usable(v).len() == 0 {
                        None
                    } else {
                        Some(index.all_gram_docs(index.usable(v)))
                    });
                },
                StepModel::Union(plans) => {
                    assert(index.narrowed(one.steps, 1) == Some(
                        index.found_by_any(plans, plans.len()),
                    ));
                },
                _ => {},
            }
            if index.narrowed(one.steps, 1) is Some {
                let set = index.narrowed(one.steps, 1)->0;
                assert(index.excluded(one.steps, 0, set) == set);
                assert(index.excluded(one.steps, 1, set) == set);
            }
        }
    }
}

proof fn lemma_one_of_steps(steps: Seq<StepModel>, n: nat, k: int, text: Seq<u8>)
    requires
        0 <= k < n <= steps.len(),
        steps_ask_grams(steps, n),
        admits_first(steps, n, text),
    ensures
        asks_grams(steps[k]),
        admits(steps[k], text),
    decreases n,
{
    if k < n - 1 {
        lemma_one_of_steps(steps, (n - 1) as nat, k, text);
    }
}

/// Where a text stands in a document, the steps of its pattern leave it in.
proof fn lemma_exact_keeps(index: Index, text: Seq<char>, d: u32)
    requires
        is_complete(index),
        index.valid_docs().contains(d),
        index.text(d) is Some,
        pattern_fits(literal_pattern(text, false)),
        literal_hits(index.text(d)->0, text, true).len() > 0,
    ensures
        all_keep(index, pattern_steps(literal_pattern(text, false)), d),
{
    let content = index.text(d)->0;
    let v = lines(content);
    let spot = exact_spot(text);
    lemma_hits(v, spot);
    let k = choose|k: int| 0 <= k < v.len() && spot(#[trigger] v[k]) is Some;
    assert(stands_in(v[k], text));
    lemma_stands(v[k], text);
    lemma_line_piece(content, k);
    lemma_piece_occurs(content, v[k]);
    lemma_occurs_through(encode_utf8(content), encode_utf8(v[k]), encode_utf8(text));
    lemma_escaped_spells(text);
    lemma_pattern_keeps(index, literal_pattern(text, false), d, encode_utf8(text));
}

/// Whether a text stands in another but for the case of ASCII letters.
pub open spec fn in_some_case(text: Seq<char>, t: Seq<char>) -> bool {
    exists|x: Seq<char>| #[trigger] is_piece(text, x) && lowered(x) == lowered(t)
}

/// A text stands in another in some case where it is a piece of it, where it does
/// so in a piece of it, and where the piece and the text are ASCII and it stands
/// in the piece in lower case.
pub proof fn pieces_have_some_case(text: Seq<char>, piece: Seq<char>, t: Seq<char>)
    requires
        is_piece(text, piece),
    ensures
        piece == t ==> in_some_case(text, t),
        in_some_case(piece, t) ==> in_some_case(text, t),
        is_ascii_chars(piece) && is_ascii_chars(t) && stands_in(lowered(piece), lowered(t))
            ==> in_some_case(text, t),
{
    if in_some_case(piece, t) {
        let x = choose|x: Seq<char>| #[trigger] is_piece(piece, x) && lowered(x) == lowered(t);
        lemma_piece_of_piece(text, piece, x);
    }
    if is_ascii_chars(piece) && is_ascii_chars(t) && stands_in(lowered(piece), lowered(t)) {
        lemma_stands(lowered(piece), lowered(t));
        let x = lemma_case(piece, t);
        lemma_piece_of_piece(text, piece, x);
    }
}

/// Where a text stands in a document in some case, the steps of its pattern for
/// any case leave it in.
proof fn lemma_cased_keeps(index: Index, text: Seq<char>, d: u32)
    requires
        is_complete(index),
        index.valid_docs().contains(d),
        index.text(d) is Some,
        pattern_fits(literal_pattern(text, true)),
        in_some_case(index.text(d)->0, text),
    ensures
        all_keep(index, pattern_steps(literal_pattern(text, true)), d),
{
    let content = index.text(d)->0;
    let x = choose|x: Seq<char>| #[trigger] is_piece(content, x) && lowered(x) == lowered(text);
    lemma_piece_occurs(content, x);
    lemma_pattern_keeps(index, literal_pattern(text, true), d, encode_utf8(x));
}

/// Where an ASCII text stands in an ASCII document in lower case, the steps of
/// its pattern for any case leave it in.
proof fn lemma_lower_keeps(index: Index, text: Seq<char>, d: u32)
    requires
        is_complete(index),
        index.valid_docs().contains(d),
        index.text(d) is Some,
        is_ascii_chars(index.text(d)->0),
        is_ascii_chars(text),
        pattern_fits(literal_pattern(text, true)),
        occurs(encode_utf8(lowered(index.text(d)->0)), encode_utf8(lowered(text))),
    ensures
        all_keep(index, pattern_steps(literal_pattern(text, true)), d),
{
    let content = index.text(d)->0;
    let x = lemma_case(content, text);
    assert(is_piece(content, x));
    lemma_cased_keeps(index, text, d);
}

proof fn lemma_any_case_keeps(index: Index, text: Seq<char>, d: u32)
    requires
        is_complete(index),
        index.valid_docs().contains(d),
        index.text(d) is Some,
        pattern_fits(literal_pattern(text, true)),
        literal_hits(index.text(d)->0, text, false).len() > 0,
        sure_of_text(index.text(d)->0, text),
    ensures
        all_keep(index, pattern_steps(literal_pattern(text, true)), d),
{
    let content = index.text(d)->0;
    let low = lowered(content);
    if in_some_case(content, text) {
        lemma_cased_keeps(index, text, d);
    } else if ascii_search(content, text) {
        let v = plain_segments(content);
        let spot = ascii_spot(text);
        lemma_hits(v, spot);
        let k = choose|k: int| 0 <= k < v.len() && spot(#[trigger] v[k]) is Some;
        let whole = segments(content)[k];
        assert(v[k] == strip_return(whole));
        lemma_segment_piece(content, k);
        lemma_strip_piece(whole);
        lemma_piece_of_piece(content, whole, v[k]);
        lemma_piece_lowered(content, v[k]);
        assert(stands_in(lowered(v[k]), lowered(text)));
        lemma_stands(lowered(v[k]), lowered(text));
        lemma_piece_occurs(low, lowered(v[k]));
        lemma_occurs_through(
            encode_utf8(low),
            encode_utf8(lowered(v[k])),
            encode_utf8(lowered(text)),
        );
        lemma_lower_keeps(index, text, d);
    } else {
        let v = lines(content);
        let spot = lower_spot(text);
        lemma_hits(v, spot);
        let k = choose|k: int| 0 <= k < v.len() && spot(#[trigger] v[k]) is Some;
        lemma_line_piece(content, k);
        lemma_piece_lowered(content, v[k]);
        assert(stands_in(lowered(v[k]), lowered(text)));
        lemma_stands(lowered(v[k]), lowered(text));
        lemma_piece_occurs(low, lowered(v[k]));
        lemma_occurs_through(
            encode_utf8(low),
            encode_utf8(lowered(v[k])),
            encode_utf8(lowered(text)),
        );
        lemma_lower_keeps(index, text, d);
    }
}

/// The bytes of a match, which the pattern's tree accepts.
pub(crate) proof fn lemma_match_piece(pattern: Seq<char>, text: Seq<char>) -> (piece: Seq<u8>)
    requires
        pattern_shape(pattern) is Some,
        pattern_fits(pattern),
        regex_compiles(pattern),
        pattern_spot(pattern, text) is Some,
    ensures
        occurs(encode_utf8(text), piece),
        accepts(pattern_shape(pattern)->0, piece),
{
    let bytes = encode_utf8(text);
    match spelled_text(pattern) {
        Some(t) => {
            assert(stands_in(text, t));
            lemma_stands(text, t);
            encode_utf8(t)
        },
        None => {
            let (a, b) = regex_find(pattern, text)->0;
            let piece = bytes.subrange(a as int, b as int);
            assert(occurs_at(bytes, piece, a as int));
            piece
        },
    }
}

proof fn lemma_regex_keeps(index: Index, pattern: Seq<char>, d: u32)
    requires
        is_complete(index),
        index.valid_docs().contains(d),
        index.text(d) is Some,
        pattern_fits(pattern),
        regex_hits(index.text(d)->0, pattern).len() > 0,
    ensures
        all_keep(index, pattern_steps(pattern), d),
{
    let content = index.text(d)->0;
    let v = lines(content);
    let spot = |line: Seq<char>| pattern_spot(pattern, line);
    assert(regex_compiles(pattern));
    lemma_hits(v, spot);
    let k = choose|k: int| 0 <= k < v.len() && spot(#[trigger] v[k]) is Some;
    lemma_line_piece(content, k);
    lemma_piece_occurs(content, v[k]);
    if pattern_shape(pattern) is Some {
        let piece = lemma_match_piece(pattern, v[k]);
        lemma_occurs_through(encode_utf8(content), encode_utf8(v[k]), piece);
        lemma_pattern_keeps(index, pattern, d, piece);
    }
}

/// A line with matches of a proximity search.
proof fn lemma_near_line(
    v: Seq<Seq<char>>,
    plain: Seq<Seq<char>>,
    terms: Seq<Seq<char>>,
    distance: int,
    width: nat,
    n: nat,
) -> (i: int)
    requires
        n <= v.len(),
        near_hits(v, plain, terms, distance, width, n).len() > 0,
    ensures
        0 <= i < n,
        terms_close(v, terms, i, distance),
    decreases n,
{
    let i = n - 1;
    if terms_close(v, terms, i, distance) && i < plain.len() {
        i
    } else {
        lemma_near_line(v, plain, terms, distance, width, (n - 1) as nat)
    }
}

proof fn lemma_terms_fit(terms: Seq<Seq<char>>, n: nat, k: int)
    requires
        0 <= k < n <= terms.len(),
        terms_fit(terms, n),
    ensures
        pattern_fits(literal_pattern(terms[k], true)),
    decreases n,
{
    if k < n - 1 {
        lemma_terms_fit(terms, (n - 1) as nat, k);
    }
}

proof fn lemma_near_steps_keep(index: Index, terms: Seq<Seq<char>>, n: nat, d: u32)
    requires
        n <= terms.len(),
        forall|k: int|
            0 <= k < n ==> all_keep(
                index,
                pattern_steps(literal_pattern(#[trigger] terms[k], true)),
                d,
            ),
    ensures
        all_keep(index, near_steps(terms, n), d),
    decreases n,
{
    if n > 0 {
        lemma_near_steps_keep(index, terms, (n - 1) as nat, d);
        assert(all_keep(index, pattern_steps(literal_pattern(terms[n - 1], true)), d));
    }
}

proof fn lemma_near_keeps(index: Index, terms: Seq<Seq<char>>, distance: u32, d: u32)
    requires
        is_complete(index),
        index.valid_docs().contains(d),
        index.text(d) is Some,
        sure_of_terms(index.text(d)->0, terms),
        terms_fit(terms, terms.len()),
        proximity_hits(index.text(d)->0, terms, distance).len() > 0,
    ensures
        all_keep(index, near_steps(terms, terms.len()), d),
{
    let content = index.text(d)->0;
    if forall|k: int| 0 <= k < terms.len() ==> in_some_case(content, #[trigger] terms[k]) {
        assert forall|k: int| 0 <= k < terms.len() implies all_keep(
            index,
            pattern_steps(literal_pattern(#[trigger] terms[k], true)),
            d,
        ) by {
            lemma_terms_fit(terms, terms.len(), k);
            lemma_cased_keeps(index, terms[k], d);
        }
    } else {
        let low = lowered(content);
        let lower = lower_terms(terms);
        let v = segments(low);
        let i = lemma_near_line(
            v,
            lines(content),
            lower,
            distance as int,
            crate::text::byte_len(terms[0]),
            v.len(),
        );
        let js = choose|js: Seq<int>| #[trigger] are_close(v, lower, i, distance as int, js);
        assert forall|k: int| 0 <= k < terms.len() implies all_keep(
            index,
            pattern_steps(literal_pattern(#[trigger] terms[k], true)),
            d,
        ) by {
            assert(lower[k] == lowered(terms[k]));
            let j = js[k];
            lemma_stands(v[j], lower[k]);
            lemma_segment_piece(low, j);
            lemma_piece_occurs(low, v[j]);
            lemma_occurs_through(encode_utf8(low), encode_utf8(v[j]), encode_utf8(lower[k]));
            lemma_terms_fit(terms, terms.len(), k);
            lemma_lower_keeps(index, terms[k], d);
        }
    }
    lemma_near_steps_keep(index, terms, terms.len(), d);
}

/// Whether a match of a text, whatever its case, is one that narrowing is sure
/// of: all is ASCII, or the text stands there in some case. What is left out is
/// a match that Unicode's lower case alone makes.
pub open spec fn sure_of_text(text: Seq<char>, t: Seq<char>) -> bool {
    (is_ascii_chars(text) && is_ascii_chars(t)) || in_some_case(text, t)
}

/// Whether that holds of terms together.
pub open spec fn sure_of_terms(text: Seq<char>, terms: Seq<Seq<char>>) -> bool {
    ||| is_ascii_chars(text) && forall|k: int|
        0 <= k < terms.len() ==> is_ascii_chars(#[trigger] terms[k])
    ||| forall|k: int| 0 <= k < terms.len() ==> in_some_case(text, #[trigger] terms[k])
}

/// Whether narrowing is sure to leave a document with a text in, where a tree
/// has matches in the text.
pub open spec fn searchable(node: NodeModel, insensitive: bool, text: Seq<char>) -> bool
    decreases node, 0nat,
{
    match node {
        NodeModel::Empty => true,
        NodeModel::Invalid(_) => false,
        NodeModel::Literal(t) => literal_hits(text, t, false).len() > 0 ==> sure_of_text(text, t),
        NodeModel::BoostedLiteral { text: t, .. } => literal_hits(text, t, false).len() > 0
            ==> sure_of_text(text, t),
        NodeModel::Phrase(t) => insensitive && literal_hits(text, t, false).len() > 0
            ==> sure_of_text(text, t),
        NodeModel::BoostedPhrase { text: t, .. } => insensitive && literal_hits(
            text,
            t,
            false,
        ).len() > 0 ==> sure_of_text(text, t),
        NodeModel::Near { terms, distance } => proximity_hits(text, terms, distance).len() > 0
            ==> sure_of_terms(text, terms),
        NodeModel::Regex(_) => true,
        NodeModel::And(v) => all_searchable(v, v.len(), insensitive, text),
        NodeModel::Or(v) => all_searchable(v, v.len(), insensitive, text),
        NodeModel::Not(inner) => planned(*inner, insensitive).1 is Some,
    }
}

/// Whether that holds of the first `n` branches.
pub open spec fn all_searchable(
    nodes: Seq<NodeModel>,
    n: nat,
    insensitive: bool,
    text: Seq<char>,
) -> bool
    decreases nodes, n,
{
    n == 0 || n > nodes.len() || (all_searchable(nodes, (n - 1) as nat, insensitive, text)
        && searchable(nodes[n - 1], insensitive, text))
}

/// Whether a check, if there is one, has matches.
pub open spec fn has_hits(text: Seq<char>, check: Option<CheckModel>) -> bool {
    check is Some ==> check_hits(text, check->0).len() > 0
}

/// Where a tree has matches in a document, its steps leave the document in.
pub(crate) proof fn lemma_node_keeps(index: Index, node: NodeModel, insensitive: bool, d: u32)
    requires
        is_complete(index),
        index.valid_docs().contains(d),
        index.text(d) is Some,
        node_fits(node, insensitive),
        searchable(node, insensitive, index.text(d)->0),
        has_hits(index.text(d)->0, planned(node, insensitive).1),
    ensures
        all_keep(index, planned(node, insensitive).0, d),
    decreases node, 0nat,
{
    let text = index.text(d)->0;
    match node {
        NodeModel::Empty => {},
        NodeModel::Invalid(_) => {},
        NodeModel::Literal(t) => {
            lemma_any_case_keeps(index, t, d);
        },
        NodeModel::BoostedLiteral { text: t, .. } => {
            lemma_any_case_keeps(index, t, d);
        },
        NodeModel::Phrase(t) => {
            if insensitive {
                lemma_any_case_keeps(index, t, d);
            } else {
                lemma_exact_keeps(index, t, d);
            }
        },
        NodeModel::BoostedPhrase { text: t, .. } => {
            if insensitive {
                lemma_any_case_keeps(index, t, d);
            } else {
                lemma_exact_keeps(index, t, d);
            }
        },
        NodeModel::Near { terms, distance } => {
            lemma_near_keeps(index, terms, distance, d);
        },
        NodeModel::Regex(pattern) => {
            lemma_regex_keeps(index, cased_pattern(pattern, insensitive), d);
        },
        NodeModel::And(v) => {
            let list = planned_all(v, v.len(), insensitive).1;
            assert forall|k: int| 0 <= k < list.len() implies check_hits(
                text,
                #[trigger] list[k],
            ).len() > 0 by {
                if list.len() > 1 {
                    lemma_all_hits(text, list, list.len());
                    assert(check_present(text, list[k]));
                }
            }
            lemma_all_keep(index, v, v.len(), insensitive, d);
        },
        NodeModel::Or(v) => {
            let (plans, list) = planned_any(v, v.len(), insensitive);
            lemma_any_plans(v, v.len(), insensitive);
            if v.len() > 0 {
                let k = if list.len() == 0 {
                    lemma_no_checks(v, v.len(), insensitive, 0);
                    0
                } else if list.len() == 1 {
                    lemma_check_source(v, v.len(), insensitive, 0)
                } else {
                    lemma_any_hits(text, list, list.len());
                    let i = choose|i: int|
                        0 <= i < list.len() && check_present(text, #[trigger] list[i]);
                    lemma_check_source(v, v.len(), insensitive, i)
                };
                lemma_fit_each(v, v.len(), insensitive, text, k);
                lemma_node_keeps(index, v[k], insensitive, d);
                lemma_found(index, plans[k], d);
                lemma_found_by_any(index, plans, plans.len(), k, d);
                assert(planned(node, insensitive).0 =~= seq![StepModel::Union(plans)]);
            }
        },
        NodeModel::Not(inner) => {
            let (steps, verification) = planned(*inner, insensitive);
            let plan = PlanModel { steps, verification };
            assert(planned(node, insensitive).0 =~= seq![StepModel::Exclude(Box::new(plan))]);
            assert(check_hits(text, CheckModel::Not(Box::new(verification->0))).len() > 0);
        },
    }
}

proof fn lemma_all_keep(index: Index, nodes: Seq<NodeModel>, n: nat, insensitive: bool, d: u32)
    requires
        n <= nodes.len(),
        is_complete(index),
        index.valid_docs().contains(d),
        index.text(d) is Some,
        all_fit(nodes, n, insensitive),
        all_searchable(nodes, n, insensitive, index.text(d)->0),
        forall|k: int|
            0 <= k < planned_all(nodes, n, insensitive).1.len() ==> check_hits(
                index.text(d)->0,
                #[trigger] planned_all(nodes, n, insensitive).1[k],
            ).len() > 0,
    ensures
        all_keep(index, planned_all(nodes, n, insensitive).0, d),
    decreases nodes, n,
{
    if n > 0 {
        let m = (n - 1) as nat;
        let (steps, list) = planned_all(nodes, m, insensitive);
        let (more, check) = planned(nodes[n - 1], insensitive);
        let whole = planned_all(nodes, n, insensitive).1;
        assert(whole == with_check(list, check));
        assert forall|k: int| 0 <= k < list.len() implies check_hits(
            index.text(d)->0,
            #[trigger] list[k],
        ).len() > 0 by {
            assert(whole[k] == list[k]);
        }
        if check is Some {
            assert(whole[list.len() as int] == check->0);
        }
        lemma_all_keep(index, nodes, m, insensitive, d);
        lemma_node_keeps(index, nodes[n - 1], insensitive, d);
    }
}

/// The plans of branches stand side by side.
pub(crate) proof fn lemma_any_plans(nodes: Seq<NodeModel>, n: nat, insensitive: bool)
    requires
        n <= nodes.len(),
    ensures
        planned_any(nodes, n, insensitive).0.len() == n,
        forall|k: int|
            0 <= k < n ==> (#[trigger] planned_any(nodes, n, insensitive).0[k]).steps == planned(
                nodes[k],
                insensitive,
            ).0,
    decreases n,
{
    if n > 0 {
        let m = (n - 1) as nat;
        lemma_any_plans(nodes, m, insensitive);
        let plans = planned_any(nodes, m, insensitive).0;
        let more = planned_any(nodes, n, insensitive).0;
        assert forall|k: int| 0 <= k < n implies (#[trigger] more[k]).steps == planned(
            nodes[k],
            insensitive,
        ).0 by {
            if k < m {
                assert(more[k] == plans[k]);
            }
        }
    }
}

/// The branch that a check is of.
pub(crate) proof fn lemma_check_source(
    nodes: Seq<NodeModel>,
    n: nat,
    insensitive: bool,
    i: int,
) -> (k: int)
    requires
        n <= nodes.len(),
        0 <= i < planned_any(nodes, n, insensitive).1.len(),
    ensures
        0 <= k < n,
        planned(nodes[k], insensitive).1 == Some(planned_any(nodes, n, insensitive).1[i]),
    decreases n,
{
    let m = (n - 1) as nat;
    let list = planned_any(nodes, m, insensitive).1;
    if i < list.len() {
        assert(planned_any(nodes, n, insensitive).1[i] == list[i]);
        lemma_check_source(nodes, m, insensitive, i)
    } else {
        n - 1
    }
}

/// Without a check no branch has one.
pub(crate) proof fn lemma_no_checks(nodes: Seq<NodeModel>, n: nat, insensitive: bool, k: int)
    requires
        0 <= k < n <= nodes.len(),
        planned_any(nodes, n, insensitive).1.len() == 0,
    ensures
        planned(nodes[k], insensitive).1 is None,
    decreases n,
{
    if k < n - 1 {
        lemma_no_checks(nodes, (n - 1) as nat, insensitive, k);
    }
}

proof fn lemma_fit_each(
    nodes: Seq<NodeModel>,
    n: nat,
    insensitive: bool,
    text: Seq<char>,
    k: int,
)
    requires
        0 <= k < n <= nodes.len(),
        all_fit(nodes, n, insensitive),
        all_searchable(nodes, n, insensitive, text),
    ensures
        node_fits(nodes[k], insensitive),
        searchable(nodes[k], insensitive, text),
    decreases n,
{
    if k < n - 1 {
        lemma_fit_each(nodes, (n - 1) as nat, insensitive, text, k);
    }
}

pub(crate) proof fn lemma_found_by_any(index: Index, plans: Seq<PlanModel>, n: nat, k: int, d: u32)
    requires
        0 <= k < n <= plans.len(),
        index.found(plans[k]).contains(d),
    ensures
        index.found_by_any(plans, n).contains(d),
    decreases n,
{
    if k < n - 1 {
        lemma_found_by_any(index, plans, (n - 1) as nat, k, d);
    }
}

/// Whether an index lists valid documents only.
pub open spec fn lists_valid(index: Index) -> bool {
    forall|t: Trigram, d: u32| #[trigger]
        index.gram_docs(t).contains(d) ==> index.valid_docs().contains(d)
}

/// Whether all documents of a set are valid.
pub open spec fn all_valid(index: Index, s: Set<u32>) -> bool {
    forall|d: u32| #[trigger] s.contains(d) ==> index.valid_docs().contains(d)
}

/// Whether a step narrows to valid documents.
pub open spec fn draws_valid(index: Index, step: StepModel) -> bool {
    match step {
        StepModel::TrigramIntersect(_) => true,
        StepModel::Union(plans) => all_valid(index, index.found_by_any(plans, plans.len())),
        StepModel::Exclude(_) => true,
        StepModel::Filter(_) => true,
        _ => false,
    }
}

/// Whether all steps narrow to valid documents.
pub open spec fn all_draw_valid(index: Index, steps: Seq<StepModel>) -> bool {
    forall|k: int| 0 <= k < steps.len() ==> draws_valid(index, #[trigger] steps[k])
}

proof fn lemma_narrowed_valid(index: Index, steps: Seq<StepModel>, n: nat)
    requires
        n <= steps.len(),
        lists_valid(index),
        all_draw_valid(index, steps),
    ensures
        index.narrowed(steps, n) is Some ==> all_valid(index, index.narrowed(steps, n)->0),
    decreases n,
{
    if n > 0 {
        lemma_narrowed_valid(index, steps, (n - 1) as nat);
        assert(draws_valid(index, steps[n - 1]));
        match steps[n - 1] {
            StepModel::TrigramIntersect(v) => {
                let u = index.usable(v);
                if u.len() > 0 {
                    assert forall|d: u32| #[trigger]
                        index.all_gram_docs(u).contains(d) implies index.valid_docs().contains(
                        d,
                    ) by {
                        assert(index.gram_docs(u[0]).contains(d));
                    }
                }
            },
            _ => {},
        }
    }
}

pub(crate) proof fn lemma_excluded_within(index: Index, steps: Seq<StepModel>, n: nat, s: Set<u32>)
    requires
        n <= steps.len(),
    ensures
        forall|d: u32| #[trigger] index.excluded(steps, n, s).contains(d) ==> s.contains(d),
    decreases n,
{
    if n > 0 {
        lemma_excluded_within(index, steps, (n - 1) as nat, s);
        let before = index.excluded(steps, (n - 1) as nat, s);
        assert forall|d: u32| #[trigger] index.excluded(steps, n, s).contains(d) implies s.contains(
            d,
        ) by {
            assert(before.contains(d));
        }
    }
}

/// A plan whose steps narrow to valid documents finds valid documents.
proof fn lemma_found_valid(index: Index, plan: PlanModel)
    requires
        lists_valid(index),
        all_draw_valid(index, plan.steps),
    ensures
        all_valid(index, index.found(plan)),
{
    let n = plan.steps.len();
    lemma_narrowed_valid(index, plan.steps, n);
    if index.narrowed(plan.steps, n) is Some {
        let set = index.narrowed(plan.steps, n)->0;
        lemma_excluded_within(index, plan.steps, n, set);
        assert forall|d: u32| #[trigger]
            index.found(plan).contains(d) implies index.valid_docs().contains(d) by {
            assert(index.excluded(plan.steps, n, set).contains(d));
            assert(set.contains(d));
        }
    }
}

proof fn lemma_gram_steps_valid(index: Index, steps: Seq<StepModel>, n: nat)
    requires
        n <= steps.len(),
        lists_valid(index),
        steps_ask_grams(steps, n),
    ensures
        forall|k: int| 0 <= k < n ==> draws_valid(index, #[trigger] steps[k]),
    decreases steps, n,
{
    if n > 0 {
        lemma_gram_steps_valid(index, steps, (n - 1) as nat);
        assert(asks_grams(steps[n - 1]));
        match steps[n - 1] {
            StepModel::Union(plans) => {
                lemma_gram_plans_valid(index, plans, plans.len());
            },
            _ => {},
        }
    }
}

proof fn lemma_gram_plans_valid(index: Index, plans: Seq<PlanModel>, n: nat)
    requires
        n <= plans.len(),
        lists_valid(index),
        plans_ask_grams(plans, n),
    ensures
        all_valid(index, index.found_by_any(plans, n)),
    decreases plans, n,
{
    if n > 0 {
        lemma_gram_plans_valid(index, plans, (n - 1) as nat);
        lemma_gram_steps_valid(index, plans[n - 1].steps, plans[n - 1].steps.len());
        lemma_found_valid(index, plans[n - 1]);
    }
}

proof fn lemma_pattern_valid(index: Index, pattern: Seq<char>)
    requires
        lists_valid(index),
    ensures
        all_draw_valid(index, pattern_steps(pattern)),
{
    match pattern_shape(pattern) {
        Some(s) => {
            narrowing_asks_grams(s);
            lemma_gram_steps_valid(index, narrowing(s), narrowing(s).len());
        },
        None => {},
    }
}

proof fn lemma_near_valid(index: Index, terms: Seq<Seq<char>>, n: nat)
    requires
        lists_valid(index),
    ensures
        all_draw_valid(index, near_steps(terms, n)),
    decreases n,
{
    if 0 < n <= terms.len() {
        lemma_near_valid(index, terms, (n - 1) as nat);
        lemma_pattern_valid(index, literal_pattern(terms[n - 1], true));
    }
}

/// The steps of a tree narrow to valid documents.
proof fn lemma_node_valid(index: Index, node: NodeModel, insensitive: bool)
    requires
        lists_valid(index),
    ensures
        all_draw_valid(index, planned(node, insensitive).0),
    decreases node, 0nat,
{
    match node {
        NodeModel::Empty => {},
        NodeModel::Invalid(_) => {
            let none: Seq<PlanModel> = Seq::empty();
            assert(index.found_by_any(none, 0) == Set::<u32>::empty());
        },
        NodeModel::Literal(t) => {
            lemma_pattern_valid(index, literal_pattern(t, true));
        },
        NodeModel::BoostedLiteral { text: t, .. } => {
            lemma_pattern_valid(index, literal_pattern(t, true));
        },
        NodeModel::Phrase(t) => {
            lemma_pattern_valid(index, literal_pattern(t, insensitive));
        },
        NodeModel::BoostedPhrase { text: t, .. } => {
            lemma_pattern_valid(index, literal_pattern(t, insensitive));
        },
        NodeModel::Near { terms, distance } => {
            lemma_near_valid(index, terms, terms.len());
        },
        NodeModel::Regex(pattern) => {
            lemma_pattern_valid(index, cased_pattern(pattern, insensitive));
        },
        NodeModel::And(v) => {
            lemma_all_valid(index, v, v.len(), insensitive);
        },
        NodeModel::Or(v) => {
            lemma_any_valid(index, v, v.len(), insensitive);
        },
        NodeModel::Not(inner) => {},
    }
}

proof fn lemma_all_valid(index: Index, nodes: Seq<NodeModel>, n: nat, insensitive: bool)
    requires
        n <= nodes.len(),
        lists_valid(index),
    ensures
        all_draw_valid(index, planned_all(nodes, n, insensitive).0),
    decreases nodes, n,
{
    if n > 0 {
        lemma_all_valid(index, nodes, (n - 1) as nat, insensitive);
        lemma_node_valid(index, nodes[n - 1], insensitive);
    }
}

proof fn lemma_any_valid(index: Index, nodes: Seq<NodeModel>, n: nat, insensitive: bool)
    requires
        n <= nodes.len(),
        lists_valid(index),
    ensures
        planned_any(nodes, n, insensitive).0.len() == n,
        all_valid(
            index,
            index.found_by_any(
                planned_any(nodes, n, insensitive).0,
                planned_any(nodes, n, insensitive).0.len(),
            ),
        ),
    decreases nodes, n,
{
    if n > 0 {
        let m = (n - 1) as nat;
        lemma_any_valid(index, nodes, m, insensitive);
        lemma_node_valid(index, nodes[n - 1], insensitive);
        let before = planned_any(nodes, m, insensitive).0;
        let after = planned_any(nodes, n, insensitive).0;
        lemma_found_valid(index, after[n - 1]);
        lemma_same_found(index, before, after, m);
    }
}

proof fn lemma_same_found(index: Index, a: Seq<PlanModel>, b: Seq<PlanModel>, n: nat)
    requires
        n <= a.len(),
        n <= b.len(),
        forall|k: int| 0 <= k < n ==> a[k] == b[k],
    ensures
        index.found_by_any(a, n) == index.found_by_any(b, n),
    decreases n,
{
    if n > 0 {
        lemma_same_found(index, a, b, (n - 1) as nat);
    }
}

impl Index {
    /// The documents that a query is about: the valid ones that pass its filters.
    pub open spec fn eligible(&self, q: QueryModel) -> Set<u32> {
        if q.filters != no_filters() {
            self.passing(self.valid_docs(), filter_step(q.filters))
        } else {
            self.valid_docs()
        }
    }

    /// The results of checking the text of every document that a query is about.
    pub open spec fn scanned(&self, q: QueryModel) -> Seq<FileHits> {
        let plan = plan_of(q);
        let ids = ascending_list(self.eligible(q));
        self.verified(ids, ids.len(), plan.verification, line_bounds(plan.steps), None)
    }

    /// What a document adds to the results.
    spec fn part(
        &self,
        d: u32,
        check: Option<CheckModel>,
        bounds: (Option<u32>, Option<u32>),
    ) -> Seq<FileHits> {
        if d >= self.documents@.len() {
            Seq::empty()
        } else {
            match check {
                None => seq![self.result(d, Seq::empty())],
                Some(c) => match self.text(d) {
                    None => Seq::empty(),
                    Some(t) => {
                        let hits = kept_lines(check_hits(t, c), bounds.0, bounds.1);
                        if hits.len() == 0 {
                            Seq::empty()
                        } else {
                            seq![self.result(d, hits)]
                        }
                    },
                },
            }
        }
    }
}

/// Whether narrowing an index for a query leaves in every document that it is sure
/// of: the index is complete and lists valid documents.
pub open spec fn narrowing_is_sound(index: Index, q: QueryModel) -> bool {
    let insensitive = q.options.case_insensitive;
    &&& is_complete(index)
    &&& lists_valid(index)
    &&& q.root == NodeModel::Empty || planned(q.root, insensitive).1 is Some
}

/// Whether a query is one whose results narrowing cannot change: narrowing is
/// sound, and sure of every text.
pub open spec fn narrowing_is_sure(index: Index, q: QueryModel) -> bool {
    &&& narrowing_is_sound(index, q)
    &&& forall|d: u32|
        index.valid_docs().contains(d) && #[trigger] index.text(d) is Some ==> searchable(
            q.root,
            q.options.case_insensitive,
            index.text(d)->0,
        )
}

impl Index {
    /// The matches of a query in a document, within its bounds on lines.
    pub open spec fn hits_in(&self, q: QueryModel, d: u32) -> Seq<Hit> {
        let plan = plan_of(q);
        let bounds = line_bounds(plan.steps);
        match plan.verification {
            Some(c) => kept_lines(check_hits(self.text(d)->0, c), bounds.0, bounds.1),
            None => Seq::empty(),
        }
    }

    /// Whether a document has to be among the results of a query: the query is
    /// about it, and asks for no text or has matches in a text that narrowing is
    /// sure of, whatever other documents hold.
    pub open spec fn must_be_found(&self, q: QueryModel, d: u32) -> bool {
        &&& self.eligible(q).contains(d)
        &&& q.root == NodeModel::Empty || (self.text(d) is Some && searchable(
            q.root,
            q.options.case_insensitive,
            self.text(d)->0,
        ) && self.hits_in(q, d).len() > 0)
    }

    /// Whether every such document is a candidate and its matches are among the
    /// results, where narrowing is sound.
    pub open spec fn finds_what_it_must(&self, q: QueryModel) -> bool {
        narrowing_is_sound(*self, q) ==> forall|d: u32| #[trigger]
            self.must_be_found(q, d) ==> self.found(plan_of(q)).contains(d) && self.answers(
                q,
                None,
            ).contains(self.result(d, self.hits_in(q, d)))
    }
}

/// Narrowing leaves in a document with matches that it is sure of, whatever
/// other documents hold.
pub proof fn sure_documents_stay_candidates(index: Index, q: QueryModel, d: u32)
    requires
        index.wf(),
        narrowing_is_sound(index, q),
        node_fits(q.root, q.options.case_insensitive),
        index.must_be_found(q, d),
    ensures
        index.found(plan_of(q)).contains(d),
{
    let plan = plan_of(q);
    let insensitive = q.options.case_insensitive;
    let tree = planned(q.root, insensitive).0;
    lemma_found_eligible(index, q);
    assert(index.valid_docs().contains(d));
    if q.root == NodeModel::Empty {
        assert(all_keep(index, tree, d));
    } else {
        let c = plan.verification->0;
        let bounds = line_bounds(plan.steps);
        lemma_few_kept(check_hits(index.text(d)->0, c), bounds.0, bounds.1);
        lemma_node_keeps(index, q.root, insensitive, d);
    }
    assert forall|k: int| 0 <= k < plan.steps.len() implies keeps(
        index,
        #[trigger] plan.steps[k],
        d,
    ) by {
        if k < tree.len() {
            assert(plan.steps[k] == tree[k]);
        }
    }
    lemma_found(index, plan, d);
}

/// A search finds every document that it must.
pub(crate) proof fn lemma_finds_what_it_must(index: Index, q: QueryModel)
    requires
        index.wf(),
        node_fits(q.root, q.options.case_insensitive),
    ensures
        index.finds_what_it_must(q),
{
    if narrowing_is_sound(index, q) {
        assert forall|d: u32| #[trigger] index.must_be_found(q, d) implies index.found(
            plan_of(q),
        ).contains(d) && index.answers(q, None).contains(
            index.result(d, index.hits_in(q, d)),
        ) by {
            sure_documents_stay_candidates(index, q, d);
            sure_documents_are_shown(index, q, d);
        }
    }
}

proof fn lemma_few_kept(v: Seq<Hit>, low: Option<u32>, high: Option<u32>)
    ensures
        kept_lines(v, low, high).len() <= v.len(),
    decreases v.len(),
{
    if v.len() > 0 {
        lemma_few_kept(v.drop_last(), low, high);
    }
}

/// A document of a list with matches has its result.
proof fn lemma_has_result(
    index: Index,
    ids: Seq<u32>,
    n: nat,
    check: Option<CheckModel>,
    bounds: (Option<u32>, Option<u32>),
    k: int,
)
    requires
        0 <= k < n <= ids.len(),
        index.part(ids[k], check, bounds).len() == 1,
    ensures
        index.verified(ids, n, check, bounds, None).contains(
            index.part(ids[k], check, bounds)[0],
        ),
    decreases n,
{
    let m = (n - 1) as nat;
    let part = index.part(ids[k], check, bounds);
    let now = index.verified(ids, n, check, bounds, None);
    let before = index.verified(ids, m, check, bounds, None);
    lemma_parts(index, ids, n, check, bounds);
    if k == n - 1 {
        assert(now[before.len() as int] == part[0]);
    } else {
        lemma_has_result(index, ids, m, check, bounds, k);
        let i = choose|i: int| 0 <= i < before.len() && before[i] == part[0];
        assert(now[i] == part[0]);
    }
}

/// A search shows the matches in every document that narrowing is sure of,
/// whatever other documents hold.
pub proof fn sure_documents_are_shown(index: Index, q: QueryModel, d: u32)
    requires
        index.wf(),
        narrowing_is_sound(index, q),
        node_fits(q.root, q.options.case_insensitive),
        index.must_be_found(q, d),
    ensures
        index.answers(q, None).contains(index.result(d, index.hits_in(q, d))),
{
    let plan = plan_of(q);
    let bounds = line_bounds(plan.steps);
    let found = index.found(plan);
    sure_documents_stay_candidates(index, q, d);
    lemma_found_eligible(index, q);
    lemma_ascending_list(index, found);
    let ids = ascending_list(found);
    assert(ids.contains(d));
    let k = choose|k: int| 0 <= k < ids.len() && ids[k] == d;
    assert(index.valid_docs().contains(d));
    assert(index.part(d, plan.verification, bounds) =~= seq![index.result(d, index.hits_in(q, d))]);
    lemma_has_result(index, ids, ids.len(), plan.verification, bounds, k);
}

proof fn lemma_parts(
    index: Index,
    ids: Seq<u32>,
    n: nat,
    check: Option<CheckModel>,
    bounds: (Option<u32>, Option<u32>),
)
    requires
        0 < n <= ids.len(),
    ensures
        index.verified(ids, n, check, bounds, None) == index.verified(
            ids,
            (n - 1) as nat,
            check,
            bounds,
            None,
        ) + index.part(ids[n - 1], check, bounds),
{
    let before = index.verified(ids, (n - 1) as nat, check, bounds, None);
    let part = index.part(ids[n - 1], check, bounds);
    if part.len() == 0 {
        assert(before + part =~= before);
    } else {
        assert(before + part =~= before.push(part[0]));
    }
}

proof fn lemma_same_ids(
    index: Index,
    a: Seq<u32>,
    b: Seq<u32>,
    n: nat,
    check: Option<CheckModel>,
    bounds: (Option<u32>, Option<u32>),
)
    requires
        n <= a.len(),
        n <= b.len(),
        forall|k: int| 0 <= k < n ==> a[k] == b[k],
    ensures
        index.verified(a, n, check, bounds, None) == index.verified(b, n, check, bounds, None),
    decreases n,
{
    if n > 0 {
        lemma_same_ids(index, a, b, (n - 1) as nat, check, bounds);
    }
}

/// Documents that add nothing do not matter.
proof fn lemma_skipped(
    index: Index,
    a: Seq<u32>,
    b: Seq<u32>,
    check: Option<CheckModel>,
    bounds: (Option<u32>, Option<u32>),
)
    requires
        ascending(a),
        ascending(b),
        forall|d: u32| #[trigger] a.contains(d) ==> b.contains(d),
        forall|d: u32| #[trigger]
            b.contains(d) && !a.contains(d) ==> index.part(d, check, bounds).len() == 0,
    ensures
        index.verified(a, a.len(), check, bounds, None) == index.verified(
            b,
            b.len(),
            check,
            bounds,
            None,
        ),
    decreases b.len(),
{
    if b.len() == 0 {
        if a.len() > 0 {
            assert(a.contains(a[0]));
            assert(b.contains(a[0]));
        }
    } else {
        let last = b.last();
        let y = b.drop_last();
        assert(b.contains(b[b.len() - 1]));
        lemma_parts(index, b, b.len(), check, bounds);
        lemma_same_ids(index, b, y, y.len(), check, bounds);
        if a.contains(last) {
            let i = choose|i: int| 0 <= i < a.len() && a[i] == last;
            if i < a.len() - 1 {
                assert(a.contains(a.last()));
                assert(b.contains(a.last()));
            }
            let x = a.drop_last();
            lemma_parts(index, a, a.len(), check, bounds);
            lemma_same_ids(index, a, x, x.len(), check, bounds);
            assert forall|d: u32| #[trigger] x.contains(d) implies y.contains(d) by {
                let k = choose|k: int| 0 <= k < x.len() && x[k] == d;
                assert(a[k] == d);
                assert(a.contains(d));
                assert(b.contains(d));
                let j = choose|j: int| 0 <= j < b.len() && b[j] == d;
                assert(y[j] == d);
            }
            assert forall|d: u32| #[trigger] y.contains(d) && !x.contains(d) implies index.part(
                d,
                check,
                bounds,
            ).len() == 0 by {
                let j = choose|j: int| 0 <= j < y.len() && y[j] == d;
                assert(b[j] == d);
                assert(b.contains(d));
                if a.contains(d) {
                    let k = choose|k: int| 0 <= k < a.len() && a[k] == d;
                    assert(x[k] == d);
                }
            }
            lemma_skipped(index, x, y, check, bounds);
        } else {
            let part = index.part(last, check, bounds);
            assert(part.len() == 0);
            assert(index.verified(b, y.len(), check, bounds, None) + part =~= index.verified(
                b,
                y.len(),
                check,
                bounds,
                None,
            ));
            assert forall|d: u32| #[trigger] a.contains(d) implies y.contains(d) by {
                assert(b.contains(d));
                let j = choose|j: int| 0 <= j < b.len() && b[j] == d;
                assert(y[j] == d);
            }
            assert forall|d: u32| #[trigger] y.contains(d) && !a.contains(d) implies index.part(
                d,
                check,
                bounds,
            ).len() == 0 by {
                let j = choose|j: int| 0 <= j < y.len() && y[j] == d;
                assert(b[j] == d);
                assert(b.contains(d));
            }
            lemma_skipped(index, a, y, check, bounds);
        }
    }
}

/// Numbers below a bound can be listed in ascending order.
proof fn lemma_list_exists(s: Set<u32>, n: nat) -> (v: Seq<u32>)
    requires
        n <= u32::MAX,
        forall|d: u32| #[trigger] s.contains(d) ==> d < n,
    ensures
        ascending(v),
        forall|d: u32| #[trigger] v.contains(d) <==> s.contains(d),
    decreases n,
{
    if n == 0 {
        Seq::empty()
    } else {
        let x = (n - 1) as u32;
        let front = lemma_list_exists(s.remove(x), (n - 1) as nat);
        if s.contains(x) {
            let v = front.push(x);
            assert forall|i: int, j: int| 0 <= i < j < v.len() implies v[i] < v[j] by {
                if j == front.len() {
                    assert(front.contains(front[i]));
                }
            }
            assert forall|d: u32| #[trigger] v.contains(d) <==> s.contains(d) by {
                assert(v[front.len() as int] == x);
                if front.contains(d) {
                    let k = choose|k: int| 0 <= k < front.len() && front[k] == d;
                    assert(v[k] == d);
                }
                if v.contains(d) && d != x {
                    let k = choose|k: int| 0 <= k < v.len() && v[k] == d;
                    assert(front[k] == d);
                }
                assert(front.contains(d) <==> s.remove(x).contains(d));
            }
            v
        } else {
            assert(s.remove(x) =~= s);
            front
        }
    }
}

pub(crate) proof fn lemma_ascending_list(index: Index, s: Set<u32>)
    requires
        index.wf(),
        all_valid(index, s),
    ensures
        ascending(ascending_list(s)),
        forall|d: u32| #[trigger] ascending_list(s).contains(d) <==> s.contains(d),
{
    assert forall|d: u32| #[trigger] s.contains(d) implies d < index.documents@.len() by {
        assert(index.valid_docs().contains(d));
    }
    let v = lemma_list_exists(s, index.documents@.len());
    assert(ascending(v) && forall|d: u32| #[trigger] v.contains(d) <==> s.contains(d));
}

/// What a plan with a filter finds passes the filter.
pub(crate) proof fn lemma_found_eligible(index: Index, q: QueryModel)
    requires
        lists_valid(index),
    ensures
        forall|d: u32| #[trigger]
            index.found(plan_of(q)).contains(d) ==> index.eligible(q).contains(d),
        all_valid(index, index.found(plan_of(q))),
        all_valid(index, index.eligible(q)),
{
    let plan = plan_of(q);
    let n = plan.steps.len();
    let tree = planned(q.root, q.options.case_insensitive).0;
    lemma_node_valid(index, q.root, q.options.case_insensitive);
    if q.filters != no_filters() {
        let f = filter_step(q.filters);
        assert(plan.steps[n - 1] == StepModel::Filter(f));
        assert forall|k: int| 0 <= k < n implies draws_valid(index, #[trigger] plan.steps[k]) by {
            if k < n - 1 {
                assert(plan.steps[k] == tree[k]);
            }
        }
        let set = index.narrowed(plan.steps, n)->0;
        lemma_excluded_within(index, plan.steps, n, set);
        assert forall|d: u32| #[trigger] index.found(plan).contains(d) implies index.eligible(
            q,
        ).contains(d) by {
            assert(index.excluded(plan.steps, n, set).contains(d));
            assert(set.contains(d));
        }
    }
    lemma_found_valid(index, plan);
}

/// A search gives what checking the text of every document would give: the
/// index leaves out only documents without a match.
pub proof fn search_is_a_scan(index: Index, q: QueryModel)
    requires
        index.wf(),
        narrowing_is_sure(index, q),
        node_fits(q.root, q.options.case_insensitive),
    ensures
        index.answers(q, None) == index.scanned(q),
{
    let plan = plan_of(q);
    let bounds = line_bounds(plan.steps);
    let found = index.found(plan);
    let eligible = index.eligible(q);
    lemma_found_eligible(index, q);
    lemma_ascending_list(index, found);
    lemma_ascending_list(index, eligible);
    let a = ascending_list(found);
    let b = ascending_list(eligible);
    assert forall|d: u32| #[trigger] a.contains(d) implies b.contains(d) by {
        assert(found.contains(d));
    }
    assert forall|d: u32| #[trigger] b.contains(d) && !a.contains(d) implies index.part(
        d,
        plan.verification,
        bounds,
    ).len() == 0 by {
        assert(eligible.contains(d));
        assert(index.valid_docs().contains(d));
        if index.part(d, plan.verification, bounds).len() > 0 {
            sure_documents_stay_candidates(index, q, d);
        }
    }
    lemma_skipped(index, a, b, plan.verification, bounds);
}

/// A term or phrase that stands in an ASCII line in some case is found, and
/// narrowing is sure of it, whatever the other lines of the file hold.
pub proof fn narrowing_is_sure_of_ascii_lines(
    content: Seq<char>,
    text: Seq<char>,
    k: int,
    insensitive: bool,
)
    requires
        is_ascii_chars(text),
        0 <= k < lines(content).len(),
        is_ascii_chars(lines(content)[k]),
        stands_in(lowered(lines(content)[k]), lowered(text)),
    ensures
        check_present(content, CheckModel::Literal(text)),
        check_present(content, CheckModel::Phrase { text, case_insensitive: true }),
        searchable(NodeModel::Literal(text), insensitive, content),
        searchable(NodeModel::Phrase(text), insensitive, content),
{
    term_is_listed_where_it_stands(content, text);
    lemma_line_piece(content, k);
    pieces_have_some_case(content, lines(content)[k], text);
}

proof fn lemma_ascii_bytes(t: Seq<char>)
    requires
        forall|i: int| 0 <= i < encode_utf8(t).len() ==> #[trigger] encode_utf8(t)[i] < 0x80,
    ensures
        is_ascii_chars(t),
    decreases t.len(),
{
    if t.len() > 0 {
        let c = t[0] as u32;
        let n = encode_scalar(c).len() as int;
        let rest = t.drop_first();
        assert forall|i: int| 0 <= i < encode_utf8(rest).len() implies #[trigger] encode_utf8(
            rest,
        )[i] < 0x80 by {
            assert(encode_utf8(t)[n + i] == encode_utf8(rest)[i]);
        }
        lemma_ascii_bytes(rest);
        assert(encode_utf8(t)[0] < 0x80);
        assert(leading_byte_width_2(c) >= 0x80 && leading_byte_width_3(c) >= 0x80
            && leading_byte_width_4(c) >= 0x80) by (bit_vector);
        vstd::utf8::char_u32_cast(t[0], c);
        assert(c < 0x80);
        assert forall|i: int| 0 <= i < t.len() implies '\0' <= #[trigger] t[i] <= '\u{7f}' by {
            if i > 0 {
                assert(t[i] == rest[i - 1]);
            }
        }
    }
}

/// Ignoring case loses nothing: a file with a phrase as it is written in an ASCII
/// line has the phrase in some case.
pub proof fn ignoring_case_loses_no_file(content: Seq<char>, text: Seq<char>, k: int)
    requires
        0 <= k < lines(content).len(),
        is_ascii_chars(lines(content)[k]),
        stands_in(lines(content)[k], text),
    ensures
        check_present(content, CheckModel::Phrase { text, case_insensitive: false }),
        check_present(content, CheckModel::Phrase { text, case_insensitive: true }),
{
    let v = lines(content);
    let line = v[k];
    lemma_hits(v, exact_spot(text));
    assert(exact_spot(text)(line) is Some);
    lemma_stands(line, text);
    let h = encode_utf8(line);
    let n = encode_utf8(text);
    vstd::utf8::is_ascii_chars_encode_utf8(line);
    let p = choose|p: int| #[trigger] occurs_at(h, n, p);
    assert forall|i: int| 0 <= i < n.len() implies #[trigger] n[i] < 0x80 by {
        assert(h.subrange(p, p + n.len())[i] == n[i]);
        assert(line[p + i] as u8 == h[p + i]);
        assert('\0' <= line[p + i] <= '\u{7f}');
    }
    lemma_ascii_bytes(text);
    vstd::utf8::is_ascii_chars_encode_utf8(text);
    let x = line.subrange(p, p + text.len());
    assert forall|i: int| 0 <= i < text.len() implies x[i] == text[i] by {
        assert(h.subrange(p, p + n.len())[i] == n[i]);
        assert(line[p + i] as u8 == h[p + i]);
        assert(text[i] as u8 == n[i]);
        assert('\0' <= line[p + i] <= '\u{7f}');
        assert('\0' <= text[i] <= '\u{7f}');
    }
    assert(x =~= text);
    assert(is_piece(line, x));
    lemma_piece_lowered(line, text);
    lemma_piece_occurs(lowered(line), lowered(text));
    lemma_stands(lowered(line), lowered(text));
    term_is_listed_where_it_stands(content, text);
}

} // verus!
