//! A text without line breaks stands in a file exactly where it stands in one of
//! the lines: listing files and listing lines agree.
use crate::query::content::{
    ascii_search, ascii_spot, check_present, exact_spot, has_break, hits, literal_hits, lower_spot,
    plain_segments, stands_in, Spot,
};
use crate::query::lines::{first_place_is_first, lines, occurs_at, strip_return};
use crate::query::plan::CheckModel;
use crate::query::scan_laws::{
    lemma_line_piece, lemma_occurs_through, lemma_piece_lowered, lemma_piece_occurs,
};
use crate::text::{ascii_lower, lemma_span, lemma_span_is, lower_case, lowered, span};
use vstd::prelude::*;
use vstd::utf8::{encode_scalar, encode_utf8, is_ascii_chars};

verus! {

/// Whether a row of bytes stands somewhere in another.
pub open spec fn occurs(h: Seq<u8>, n: Seq<u8>) -> bool {
    exists|p: int| #[trigger] occurs_at(h, n, p)
}

pub proof fn lemma_stands(line: Seq<char>, needle: Seq<char>)
    ensures
        stands_in(line, needle) <==> occurs(encode_utf8(line), encode_utf8(needle)),
{
    let h = encode_utf8(line);
    let n = encode_utf8(needle);
    first_place_is_first(h, n, 0);
    if occurs(h, n) {
        let p = choose|p: int| #[trigger] occurs_at(h, n, p);
        assert(0 <= p);
    }
}

pub proof fn lemma_encode_sum(a: Seq<char>, b: Seq<char>)
    ensures
        encode_utf8(a + b) == encode_utf8(a) + encode_utf8(b),
    decreases a.len(),
{
    if a.len() == 0 {
        assert(a + b =~= b);
        assert(encode_utf8(a) + encode_utf8(b) =~= encode_utf8(b));
    } else {
        lemma_encode_sum(a.drop_first(), b);
        assert((a + b).drop_first() =~= a.drop_first() + b);
        assert((a + b)[0] == a[0]);
        assert(encode_utf8(a + b) =~= encode_utf8(a) + encode_utf8(b));
    }
}

/// A character that is not `b` has no byte `b`, for a `b` of ASCII.
proof fn lemma_scalar_bytes(c: char, b: u8)
    requires
        b < 128,
        c as u32 != b,
    ensures
        forall|k: int|
            0 <= k < encode_scalar(c as u32).len() ==> (#[trigger] encode_scalar(c as u32)[k]) != b,
{
    let v = c as u32;
    assert(forall|x: u8| (0x80u8 | x) >= 0x80) by (bit_vector);
    assert(forall|x: u8| (0xC0u8 | x) >= 0x80) by (bit_vector);
    assert(forall|x: u8| (0xE0u8 | x) >= 0x80) by (bit_vector);
    assert(forall|x: u8| (0xF0u8 | x) >= 0x80) by (bit_vector);
    if v < 128 {
        assert((v & 0x7F) as u8 == v) by (bit_vector)
            requires
                v < 128,
        ;
    }
}

proof fn lemma_no_byte(s: Seq<char>, b: u8)
    requires
        b < 128,
        forall|i: int| 0 <= i < s.len() ==> (#[trigger] s[i]) as u32 != b,
    ensures
        !encode_utf8(s).contains(b),
    decreases s.len(),
{
    if s.len() > 0 {
        assert(s[0] as u32 != b);
        lemma_scalar_bytes(s[0], b);
        let rest = s.drop_first();
        assert forall|i: int| 0 <= i < rest.len() implies (#[trigger] rest[i]) as u32 != b by {
            assert(s[i + 1] as u32 != b);
        }
        lemma_no_byte(rest, b);
        let head = encode_scalar(s[0] as u32);
        assert forall|k: int| 0 <= k < encode_utf8(s).len() implies (#[trigger] encode_utf8(s)[k])
            != b by {
            if k < head.len() {
                assert(head[k] != b);
            } else {
                assert(encode_utf8(s)[k] == encode_utf8(rest)[k - head.len()]);
                assert(encode_utf8(rest).contains(encode_utf8(rest)[k - head.len()]));
            }
        }
    }
}

/// A row without a byte stands in two rows with that byte between where it
/// stands in one of the two.
proof fn lemma_split(a: Seq<u8>, b: Seq<u8>, n: Seq<u8>, x: u8)
    requires
        !n.contains(x),
    ensures
        occurs(a + seq![x] + b, n) <==> occurs(a, n) || occurs(b, n),
{
    let h = a + seq![x] + b;
    if occurs(a, n) {
        let p = choose|p: int| #[trigger] occurs_at(a, n, p);
        assert(h.subrange(p, p + n.len()) =~= a.subrange(p, p + n.len()));
        assert(occurs_at(h, n, p));
    }
    if occurs(b, n) {
        let p = choose|p: int| #[trigger] occurs_at(b, n, p);
        let q = p + a.len() + 1;
        assert(h.subrange(q, q + n.len()) =~= b.subrange(p, p + n.len()));
        assert(occurs_at(h, n, q));
    }
    if occurs(h, n) {
        let p = choose|p: int| #[trigger] occurs_at(h, n, p);
        if p + n.len() <= a.len() {
            assert(h.subrange(p, p + n.len()) =~= a.subrange(p, p + n.len()));
            assert(occurs_at(a, n, p));
        } else if p > a.len() {
            let q = p - a.len() - 1;
            assert(h.subrange(p, p + n.len()) =~= b.subrange(q, q + n.len()));
            assert(occurs_at(b, n, q));
        } else {
            if n.len() == 0 {
                assert(a.subrange(0, 0) =~= n);
                assert(occurs_at(a, n, 0));
            } else {
                let k = a.len() - p;
                assert(h.subrange(p, p + n.len())[k] == h[a.len() as int]);
                assert(n[k] == x);
            }
        }
    }
}

/// The same, of texts.
proof fn lemma_split_text(a: Seq<char>, b: Seq<char>, needle: Seq<char>, c: char)
    requires
        (c as u32) < 128,
        !needle.contains(c),
    ensures
        stands_in(a + seq![c] + b, needle) <==> stands_in(a, needle) || stands_in(b, needle),
{
    let x = c as u8;
    let n = encode_utf8(needle);
    assert forall|i: int| 0 <= i < needle.len() implies (#[trigger] needle[i]) as u32 != x by {
        if needle[i] as u32 == x {
            assert(needle[i] as u32 == c as u32);
            vstd::utf8::char_u32_cast(needle[i], c as u32);
            vstd::utf8::char_u32_cast(c, c as u32);
            assert(needle[i] == c);
        }
    }
    lemma_no_byte(needle, x);
    lemma_encode_sum(a + seq![c], b);
    lemma_encode_sum(a, seq![c]);
    assert(vstd::utf8::is_ascii_chars(seq![c]));
    vstd::utf8::is_ascii_chars_encode_utf8(seq![c]);
    assert(encode_utf8(seq![c]) =~= seq![x]);
    lemma_split(encode_utf8(a), encode_utf8(b), n, x);
    lemma_stands(a + seq![c] + b, needle);
    lemma_stands(a, needle);
    lemma_stands(b, needle);
}

/// A carriage return at the end of a piece does not matter.
pub(crate) proof fn lemma_strip(s: Seq<char>, needle: Seq<char>)
    requires
        !needle.contains('\r'),
    ensures
        stands_in(s, needle) <==> stands_in(strip_return(s), needle),
{
    if s.len() > 0 && s.last() == '\r' {
        let e: Seq<char> = Seq::empty();
        assert(s =~= s.drop_last() + seq!['\r'] + e);
        lemma_split_text(s.drop_last(), e, needle, '\r');
        lemma_stands(e, needle);
        lemma_stands(s.drop_last(), needle);
        if stands_in(e, needle) {
            let n = encode_utf8(needle);
            let p = choose|p: int| #[trigger] occurs_at(encode_utf8(e), n, p);
            assert(n.len() == 0);
            assert(encode_utf8(s.drop_last()).subrange(0, 0) =~= n);
            assert(occurs_at(encode_utf8(s.drop_last()), n, 0));
        }
    }
}

/// Whether a text stands in one of several pieces.
pub open spec fn in_a_piece(v: Seq<Seq<char>>, needle: Seq<char>) -> bool {
    exists|k: int| 0 <= k < v.len() && stands_in(#[trigger] v[k], needle)
}

proof fn lemma_front_piece(a: Seq<char>, v: Seq<Seq<char>>, needle: Seq<char>)
    ensures
        in_a_piece(seq![a] + v, needle) <==> stands_in(a, needle) || in_a_piece(v, needle),
{
    let w = seq![a] + v;
    if stands_in(a, needle) {
        assert(w[0] == a);
    }
    if in_a_piece(v, needle) {
        let k = choose|k: int| 0 <= k < v.len() && stands_in(#[trigger] v[k], needle);
        assert(w[k + 1] == v[k]);
    }
    if in_a_piece(w, needle) {
        let k = choose|k: int| 0 <= k < w.len() && stands_in(#[trigger] w[k], needle);
        if k > 0 {
            assert(v[k - 1] == w[k]);
        }
    }
}

/// A text without line breaks stands in a file where it stands in one of the
/// pieces between line feeds, carriage returns at their ends aside.
pub proof fn text_stands_in_a_segment(content: Seq<char>, needle: Seq<char>)
    requires
        !has_break(needle),
    ensures
        stands_in(content, needle) <==> in_a_piece(plain_segments(content), needle),
    decreases content.len(),
{
    let p = |c: char| c != '\n';
    let n = span(content, p) as int;
    lemma_span(content, p);
    let v = plain_segments(content);
    if n < content.len() {
        let a = content.take(n);
        let rest = content.skip(n + 1);
        assert(content[n] == '\n');
        assert(content =~= a + seq!['\n'] + rest);
        lemma_split_text(a, rest, needle, '\n');
        lemma_strip(a, needle);
        text_stands_in_a_segment(rest, needle);
        assert(v =~= seq![strip_return(a)] + plain_segments(rest));
        lemma_front_piece(strip_return(a), plain_segments(rest), needle);
    } else {
        lemma_strip(content, needle);
        let none: Seq<Seq<char>> = Seq::empty();
        assert(v =~= seq![strip_return(content)] + none);
        lemma_front_piece(strip_return(content), none, needle);
    }
}

/// A text that is not empty and has no line breaks stands in a file where it
/// stands in one of the lines.
pub proof fn text_stands_in_a_line(content: Seq<char>, needle: Seq<char>)
    requires
        !has_break(needle),
        needle.len() > 0,
    ensures
        stands_in(content, needle) <==> in_a_piece(lines(content), needle),
    decreases content.len(),
{
    let p = |c: char| c != '\n';
    let n = span(content, p) as int;
    lemma_span(content, p);
    let v = lines(content);
    let none: Seq<Seq<char>> = Seq::empty();
    if content.len() == 0 {
        lemma_stands(content, needle);
        if stands_in(content, needle) {
            let q = choose|q: int| #[trigger]
                occurs_at(encode_utf8(content), encode_utf8(needle), q);
            assert(encode_utf8(needle).len() == 0);
            crate::text::lemma_byte_len_encoding(needle);
            crate::text::lemma_byte_len_bounds(needle);
        }
    } else if n < content.len() {
        let a = content.take(n);
        let rest = content.skip(n + 1);
        assert(content[n] == '\n');
        assert(content =~= a + seq!['\n'] + rest);
        lemma_split_text(a, rest, needle, '\n');
        lemma_strip(a, needle);
        text_stands_in_a_line(rest, needle);
        lemma_front_piece(strip_return(a), lines(rest), needle);
    } else {
        assert(v =~= seq![content] + none);
        lemma_front_piece(content, none, needle);
    }
}

/// There are matches where one of the lines has a spot.
pub proof fn lemma_hits(v: Seq<Seq<char>>, spot: spec_fn(Seq<char>) -> Spot)
    ensures
        hits(v, spot).len() > 0 <==> exists|k: int| 0 <= k < v.len() && spot(#[trigger] v[k]) is Some,
    decreases v.len(),
{
    if v.len() > 0 {
        let front = v.drop_last();
        lemma_hits(front, spot);
        if hits(front, spot).len() > 0 {
            let k = choose|k: int| 0 <= k < front.len() && spot(#[trigger] front[k]) is Some;
            assert(v[k] == front[k]);
        }
        if spot(v.last()) is Some {
            assert(v[v.len() - 1] == v.last());
        }
        if exists|k: int| 0 <= k < v.len() && spot(#[trigger] v[k]) is Some {
            let k = choose|k: int| 0 <= k < v.len() && spot(#[trigger] v[k]) is Some;
            if k < v.len() - 1 {
                assert(front[k] == v[k]);
            }
        }
    }
}

/// A text that is not empty and has no line breaks stands in a file where it
/// stands in one of the lines that match.
pub proof fn lemma_plain_text(content: Seq<char>, text: Seq<char>)
    requires
        text.len() > 0,
        !has_break(text),
    ensures
        stands_in(content, text) <==> literal_hits(content, text, true).len() > 0,
{
    text_stands_in_a_line(content, text);
    let v = lines(content);
    let spot = exact_spot(text);
    lemma_hits(v, spot);
    assert forall|k: int| 0 <= k < v.len() implies (spot(#[trigger] v[k]) is Some <==> stands_in(
        v[k],
        text,
    )) by {}
    if in_a_piece(v, text) {
        let k = choose|k: int| 0 <= k < v.len() && stands_in(#[trigger] v[k], text);
        assert(spot(v[k]) is Some);
    }
    if exists|k: int| 0 <= k < v.len() && spot(#[trigger] v[k]) is Some {
        let k = choose|k: int| 0 <= k < v.len() && spot(#[trigger] v[k]) is Some;
        assert(stands_in(v[k], text));
    }
}

/// A phrase that is not empty and has no line breaks: a file has a matching line,
/// and is listed, exactly where the phrase stands in it.
pub proof fn phrase_is_listed_where_it_stands(content: Seq<char>, text: Seq<char>)
    requires
        text.len() > 0,
        !has_break(text),
    ensures
        check_present(content, CheckModel::Phrase { text, case_insensitive: false })
            <==> stands_in(content, text),
{
    lemma_plain_text(content, text);
}

/// Lower case leaves line breaks where they are.
proof fn lemma_lowered_segments(s: Seq<char>)
    ensures
        plain_segments(lowered(s)) == plain_segments(s).map_values(|t: Seq<char>| lowered(t)),
    decreases s.len(),
{
    let p = |c: char| c != '\n';
    let n = span(s, p) as int;
    lemma_span(s, p);
    let low = lowered(s);
    assert forall|i: int| 0 <= i < s.len() implies (p(#[trigger] low[i]) <==> p(s[i])) by {
        assert(low[i] == ascii_lower(s[i]));
    }
    assert forall|i: int| 0 <= i < n implies p(#[trigger] low[i]) by {
        assert(p(s[i]));
    }
    lemma_span_is(low, p, n);
    let f = |t: Seq<char>| lowered(t);
    if n < s.len() {
        lemma_lowered_segments(s.skip(n + 1));
        assert(low.skip(n + 1) =~= lowered(s.skip(n + 1)));
        assert(low.take(n) =~= lowered(s.take(n)));
        lemma_lowered_strip(s.take(n));
        assert(plain_segments(low) =~= seq![strip_return(low.take(n))] + plain_segments(
            low.skip(n + 1),
        ));
        assert(plain_segments(s) =~= seq![strip_return(s.take(n))] + plain_segments(
            s.skip(n + 1),
        ));
        assert(plain_segments(low) =~= plain_segments(s).map_values(f));
    } else {
        lemma_lowered_strip(s);
        assert(plain_segments(low) =~= seq![strip_return(low)]);
        assert(plain_segments(s) =~= seq![strip_return(s)]);
        assert(plain_segments(low) =~= plain_segments(s).map_values(f));
    }
}

pub(crate) proof fn lemma_lowered_strip(s: Seq<char>)
    ensures
        strip_return(lowered(s)) == lowered(strip_return(s)),
{
    if s.len() > 0 {
        assert(lowered(s).last() == ascii_lower(s.last()));
    }
    assert(strip_return(lowered(s)) =~= lowered(strip_return(s)));
}

/// A text in plain ASCII stands in a file, whatever the case of letters, where
/// it stands in one of the pieces that match.
pub proof fn lemma_ascii_text(content: Seq<char>, text: Seq<char>)
    requires
        ascii_search(content, text),
    ensures
        stands_in(lowered(content), lower_case(text)) <==> literal_hits(
            content,
            text,
            false,
        ).len() > 0,
{
    let low = lower_case(text);
    text_stands_in_a_segment(lowered(content), low);
    lemma_lowered_segments(content);
    let v = plain_segments(content);
    let w = plain_segments(lowered(content));
    let spot = ascii_spot(text);
    lemma_hits(v, spot);
    assert forall|k: int| 0 <= k < v.len() implies (spot(#[trigger] v[k]) is Some <==> stands_in(
        lowered(v[k]),
        low,
    )) by {}
    if in_a_piece(w, low) {
        let k = choose|k: int| 0 <= k < w.len() && stands_in(#[trigger] w[k], low);
        assert(w[k] == lowered(v[k]));
        assert(spot(v[k]) is Some);
    }
    if exists|k: int| 0 <= k < v.len() && spot(#[trigger] v[k]) is Some {
        let k = choose|k: int| 0 <= k < v.len() && spot(#[trigger] v[k]) is Some;
        assert(w[k] == lowered(v[k]));
        assert(stands_in(w[k], low));
    }
}

/// A bare term: a file in which an ASCII term stands in an ASCII line, in some
/// case, has a matching line and is listed, whatever its other lines hold; a
/// file all in ASCII is so exactly where the term stands in it.
pub proof fn term_is_listed_where_it_stands(content: Seq<char>, text: Seq<char>)
    ensures
        is_ascii_chars(text) && (exists|k: int|
            0 <= k < lines(content).len() && is_ascii_chars(#[trigger] lines(content)[k])
                && stands_in(lowered(lines(content)[k]), lowered(text))) ==> check_present(
            content,
            CheckModel::Literal(text),
        ),
        ascii_search(content, text) ==> (check_present(content, CheckModel::Literal(text))
            <==> stands_in(lowered(content), lower_case(text))),
{
    let v = lines(content);
    if ascii_search(content, text) {
        lemma_ascii_text(content, text);
    }
    if is_ascii_chars(text) && exists|k: int|
        0 <= k < v.len() && is_ascii_chars(#[trigger] v[k]) && stands_in(
            lowered(v[k]),
            lowered(text),
        ) {
        let k = choose|k: int|
            0 <= k < v.len() && is_ascii_chars(#[trigger] v[k]) && stands_in(
                lowered(v[k]),
                lowered(text),
            );
        if ascii_search(content, text) {
            lemma_line_piece(content, k);
            lemma_piece_lowered(content, v[k]);
            lemma_piece_occurs(lowered(content), lowered(v[k]));
            lemma_stands(lowered(v[k]), lowered(text));
            lemma_occurs_through(
                encode_utf8(lowered(content)),
                encode_utf8(lowered(v[k])),
                encode_utf8(lowered(text)),
            );
            lemma_stands(lowered(content), lowered(text));
        } else {
            lemma_hits(v, lower_spot(text));
            assert(lower_spot(text)(v[k]) is Some);
        }
    }
}

} // verus!
