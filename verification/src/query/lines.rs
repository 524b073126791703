//! Lines of text, and the first place of one text in another.
use crate::query::ast::texts;
use crate::text::{chars_of, lemma_span, lemma_span_is, span, text_between};
use vstd::prelude::*;

verus! {

/// Whether `n` stands in `h` at a place.
pub open spec fn occurs_at(h: Seq<u8>, n: Seq<u8>, p: int) -> bool {
    0 <= p && p + n.len() <= h.len() && h.subrange(p, p + n.len()) == n
}

/// The first place of `n` in `h` from `p` on.
pub open spec fn first_from(h: Seq<u8>, n: Seq<u8>, p: nat) -> Option<nat>
    decreases h.len() + 1 - p,
{
    if p + n.len() > h.len() {
        None
    } else if occurs_at(h, n, p as int) {
        Some(p)
    } else {
        first_from(h, n, p + 1)
    }
}

/// The first place of `n` in `h`.
pub open spec fn first_at(h: Seq<u8>, n: Seq<u8>) -> Option<nat> {
    first_from(h, n, 0)
}

/// The first place is a place, and there is none before it; without a first
/// place there is none at all.
pub proof fn first_place_is_first(h: Seq<u8>, n: Seq<u8>, p: nat)
    ensures
        match first_from(h, n, p) {
            Some(q) => p <= q && occurs_at(h, n, q as int) && forall|k: int|
                p <= k < q ==> !occurs_at(h, n, k),
            None => forall|k: int| p <= k ==> !occurs_at(h, n, k),
        },
    decreases h.len() + 1 - p,
{
    if p + n.len() <= h.len() && !occurs_at(h, n, p as int) {
        first_place_is_first(h, n, p + 1);
    }
}

/// `memchr::memmem::Finder::find` gives the first place at which the needle
/// stands in the haystack.
#[verifier::external_body]
pub(crate) fn find_bytes(h: &[u8], n: &[u8]) -> (r: Option<usize>)
    ensures
        match r {
            Some(p) => first_at(h@, n@) == Some(p as nat),
            None => first_at(h@, n@) is None,
        },
{
    memchr::memmem::Finder::new(n).find(h)
}

/// The pieces of a text between line feeds.
pub open spec fn segments(s: Seq<char>) -> Seq<Seq<char>>
    decreases s.len(),
{
    let n = span(s, |c: char| c != '\n') as int;
    if n < s.len() {
        seq![s.take(n)] + segments(s.skip(n + 1))
    } else {
        seq![s]
    }
}

/// A piece without a carriage return at its end.
pub open spec fn strip_return(s: Seq<char>) -> Seq<char> {
    if s.len() > 0 && s.last() == '\r' {
        s.drop_last()
    } else {
        s
    }
}

/// The lines of a text: each ends in a line feed, or a carriage return and a
/// line feed, neither of which belongs to it; the last may lack its ending.
pub open spec fn lines(s: Seq<char>) -> Seq<Seq<char>>
    decreases s.len(),
{
    let n = span(s, |c: char| c != '\n') as int;
    if s.len() == 0 {
        Seq::empty()
    } else if n < s.len() {
        seq![strip_return(s.take(n))] + lines(s.skip(n + 1))
    } else {
        seq![s]
    }
}

/// There are at most as many lines as characters.
pub proof fn lemma_line_count(s: Seq<char>)
    ensures
        lines(s).len() <= s.len(),
        1 <= segments(s).len() <= s.len() + 1,
    decreases s.len(),
{
    let n = span(s, |c: char| c != '\n') as int;
    lemma_span(s, |c: char| c != '\n');
    if n < s.len() {
        lemma_line_count(s.skip(n + 1));
    }
}

/// The end of the line that starts at `from`: a line feed or the end.
fn line_end(chars: &Vec<char>, from: usize) -> (end: usize)
    requires
        from <= chars@.len(),
    ensures
        from <= end <= chars@.len(),
        span(chars@.skip(from as int), |c: char| c != '\n') == end - from,
        end < chars@.len() ==> chars@[end as int] == '\n',
{
    let mut end: usize = from;
    while end < chars.len() && chars[end] != '\n'
        invariant
            from <= end <= chars@.len(),
            forall|j: int| from <= j < end ==> chars@[j] != '\n',
        decreases chars@.len() - end,
    {
        end += 1;
    }
    let ghost rest = chars@.skip(from as int);
    let ghost p = |c: char| c != '\n';
    proof {
        assert forall|i: int| 0 <= i < end - from implies p(#[trigger] rest[i]) by {
            assert(chars@[from + i] != '\n');
        }
        lemma_span_is(rest, p, end - from);
    }
    end
}

/// The pieces of a text between line feeds.
pub fn segments_of(content: &str) -> (r: Vec<String>)
    ensures
        texts(r@) == segments(content@),
{
    let chars = chars_of(content);
    let mut out: Vec<String> = Vec::new();
    let mut start: usize = 0;
    assert(chars@.skip(0) =~= chars@);
    assert(texts(out@) + segments(chars@.skip(0)) =~= segments(chars@));
    loop
        invariant
            start <= chars@.len(),
            texts(out@) + segments(chars@.skip(start as int)) == segments(chars@),
            chars@ == content@,
        decreases chars@.len() - start,
    {
        let ghost rest = chars@.skip(start as int);
        let ghost before = out@;
        let end = line_end(&chars, start);
        let piece = text_between(&chars, start, end);
        assert(piece@ =~= rest.take(end - start));
        out.push(piece);
        assert(texts(out@) =~= texts(before).push(piece@));
        if end == chars.len() {
            assert(rest.take(rest.len() as int) =~= rest);
            assert(texts(out@) =~= texts(before) + seq![rest]);
            return out;
        }
        assert(rest.skip(end - start + 1) =~= chars@.skip(end + 1));
        assert(texts(out@) + segments(chars@.skip(end + 1)) =~= texts(before) + (seq![piece@]
            + segments(rest.skip(end - start + 1))));
        start = end + 1;
    }
}

/// The lines of a text.
pub fn lines_of(content: &str) -> (r: Vec<String>)
    ensures
        texts(r@) == lines(content@),
{
    let chars = chars_of(content);
    let mut out: Vec<String> = Vec::new();
    let mut start: usize = 0;
    assert(chars@.skip(0) =~= chars@);
    assert(texts(out@) + lines(chars@.skip(0)) =~= lines(chars@));
    while start < chars.len()
        invariant
            start <= chars@.len(),
            texts(out@) + lines(chars@.skip(start as int)) == lines(chars@),
            chars@ == content@,
        decreases chars@.len() - start,
    {
        let ghost rest = chars@.skip(start as int);
        let ghost before = out@;
        let end = line_end(&chars, start);
        if end == chars.len() {
            let piece = text_between(&chars, start, end);
            assert(piece@ =~= rest);
            out.push(piece);
            assert(texts(out@) =~= texts(before) + seq![rest]);
            return out;
        }
        let stop = if end > start && chars[end - 1] == '\r' {
            end - 1
        } else {
            end
        };
        let piece = text_between(&chars, start, stop);
        assert(piece@ =~= strip_return(rest.take(end - start)));
        out.push(piece);
        assert(texts(out@) =~= texts(before).push(piece@));
        assert(rest.skip(end - start + 1) =~= chars@.skip(end + 1));
        assert(texts(out@) + lines(chars@.skip(end + 1)) =~= texts(before) + (seq![piece@]
            + lines(rest.skip(end - start + 1))));
        start = end + 1;
    }
    assert(texts(out@) + lines(chars@.skip(start as int)) =~= texts(out@));
    out
}

} // verus!
