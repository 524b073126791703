//! How patterns of a command line are taken.
use crate::cli::{pattern_query, without_slashes};
use crate::query::ast::{ErrorModel, NodeModel, QueryModel, MAX_QUERY_BYTES};
use crate::query::grammar::{atom, meaning, regex_body, sees_regex, ParseState};
use crate::query::laws::{just, lemma_one_atom};
use crate::query::outside::has_bracket;
use crate::query::validate::{escaped, is_meta};
use crate::text::{byte_len, lemma_byte_len_concat};
use vstd::prelude::*;

verus! {

/// A character of a text that is taken literally stands with a backslash before
/// it where regular expressions would give it a meaning, and as it is elsewhere.
pub proof fn special_characters_are_escaped(t: Seq<char>, c: char)
    ensures
        "\\.+*?()|[]{}^$#&-~"@.contains(c) ==> escaped(t.push(c)) == escaped(t) + seq!['\\', c],
        !"\\.+*?()|[]{}^$#&-~"@.contains(c) ==> escaped(t.push(c)) == escaped(t).push(c),
{
    let signs = "\\.+*?()|[]{}^$#&-~"@;
    reveal_strlit("\\.+*?()|[]{}^$#&-~");
    assert(signs[0] == '\\' && signs[1] == '.' && signs[2] == '+' && signs[3] == '*' && signs[4]
        == '?' && signs[5] == '(' && signs[6] == ')' && signs[7] == '|' && signs[8] == '['
        && signs[9] == ']' && signs[10] == '{' && signs[11] == '}' && signs[12] == '^' && signs[13]
        == '$' && signs[14] == '#' && signs[15] == '&' && signs[16] == '-' && signs[17] == '~');
    assert(signs.contains(c) <==> is_meta(c));
    assert(t.push(c).drop_last() =~= t);
    assert(escaped(t).push('\\').push(c) =~= escaped(t) + seq!['\\', c]);
}

/// Whether a text has no slash, no backslash and no bracket that opens a class.
pub open spec fn is_plain_pattern(p: Seq<char>) -> bool {
    forall|i: int| 0 <= i < p.len() ==> #[trigger] p[i] != '/' && p[i] != '\\' && p[i] != '['
}

proof fn lemma_no_bracket(p: Seq<char>)
    requires
        is_plain_pattern(p),
    ensures
        !has_bracket(p),
    decreases p.len(),
{
    if p.len() > 0 {
        assert(p[0] != '[' && p[0] != '\\');
        assert forall|i: int| 0 <= i < p.skip(1).len() implies #[trigger] p.skip(1)[i] != '/'
            && p.skip(1)[i] != '\\' && p.skip(1)[i] != '[' by {
            assert(p[i + 1] != '/');
        }
        lemma_no_bracket(p.skip(1));
    }
}

proof fn lemma_plain_body(done: Seq<char>, p: Seq<char>, n: int, after: Seq<char>)
    requires
        0 <= n <= p.len(),
        done == p.take(n),
        is_plain_pattern(p),
    ensures
        regex_body(done, Seq::empty(), p.skip(n) + seq!['/'] + after) == Ok::<
            (Seq<char>, Seq<char>),
            Seq<char>,
        >((p, after)),
    decreases p.len() - n,
{
    let s = p.skip(n) + seq!['/'] + after;
    lemma_no_bracket(p);
    if n == p.len() {
        assert(done =~= p);
        assert(s =~= seq!['/'] + after);
        assert(s.skip(1) =~= after);
    } else {
        assert(s[0] == p[n]);
        assert(s.skip(1) =~= p.skip(n + 1) + seq!['/'] + after);
        assert(done.push(p[n]) =~= p.take(n + 1));
        lemma_plain_body(done.push(p[n]), p, n + 1, after);
    }
}

proof fn lemma_slashes_stay(p: Seq<char>)
    requires
        is_plain_pattern(p),
    ensures
        without_slashes(p) == p,
    decreases p.len(),
{
    if p.len() > 0 {
        assert(p[0] != '/' && p[0] != '\\');
        assert forall|i: int| 0 <= i < p.skip(1).len() implies #[trigger] p.skip(1)[i] != '/'
            && p.skip(1)[i] != '\\' && p.skip(1)[i] != '[' by {
            assert(p[i + 1] != '/');
        }
        lemma_slashes_stay(p.skip(1));
        assert(seq![p[0]] + p.skip(1) =~= p);
    }
}

/// In pattern mode a text is one regular expression as it stands, whatever signs
/// of the query language it holds; so it is with slashes around it in a query.
pub proof fn patterns_are_taken_as_they_are(p: Seq<char>)
    requires
        is_plain_pattern(p),
        byte_len(p) + 5 <= MAX_QUERY_BYTES,
    ensures
        pattern_query(p, false, true) == "re:/"@ + p + "/"@,
        meaning(pattern_query(p, false, true)) == Ok::<QueryModel, ErrorModel>(
            just(NodeModel::Regex(p)),
        ),
        pattern_query(p, false, false) == p,
{
    lemma_slashes_stay(p);
    let input = pattern_query(p, false, true);
    reveal_strlit("re:/");
    reveal_strlit("/");
    assert("re:/"@ =~= seq!['r', 'e', ':', '/']);
    assert("/"@ =~= seq!['/']);
    let st = ParseState { nodes: 1, ..ParseState::start(input) };
    let e: Seq<char> = Seq::empty();
    assert(p.skip(0) =~= p);
    assert(input.skip(4) =~= p.skip(0) + seq!['/'] + e);
    lemma_plain_body(p.take(0), p, 0, e);
    assert(p.take(0) =~= e);
    reveal(atom);
    assert(sees_regex(input));
    assert(!st.sees('"'));
    lemma_byte_len_concat("re:/"@ + p, "/"@);
    lemma_byte_len_concat("re:/"@, p);
    reveal_with_fuel(byte_len, 5);
    lemma_one_atom(input, NodeModel::Regex(p));
}

} // verus!
