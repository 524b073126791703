//! What holds of reading any query: errors point at a character, parentheses
//! are balanced, and each filter or option is given once.
use crate::query::ast::{NodeModel, MAX_QUERY_BYTES, MAX_QUERY_DEPTH, MAX_QUERY_NODES};
use crate::query::grammar::{
    all_of, alternatives, any_of, atom, boost_factor, boosted, classes_after, directive, field,
    field_key, field_named, field_value, filled, marked_primary, meaning, near, phrase, primary,
    regex_body, sees_regex, term, term_len, unary, whole_query, ClassState, Field, FieldKey,
    ParseState, Parsed,
};
use crate::query::outside::ends_inside;
use crate::query::tree_laws::{has_no_gaps, is_whole, lemma_are_whole, lemma_whole_query};
use crate::query::validate::{at_depth, branches, first_error, own_bytes, root_error};
use crate::text::{
    byte_len, is_digit, lemma_byte_len_concat, lemma_span, letter_or_digit, lowered, span,
    white_space,
};
use vstd::prelude::*;

verus! {

/// Whether a text ends in another one.
pub open spec fn ends_in(s: Seq<char>, tail: Seq<char>) -> bool {
    tail.len() <= s.len() && tail == s.skip(s.len() - tail.len())
}

/// Whether a number of bytes is that of some first characters of a text.
pub open spec fn is_at_character(text: Seq<char>, offset: nat) -> bool {
    exists|k: int| 0 <= k <= text.len() && offset == byte_len(#[trigger] text.take(k))
}

/// Whether no filter or option is there twice.
pub open spec fn each_once(seen: Seq<FieldKey>) -> bool {
    forall|i: int, j: int| 0 <= i < j < seen.len() ==> #[trigger] seen[i] != #[trigger] seen[j]
}

/// Whether one state comes from another by reading on: it is as deep, further
/// on in the same text, and has the same filters and options and maybe more,
/// none of them twice.
pub open spec fn reads_on(st: ParseState, s: ParseState) -> bool {
    &&& s.input == st.input
    &&& s.depth == st.depth
    &&& s.unary == st.unary
    &&& ends_in(st.rest, s.rest)
    &&& st.seen.len() <= s.seen.len() && st.seen == s.seen.take(st.seen.len() as int)
    &&& each_once(st.seen) ==> each_once(s.seen)
}

/// Whether what is read from a state is a tree with a state further on, or an
/// error that points at a character.
pub open spec fn is_sound(st: ParseState, r: Parsed) -> bool {
    match r {
        Ok((_, s)) => reads_on(st, s),
        Err(e) => is_at_character(st.input, e.offset),
    }
}

pub(crate) proof fn lemma_ends_in(a: Seq<char>, b: Seq<char>, c: Seq<char>)
    requires
        ends_in(a, b),
        ends_in(b, c),
    ensures
        ends_in(a, c),
{
    assert(c =~= a.skip(a.len() - c.len()));
}

pub(crate) proof fn lemma_skip(s: Seq<char>, n: int)
    requires
        0 <= n <= s.len(),
    ensures
        ends_in(s, s.skip(n)),
{
    assert(s.skip(n) =~= s.skip(s.len() - s.skip(n).len()));
}

pub(crate) proof fn lemma_reads_on(a: ParseState, b: ParseState, c: ParseState)
    requires
        reads_on(a, b),
        reads_on(b, c),
    ensures
        reads_on(a, c),
{
    lemma_ends_in(a.rest, b.rest, c.rest);
    assert(a.seen =~= c.seen.take(a.seen.len() as int));
}

/// Reading on within the text alone.
proof fn lemma_at(st: ParseState, rest: Seq<char>)
    requires
        ends_in(st.rest, rest),
    ensures
        reads_on(st, st.at(rest)),
{
    assert(st.seen =~= st.seen.take(st.seen.len() as int));
}

pub(crate) proof fn lemma_past_space(st: ParseState)
    ensures
        reads_on(st, st.past_space()),
{
    let p = |c: char| white_space(c);
    lemma_span(st.rest, p);
    lemma_skip(st.rest, span(st.rest, p) as int);
    lemma_at(st, st.past_space().rest);
}

proof fn lemma_error(input: Seq<char>, st: ParseState, message: Seq<char>)
    requires
        st.input == input,
        ends_in(input, st.rest),
    ensures
        is_at_character(input, st.error(message).offset),
{
    let k = input.len() - st.rest.len();
    assert(input =~= input.take(k) + st.rest);
    lemma_byte_len_concat(input.take(k), st.rest);
}

proof fn lemma_error_at_end(st: ParseState, message: Seq<char>)
    ensures
        is_at_character(st.input, st.error_at_end(message).offset),
{
    assert(Seq::<char>::empty() =~= st.input.skip(st.input.len() as int));
    lemma_error(st.input, st.at(Seq::empty()), message);
}

proof fn lemma_phrase(done: Seq<char>, s: Seq<char>)
    ensures
        match phrase(done, s) {
            Some((_, rest)) => ends_in(s, rest),
            None => true,
        },
    decreases s.len(),
{
    if s.len() == 0 {
    } else if s[0] == '"' {
        lemma_skip(s, 1);
    } else if s[0] == '\\' && s.len() > 1 && (s[1] == '"' || s[1] == '\\') {
        lemma_phrase(done.push(s[1]), s.skip(2));
        lemma_skip(s, 2);
        if let Some((_, rest)) = phrase(done, s) {
            lemma_ends_in(s, s.skip(2), rest);
        }
    } else {
        lemma_phrase(done.push(s[0]), s.skip(1));
        lemma_skip(s, 1);
        if let Some((_, rest)) = phrase(done, s) {
            lemma_ends_in(s, s.skip(1), rest);
        }
    }
}

proof fn lemma_regex_body(done: Seq<char>, classes: Seq<ClassState>, s: Seq<char>)
    ensures
        match regex_body(done, classes, s) {
            Ok((_, rest)) => ends_in(s, rest),
            Err(_) => true,
        },
    decreases s.len(),
{
    if s.len() > 0 {
        lemma_skip(s, 1);
        let step: int = if s[0] == '\\' {
            2
        } else {
            1
        };
        if s[0] == '\\' {
            if s.len() > 1 {
                lemma_skip(s, 2);
                if s[1] == '/' {
                    lemma_regex_body(done.push('/'), filled(classes), s.skip(2));
                } else {
                    lemma_regex_body(done.push('\\').push(s[1]), filled(classes), s.skip(2));
                }
            }
        } else if s[0] == '/' && classes.len() == 0 {
            if ends_inside(done) {
                lemma_regex_body(done.push('/'), seq![ClassState::Filled], s.skip(1));
            }
        } else {
            lemma_regex_body(done.push(s[0]), classes_after(classes, s[0]), s.skip(1));
        }
        if let Ok((_, rest)) = regex_body(done, classes, s) {
            if rest != s.skip(1) {
                lemma_ends_in(s, s.skip(step), rest);
            }
        }
    }
}

proof fn lemma_term_len(s: Seq<char>, parens: nat)
    ensures
        term_len(s, parens) <= s.len(),
    decreases s.len(),
{
    if s.len() > 0 {
        lemma_term_len(s.skip(1), parens);
        lemma_term_len(s.skip(1), parens + 1);
        if parens > 0 {
            lemma_term_len(s.skip(1), (parens - 1) as nat);
        }
    }
}

/// A filter or option changes what has been collected and nothing else.
pub(crate) proof fn lemma_directive(st: ParseState, kind: Field, value: Seq<char>)
    requires
        ends_in(st.input, st.rest),
    ensures
        match directive(st, kind, value) {
            Ok(s) => s.input == st.input && s.depth == st.depth && s.unary == st.unary && s.rest
                == st.rest && s.seen == st.seen,
            Err(e) => is_at_character(st.input, e.offset),
        },
{
    reveal(directive);
    if let Err(e) = directive(st, kind, value) {
        lemma_error(st.input, st, e.message);
        assert(e == st.error(e.message));
    }
}

pub(crate) proof fn lemma_field_value(st: ParseState)
    requires
        ends_in(st.input, st.rest),
    ensures
        match field_value(st) {
            Ok((_, s)) => reads_on(st, s),
            Err(e) => is_at_character(st.input, e.offset),
        },
{
    if st.sees('"') {
        lemma_skip(st.rest, 1);
        lemma_phrase(Seq::empty(), st.rest.skip(1));
        match phrase(Seq::empty(), st.rest.skip(1)) {
            Some((_, rest)) => {
                lemma_ends_in(st.rest, st.rest.skip(1), rest);
                lemma_at(st, rest);
            },
            None => lemma_error_at_end(st, "Unclosed quoted phrase"@),
        }
    } else {
        let p = |c: char| !white_space(c) && c != '|' && c != ')';
        lemma_span(st.rest, p);
        let n = span(st.rest, p) as int;
        lemma_skip(st.rest, n);
        lemma_at(st, st.rest.skip(n));
    }
}

proof fn lemma_field(st: ParseState, name: Seq<char>)
    requires
        ends_in(st.input, st.rest),
    ensures
        is_sound(st, field(st, name)),
{
    reveal(field);
    reveal(near);
    let kind = field_named(name)->0;
    lemma_field_value(st);
    if let Ok((value, s1)) = field_value(st) {
        lemma_ends_in(st.input, st.rest, s1.rest);
        let key = field_key(kind, value);
        match field(st, name) {
            Ok((_, s2)) => {
                if kind != Field::Near {
                    let counted = if kind == Field::Sort || kind == Field::Top {
                        s1.directives
                    } else {
                        s1.directives + 1
                    };
                    let given = ParseState { directives: counted, seen: s1.seen.push(key), ..s1 };
                    lemma_directive(given, kind, value);
                    assert(st.seen =~= s2.seen.take(st.seen.len() as int));
                    if each_once(st.seen) {
                        assert forall|i: int, j: int| 0 <= i < j < s2.seen.len() implies #[trigger] s2.seen[i]
                            != #[trigger] s2.seen[j] by {
                            if j == s1.seen.len() {
                                assert(s1.seen.contains(s1.seen[i]));
                            }
                        }
                    }
                }
            },
            Err(e) => {
                if value.len() > 0 && kind != Field::Near && s1.depth == 0 && s1.unary == 0
                    && !s1.seen.contains(key) {
                    let counted = if kind == Field::Sort || kind == Field::Top {
                        s1.directives
                    } else {
                        s1.directives + 1
                    };
                    let given = ParseState { directives: counted, seen: s1.seen.push(key), ..s1 };
                    lemma_directive(given, kind, value);
                } else {
                    lemma_error(st.input, s1, e.message);
                    assert(e == s1.error(e.message));
                }
            },
        }
    }
}

proof fn lemma_atom(st: ParseState)
    requires
        ends_in(st.input, st.rest),
    ensures
        is_sound(st, atom(st)),
{
    reveal(atom);
    reveal(term);
    if st.sees('"') {
        lemma_skip(st.rest, 1);
        lemma_phrase(Seq::empty(), st.rest.skip(1));
        match phrase(Seq::empty(), st.rest.skip(1)) {
            Some((_, rest)) => {
                lemma_ends_in(st.rest, st.rest.skip(1), rest);
                lemma_at(st, rest);
            },
            None => lemma_error_at_end(st, "Unclosed quoted phrase"@),
        }
    } else if sees_regex(st.rest) {
        lemma_skip(st.rest, 4);
        lemma_regex_body(Seq::empty(), Seq::empty(), st.rest.skip(4));
        match regex_body(Seq::empty(), Seq::empty(), st.rest.skip(4)) {
            Ok((_, rest)) => {
                lemma_ends_in(st.rest, st.rest.skip(4), rest);
                lemma_at(st, rest);
            },
            Err(message) => lemma_error_at_end(st, message),
        }
    } else {
        let p = |c: char| letter_or_digit(c) || c == '_';
        lemma_span(st.rest, p);
        let n = span(st.rest, p) as int;
        let name = lowered(st.rest.take(n));
        if n < st.rest.len() && st.rest[n] == ':' && field_named(name) is Some {
            let s1 = st.at(st.rest.skip(n + 1));
            lemma_skip(st.rest, n + 1);
            lemma_at(st, s1.rest);
            lemma_ends_in(st.input, st.rest, s1.rest);
            lemma_field(s1, name);
            if let Ok((_, s2)) = field(s1, name) {
                lemma_reads_on(st, s1, s2);
            }
        } else {
            lemma_term_len(st.rest, 0);
            let k = term_len(st.rest, 0) as int;
            if k == 0 {
                lemma_error(st.input, st, "Expected a search term"@);
            } else {
                lemma_skip(st.rest, k);
                lemma_at(st, st.rest.skip(k));
            }
        }
    }
}

proof fn lemma_primary(st: ParseState)
    requires
        ends_in(st.input, st.rest),
    ensures
        is_sound(st, primary(st)),
    decreases st.rest.len(), 1nat,
{
    let s1 = st.past_space();
    lemma_past_space(st);
    lemma_ends_in(st.input, st.rest, s1.rest);
    if s1.sees('(') {
        let inner = ParseState { depth: s1.depth + 1, ..s1.next() };
        lemma_skip(s1.rest, 1);
        lemma_ends_in(st.input, s1.rest, inner.rest);
        if s1.depth >= MAX_QUERY_DEPTH {
            lemma_error(st.input, s1.next(), "Query nesting is too deep"@);
        } else {
            lemma_any_of(inner);
            if let Ok((_, s2)) = any_of(inner) {
                let s3 = ParseState { depth: s2.depth - 1, ..s2 };
                lemma_ends_in(st.input, inner.rest, s2.rest);
                if s3.sees(')') {
                    lemma_skip(s2.rest, 1);
                    lemma_ends_in(inner.rest, s2.rest, s3.next().rest);
                    lemma_ends_in(s1.rest, inner.rest, s3.next().rest);
                    lemma_reads_on(st, s1, s3.next());
                } else {
                    lemma_error(st.input, s3, "Unclosed parenthesized expression"@);
                }
            }
        }
    } else {
        lemma_atom(s1);
        if let Ok((_, s2)) = atom(s1) {
            lemma_reads_on(st, s1, s2);
        }
    }
}

proof fn lemma_marked(st: ParseState)
    requires
        ends_in(st.input, st.rest),
    ensures
        is_sound(st, marked_primary(st)),
    decreases st.rest.len(), 2nat,
{
    lemma_primary(ParseState { unary: st.unary + 1, ..st });
}

proof fn lemma_boost(st: ParseState)
    requires
        ends_in(st.input, st.rest),
    ensures
        match boost_factor(st) {
            Ok((_, s)) => reads_on(st, s),
            Err(e) => is_at_character(st.input, e.offset),
        },
{
    reveal(boost_factor);
    let p = |c: char| is_digit(c) || c == '.';
    lemma_span(st.rest, p);
    let n = span(st.rest, p) as int;
    if n < st.rest.len() && st.rest[n] == ':' {
        let s1 = st.at(st.rest.skip(n + 1));
        lemma_skip(st.rest, n + 1);
        lemma_at(st, s1.rest);
        lemma_ends_in(st.input, st.rest, s1.rest);
        if let Err(e) = boost_factor(st) {
            lemma_error(st.input, s1, e.message);
            assert(e == s1.error(e.message));
        }
    } else {
        lemma_skip(st.rest, 0);
        assert(st.rest.skip(0) =~= st.rest);
        lemma_at(st, st.rest);
    }
}

pub(crate) proof fn lemma_unary(st: ParseState)
    requires
        ends_in(st.input, st.rest),
    ensures
        is_sound(st, unary(st)),
    decreases st.rest.len(), 3nat,
{
    let s0 = ParseState { nodes: st.nodes + 1, ..st };
    let s1 = s0.past_space();
    lemma_past_space(s0);
    lemma_ends_in(st.input, st.rest, s1.rest);
    if s0.nodes > MAX_QUERY_NODES {
        lemma_error(st.input, s0, "Query has too many terms"@);
    } else if s1.sees('-') {
        let s2 = s1.next();
        lemma_skip(s1.rest, 1);
        lemma_at(s1, s2.rest);
        lemma_ends_in(st.input, s1.rest, s2.rest);
        lemma_reads_on(s0, s1, s2);
        lemma_marked(s2);
        if let Ok((_, s3)) = marked_primary(s2) {
            lemma_reads_on(s0, s2, s3);
        }
    } else if s1.sees('^') {
        let s2 = s1.next();
        lemma_skip(s1.rest, 1);
        lemma_at(s1, s2.rest);
        lemma_ends_in(st.input, s1.rest, s2.rest);
        lemma_reads_on(s0, s1, s2);
        lemma_boost(s2);
        if let Ok((boost, s3)) = boost_factor(s2) {
            lemma_reads_on(s0, s2, s3);
            lemma_ends_in(st.input, s2.rest, s3.rest);
            if s3.rest.len() < s1.rest.len() {
                lemma_marked(s3);
                if let Ok((n, s4)) = marked_primary(s3) {
                    lemma_reads_on(s0, s3, s4);
                    lemma_ends_in(st.input, s3.rest, s4.rest);
                    if boosted(n, boost) is None {
                        lemma_error(st.input, s4, "Only literals and phrases can be boosted"@);
                    }
                }
            } else {
                lemma_error(st.input, s3, "Expected a search term"@);
            }
        }
    } else {
        lemma_primary(s1);
        if let Ok((_, s2)) = primary(s1) {
            lemma_reads_on(s0, s1, s2);
        }
    }
}

proof fn lemma_all_of(nodes: Seq<NodeModel>, found: bool, st: ParseState)
    requires
        ends_in(st.input, st.rest),
    ensures
        is_sound(st, all_of(nodes, found, st)),
    decreases st.rest.len(), 4nat,
{
    let s1 = st.past_space();
    lemma_past_space(st);
    lemma_ends_in(st.input, st.rest, s1.rest);
    if s1.rest.len() == 0 || s1.sees(')') || s1.sees('|') {
        lemma_error(st.input, s1, "Expected a search term"@);
    } else {
        lemma_unary(s1);
        if let Ok((n, s2)) = unary(s1) {
            lemma_reads_on(st, s1, s2);
            lemma_ends_in(st.input, s1.rest, s2.rest);
            if s2.rest.len() < s1.rest.len() {
                let more = if n is Empty {
                    nodes
                } else {
                    nodes.push(n)
                };
                lemma_all_of(more, true, s2);
                if let Ok((_, s3)) = all_of(more, true, s2) {
                    lemma_reads_on(st, s2, s3);
                }
            } else {
                lemma_error(st.input, s2, "Expected a search term"@);
            }
        }
    }
}

proof fn lemma_alternatives(nodes: Seq<NodeModel>, before: int, st: ParseState)
    requires
        ends_in(st.input, st.rest),
    ensures
        is_sound(st, alternatives(nodes, before, st)),
    decreases st.rest.len(), 5nat,
{
    if st.sees('|') {
        let s0 = st.next();
        let s1 = s0.past_space();
        lemma_skip(st.rest, 1);
        lemma_at(st, s0.rest);
        lemma_past_space(s0);
        lemma_reads_on(st, s0, s1);
        lemma_ends_in(st.input, st.rest, s1.rest);
        lemma_all_of(Seq::empty(), false, s1);
        if let Ok((n, s2)) = all_of(Seq::empty(), false, s1) {
            lemma_reads_on(st, s1, s2);
            lemma_ends_in(st.input, s1.rest, s2.rest);
            if s2.rest.len() < s1.rest.len() {
                let s3 = s2.past_space();
                lemma_past_space(s2);
                lemma_reads_on(st, s2, s3);
                lemma_ends_in(st.input, s2.rest, s3.rest);
                lemma_alternatives(nodes.push(n), before, s3);
                if let Ok((_, s4)) = alternatives(nodes.push(n), before, s3) {
                    lemma_reads_on(st, s3, s4);
                }
            } else {
                lemma_error(st.input, s2, "Expected a search term"@);
            }
        }
    } else {
        lemma_error(
            st.input,
            st,
            "Filters/options are global; write `filter:value (a | b)`"@,
        );
        lemma_skip(st.rest, 0);
        assert(st.rest.skip(0) =~= st.rest);
        lemma_at(st, st.rest);
    }
}

/// Reading alternatives gives a tree with a state further on that is as deep,
/// or an error that points at a character.
pub proof fn lemma_any_of(st: ParseState)
    requires
        ends_in(st.input, st.rest),
    ensures
        is_sound(st, any_of(st)),
    decreases st.rest.len(), 5nat,
{
    lemma_all_of(Seq::empty(), false, st);
    if let Ok((n, s1)) = all_of(Seq::empty(), false, st) {
        lemma_ends_in(st.input, st.rest, s1.rest);
        if s1.rest.len() < st.rest.len() {
            let s2 = s1.past_space();
            lemma_past_space(s1);
            lemma_reads_on(st, s1, s2);
            lemma_ends_in(st.input, s1.rest, s2.rest);
            lemma_alternatives(seq![n], st.directives, s2);
            if let Ok((_, s3)) = alternatives(seq![n], st.directives, s2) {
                lemma_reads_on(st, s2, s3);
            }
        } else {
            lemma_error(st.input, s1, "Expected a search term"@);
        }
    }
}

/// What is wrong with a tree without gaps is said of the query as a whole.
proof fn lemma_tree_error(pending: Seq<(NodeModel, int)>, visited: int, bytes: int)
    requires
        forall|i: int| 0 <= i < pending.len() ==> has_no_gaps((#[trigger] pending[i]).0),
    ensures
        match first_error(pending, visited, bytes) {
            Some(e) => e.offset == 0,
            None => true,
        },
    decreases 3 * MAX_QUERY_NODES + 1 - visited,
{
    if pending.len() > 0 {
        let (node, depth) = pending.last();
        assert(has_no_gaps(pending[pending.len() - 1].0));
        if !(depth > 3 * MAX_QUERY_DEPTH || visited + 1 > 3 * MAX_QUERY_NODES) && root_error(
            node,
        ) is None && bytes + own_bytes(node) <= 4 * MAX_QUERY_BYTES {
            let parts = branches(node);
            let rest = pending.drop_last() + at_depth(parts, depth + 1);
            assert forall|i: int| 0 <= i < rest.len() implies has_no_gaps(
                (#[trigger] rest[i]).0,
            ) by {
                let n = pending.len() - 1;
                if i < n {
                    assert(rest[i] == pending[i]);
                } else {
                    let k = i - n;
                    assert(rest[i].0 == parts[k]);
                    match node {
                        NodeModel::And(v) => lemma_are_whole(v, v.len(), k),
                        NodeModel::Or(v) => {
                            if is_whole(node) {
                                lemma_are_whole(v, v.len(), k);
                            }
                        },
                        _ => {},
                    }
                }
            }
            lemma_tree_error(rest, visited + 1, bytes + own_bytes(node));
        }
    }
}

/// An error points at a character of the query, or right behind the last one.
pub proof fn errors_point_at_a_character(input: Seq<char>)
    requires
        meaning(input) is Err,
    ensures
        is_at_character(input, meaning(input)->Err_0.offset),
{
    assert(input.take(0) =~= Seq::<char>::empty());
    assert(is_at_character(input, byte_len(input.take(0))));
    if byte_len(input) <= MAX_QUERY_BYTES {
        let start = ParseState::start(input);
        let s0 = start.past_space();
        lemma_skip(input, 0);
        assert(input.skip(0) =~= input);
        lemma_past_space(start);
        lemma_any_of(s0);
        let read = if s0.rest.len() == 0 {
            Ok((NodeModel::Empty, s0))
        } else {
            any_of(s0)
        };
        if let Ok((_, s1)) = read {
            let s2 = s1.past_space();
            lemma_past_space(s1);
            if s0.rest.len() > 0 {
                lemma_ends_in(input, s0.rest, s1.rest);
            }
            lemma_ends_in(input, s1.rest, s2.rest);
            lemma_error(input, s2, "Unexpected closing delimiter"@);
            lemma_error(input, s2, "Filter range is empty or reversed"@);
        }
        if let Ok(q) = whole_query(input) {
            lemma_whole_query(input);
            let pending = seq![(q.root, 0int)];
            assert(pending[0].0 == q.root);
            lemma_tree_error(pending, 0, 0);
        }
    }
}

/// Reading a whole query closes every group that it opens, and takes each
/// filter and option once.
pub proof fn directives_are_given_once(input: Seq<char>)
    requires
        any_of(ParseState::start(input)) is Ok,
    ensures
        ({
            let end = any_of(ParseState::start(input))->Ok_0.1;
            end.depth == 0 && end.unary == 0 && each_once(end.seen)
        }),
{
    lemma_skip(input, 0);
    assert(input.skip(0) =~= input);
    lemma_any_of(ParseState::start(input));
}

} // verus!
