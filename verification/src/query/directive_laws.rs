//! A query that gives a filter or option twice is refused.
use crate::query::ast::{ErrorModel, NodeModel, MAX_QUERY_BYTES, MAX_QUERY_NODES};
use crate::query::grammar::{
    all_of, alternatives, any_of, atom, field, field_key, field_named, field_value, meaning,
    primary, repeats, sees_regex, term, term_len, unary, whole_query, Field, FieldKey, ParseState,
};
use crate::query::parse_laws::{
    ends_in, lemma_directive, lemma_ends_in, lemma_field_value, lemma_past_space, lemma_reads_on,
    lemma_skip, lemma_unary, reads_on,
};
use crate::text::{
    ascii_lower, byte_len, lemma_span, lemma_span_is, letter_or_digit, lowered, span, white_space,
};
use vstd::prelude::*;

verus! {

/// Whether reading on from `st` outside of groups comes by `s`, where a term or
/// a field begins; `found` tells whether one comes before in the same
/// alternative.
pub open spec fn comes_by(st: ParseState, found: bool, s: ParseState) -> bool
    decreases st.rest.len(),
{
    let s1 = st.past_space();
    if s1.rest.len() == 0 || s1.sees(')') || s1.rest.len() > st.rest.len() {
        false
    } else if s1.sees('|') {
        found && comes_by(s1.next(), false, s)
    } else {
        s == s1 || match unary(s1) {
            Ok((_, s2)) => s2.rest.len() < s1.rest.len() && comes_by(s2, true, s),
            Err(_) => false,
        }
    }
}

/// A filter or option in a text.
pub struct Given {
    /// Its name in lower case.
    pub name: Seq<char>,
    /// What it takes up.
    pub key: FieldKey,
    /// The state behind its value.
    pub after: ParseState,
}

/// The filter or option that the text goes on with.
pub open spec fn directive_at(st: ParseState) -> Option<Given> {
    let n = span(st.rest, |c: char| letter_or_digit(c) || c == '_') as int;
    let name = lowered(st.rest.take(n));
    if n < st.rest.len() && st.rest[n] == ':' && field_named(name) is Some && field_named(name)->0
        != Field::Near {
        match field_value(st.at(st.rest.skip(n + 1))) {
            Ok((value, after)) if value.len() > 0 => Some(
                Given { name, key: field_key(field_named(name)->0, value), after },
            ),
            _ => None,
        }
    } else {
        None
    }
}

/// The names of fields are of letters, and not short.
proof fn lemma_field_names(name: Seq<char>)
    ensures
        field_named(name) is Some ==> name.len() >= 3 && 'a' <= name[0] <= 'z',
{
    reveal_strlit("path");
    reveal_strlit("file");
    reveal_strlit("name");
    reveal_strlit("ext");
    reveal_strlit("lang");
    reveal_strlit("size");
    reveal_strlit("line");
    reveal_strlit("mtime");
    reveal_strlit("near");
    reveal_strlit("sort");
    reveal_strlit("top");
}

/// Behind white space there is none.
proof fn lemma_no_space(st: ParseState)
    ensures
        ({
            let s = st.past_space();
            s.rest.len() <= st.rest.len() && (s.rest.len() > 0 ==> !white_space(s.rest[0]))
                && s.past_space() == s
        }),
{
    let p = |c: char| white_space(c);
    let s = st.past_space();
    lemma_span(st.rest, p);
    lemma_span(s.rest, p);
    assert(s.rest.skip(0) =~= s.rest);
    if s.rest.len() > 0 {
        assert(s.rest[0] == st.rest[span(st.rest, p) as int]);
        assert(!p(s.rest[0]));
    }
}

/// A filter or option outside of groups is refused where it was given before,
/// and noted where it is taken.
proof fn lemma_directive_read(st: ParseState)
    requires
        st.depth == 0,
        st.unary == 0,
        st.rest.len() > 0,
        ends_in(st.input, st.rest),
        directive_at(st) is Some,
        st.nodes < MAX_QUERY_NODES,
    ensures
        ({
            let Given { name, key, after } = directive_at(st)->0;
            if st.seen.contains(key) {
                unary(st) == Err::<(NodeModel, ParseState), ErrorModel>(
                    after.error("Duplicate "@ + name + " filter/option"@),
                )
            } else {
                unary(st) is Ok ==> unary(st)->Ok_0.1.seen == st.seen.push(key)
                    && unary(st)->Ok_0.1.rest == after.rest
            }
        }),
{
    reveal(atom);
    reveal(term);
    reveal(field);
    let p = |c: char| letter_or_digit(c) || c == '_';
    let n = span(st.rest, p) as int;
    let name = lowered(st.rest.take(n));
    let s0 = ParseState { nodes: st.nodes + 1, ..st };
    lemma_span(st.rest, p);
    lemma_field_names(name);
    assert(p(st.rest[0]) && p(st.rest[1]) && p(st.rest[2]));
    let q = |c: char| white_space(c);
    assert(ascii_lower(st.rest[0]) == name[0]);
    assert(!white_space(st.rest[0]));
    lemma_span(st.rest, q);
    assert(st.rest.skip(0) =~= st.rest);
    assert(s0.past_space() == s0);
    assert(unary(st) == primary(s0));
    assert(primary(s0) == atom(s0));
    assert(atom(s0) == term(s0));
    let begin = s0.at(st.rest.skip(n + 1));
    assert(term(s0) == field(begin, name));
    let plain = st.at(st.rest.skip(n + 1));
    let (value, after) = field_value(plain)->Ok_0;
    assert(field_value(begin) == Ok::<(Seq<char>, ParseState), ErrorModel>(
        (value, begin.at(after.rest)),
    ));
    let s1 = begin.at(after.rest);
    let kind = field_named(name)->0;
    let key = field_key(kind, value);
    if !st.seen.contains(key) {
        let counted = if kind == Field::Sort || kind == Field::Top {
            s1.directives
        } else {
            s1.directives + 1
        };
        lemma_skip(st.rest, n + 1);
        lemma_ends_in(st.input, st.rest, plain.rest);
        lemma_field_value(plain);
        lemma_ends_in(st.input, plain.rest, after.rest);
        lemma_directive(
            ParseState { directives: counted, seen: s1.seen.push(key), ..s1 },
            kind,
            value,
        );
    }
}

/// What reading comes by is further on, as deep, with what was seen before.
proof fn lemma_comes_by(st: ParseState, found: bool, s: ParseState)
    requires
        ends_in(st.input, st.rest),
        comes_by(st, found, s),
    ensures
        reads_on(st, s),
        s.rest.len() > 0,
        s.past_space() == s,
    decreases st.rest.len(),
{
    let s1 = st.past_space();
    lemma_past_space(st);
    lemma_no_space(st);
    lemma_ends_in(st.input, st.rest, s1.rest);
    if s1.sees('|') {
        lemma_skip(s1.rest, 1);
        lemma_ends_in(st.input, s1.rest, s1.next().rest);
        assert(reads_on(s1, s1.next())) by {
            assert(s1.seen =~= s1.seen.take(s1.seen.len() as int));
        }
        lemma_comes_by(s1.next(), false, s);
        lemma_reads_on(st, s1, s1.next());
        lemma_reads_on(st, s1.next(), s);
    } else if s != s1 {
        lemma_unary(s1);
        let s2 = unary(s1)->Ok_0.1;
        lemma_ends_in(st.input, s1.rest, s2.rest);
        lemma_comes_by(s2, true, s);
        lemma_reads_on(st, s1, s2);
        lemma_reads_on(st, s2, s);
    }
}

/// Of two places that reading comes by, the later one is come by from the
/// earlier one.
proof fn lemma_from_first(st: ParseState, found: bool, a: ParseState, b: ParseState)
    requires
        ends_in(st.input, st.rest),
        comes_by(st, found, a),
        comes_by(st, found, b),
        b.rest.len() < a.rest.len(),
    ensures
        unary(a) is Ok,
        comes_by(unary(a)->Ok_0.1, true, b),
        ends_in(st.input, unary(a)->Ok_0.1.rest),
    decreases st.rest.len(),
{
    let s1 = st.past_space();
    lemma_past_space(st);
    lemma_no_space(st);
    lemma_ends_in(st.input, st.rest, s1.rest);
    if s1.sees('|') {
        lemma_skip(s1.rest, 1);
        lemma_ends_in(st.input, s1.rest, s1.next().rest);
        lemma_from_first(s1.next(), false, a, b);
    } else {
        lemma_comes_by(st, found, a);
        lemma_unary(s1);
        if b == s1 {
            let s2 = unary(s1)->Ok_0.1;
            lemma_ends_in(st.input, s1.rest, s2.rest);
            lemma_comes_by(s2, true, a);
            assert(false);
        }
        let s2 = unary(s1)->Ok_0.1;
        lemma_ends_in(st.input, s1.rest, s2.rest);
        if a != s1 {
            lemma_from_first(s2, true, a, b);
        }
    }
}

/// What is refused where reading comes by is refused, or lies in a later
/// alternative.
proof fn lemma_terms_refused(
    nodes: Seq<NodeModel>,
    found: bool,
    st: ParseState,
    s: ParseState,
)
    requires
        comes_by(st, found, s),
        unary(s) is Err,
    ensures
        match all_of(nodes, found, st) {
            Err(e) => e == unary(s)->Err_0,
            Ok((_, s1)) => s1.sees('|') && s1.rest.len() <= st.rest.len() && comes_by(
                s1.next(),
                false,
                s,
            ) && s1.past_space() == s1 && (!found ==> s1.rest.len() < st.rest.len()),
        },
    decreases st.rest.len(),
{
    let s1 = st.past_space();
    lemma_no_space(st);
    if !s1.sees('|') && s != s1 {
        let (n, s2) = unary(s1)->Ok_0;
        lemma_terms_refused(
            if n is Empty {
                nodes
            } else {
                nodes.push(n)
            },
            true,
            s2,
            s,
        );
    }
}

proof fn lemma_alternatives_refused(
    nodes: Seq<NodeModel>,
    before: int,
    st: ParseState,
    s: ParseState,
)
    requires
        st.sees('|'),
        comes_by(st.next(), false, s),
        unary(s) is Err,
    ensures
        alternatives(nodes, before, st) == Err::<(NodeModel, ParseState), ErrorModel>(
            unary(s)->Err_0,
        ),
    decreases st.rest.len(),
{
    let s1 = st.next().past_space();
    lemma_no_space(st.next());
    assert(comes_by(s1, false, s));
    lemma_terms_refused(Seq::empty(), false, s1, s);
    if let Ok((n, s2)) = all_of(Seq::empty(), false, s1) {
        lemma_alternatives_refused(nodes.push(n), before, s2, s);
    }
}

/// What is wrong where reading comes by is what is wrong with the whole query.
pub proof fn errors_outside_groups_are_reported(input: Seq<char>, s: ParseState)
    requires
        byte_len(input) <= MAX_QUERY_BYTES,
        comes_by(ParseState::start(input), false, s),
        unary(s) is Err,
    ensures
        meaning(input) is Err,
        meaning(input)->Err_0 == unary(s)->Err_0,
{
    let start = ParseState::start(input);
    let s0 = start.past_space();
    lemma_no_space(start);
    assert(comes_by(s0, false, s));
    lemma_terms_refused(Seq::empty(), false, s0, s);
    if let Ok((n, s1)) = all_of(Seq::empty(), false, s0) {
        lemma_alternatives_refused(seq![n], s0.directives, s1, s);
    }
    assert(any_of(s0) == Err::<(NodeModel, ParseState), ErrorModel>(unary(s)->Err_0));
    assert(whole_query(input) is Err);
}

/// A query that gives a filter or option twice outside of groups is refused, and
/// told so at the second one, unless it has too many terms before that.
pub proof fn repeated_directives_are_refused(input: Seq<char>, first: ParseState, again: ParseState)
    requires
        byte_len(input) <= MAX_QUERY_BYTES,
        comes_by(ParseState::start(input), false, first),
        comes_by(ParseState::start(input), false, again),
        again.rest.len() < first.rest.len(),
        directive_at(first) is Some,
        directive_at(again) is Some,
        directive_at(first)->0.key == directive_at(again)->0.key,
    ensures
        meaning(input) is Err,
        again.nodes < MAX_QUERY_NODES ==> meaning(input)->Err_0 == directive_at(again)->0.after.error(
            "Duplicate "@ + directive_at(again)->0.name + " filter/option"@,
        ),
{
    let start = ParseState::start(input);
    let key = directive_at(first)->0.key;
    lemma_skip(input, 0);
    assert(input.skip(0) =~= input);
    lemma_comes_by(start, false, first);
    lemma_comes_by(start, false, again);
    lemma_from_first(start, false, first, again);
    let next = unary(first)->Ok_0.1;
    assert(first.nodes < MAX_QUERY_NODES);
    lemma_directive_read(first);
    lemma_unary(first);
    lemma_comes_by(next, true, again);
    assert(next.seen.contains(key)) by {
        if first.seen.contains(key) {
        } else {
            assert(next.seen.last() == key);
        }
    }
    assert(again.seen.contains(key)) by {
        let i = choose|i: int| 0 <= i < next.seen.len() && next.seen[i] == key;
        assert(again.seen.take(next.seen.len() as int)[i] == key);
        assert(again.seen[i] == key);
    }
    if again.nodes < MAX_QUERY_NODES {
        lemma_directive_read(again);
    }
    errors_outside_groups_are_reported(input, again);
}

/// A field that gives a filter or option which was given before, whatever has been
/// read between, is refused. `first` and `again` are the names, in lower case,
/// of the two fields.
pub proof fn a_field_given_twice_is_refused(
    st: ParseState,
    first: Seq<char>,
    s: ParseState,
    again: Seq<char>,
)
    requires
        ends_in(st.input, st.rest),
        field_named(first) is Some && field_named(first)->0 != Field::Near,
        field(st, first) is Ok,
        reads_on(field(st, first)->Ok_0.1, s),
        field_named(again) is Some && field_named(again)->0 != Field::Near,
        field_value(s) is Ok,
        field_value(s)->Ok_0.0.len() > 0,
        field_key(field_named(again)->0, field_value(s)->Ok_0.0) == field_key(
            field_named(first)->0,
            field_value(st)->Ok_0.0,
        ),
    ensures
        repeats(s, again),
        field(s, again) == Err::<(NodeModel, ParseState), ErrorModel>(
            field_value(s)->Ok_0.1.error("Duplicate "@ + again + " filter/option"@),
        ),
{
    reveal(field);
    let (value, s1) = field_value(st)->Ok_0;
    let kind = field_named(first)->0;
    let key = field_key(kind, value);
    lemma_field_value(st);
    lemma_ends_in(st.input, st.rest, s1.rest);
    let counted = if kind == Field::Sort || kind == Field::Top {
        s1.directives
    } else {
        s1.directives + 1
    };
    lemma_directive(
        ParseState { directives: counted, seen: s1.seen.push(key), ..s1 },
        kind,
        value,
    );
    let next = field(st, first)->Ok_0.1;
    assert(next.seen == s1.seen.push(key));
    let n = s1.seen.len() as int;
    assert(next.seen[n] == key);
    assert(s.seen.take(next.seen.len() as int)[n] == key);
    assert(s.seen[n] == key);
    assert(s.seen.contains(key));
}

/// Whether a text is one word that is a term or a field by itself: it has no white
/// space, quotes, bars or parentheses, and opens neither a negation, a boost nor
/// a regular expression.
pub open spec fn is_plain_word(w: Seq<char>) -> bool {
    &&& w.len() > 0
    &&& forall|i: int|
        0 <= i < w.len() ==> !white_space(#[trigger] w[i]) && w[i] != '"' && w[i] != '|' && w[i]
            != '(' && w[i] != ')'
    &&& w[0] != '-' && w[0] != '^'
    &&& !sees_regex(w)
}

/// Words with a space between.
pub open spec fn sentence(words: Seq<Seq<char>>) -> Seq<char>
    decreases words.len(), 1nat,
{
    if words.len() == 0 {
        Seq::empty()
    } else {
        words[0] + after_word(words)
    }
}

/// What follows the first word.
pub open spec fn after_word(words: Seq<Seq<char>>) -> Seq<char>
    decreases words.len(), 0nat,
{
    if words.len() <= 1 {
        Seq::empty()
    } else {
        seq![' '] + sentence(words.drop_first())
    }
}

/// What the filter or option that a word gives by itself takes up.
pub open spec fn given_by(w: Seq<char>) -> Option<FieldKey> {
    match directive_at(ParseState::start(w)) {
        Some(d) => Some(d.key),
        None => None,
    }
}

proof fn lemma_plain_term(w: Seq<char>, tail: Seq<char>)
    requires
        forall|i: int|
            0 <= i < w.len() ==> !white_space(#[trigger] w[i]) && w[i] != '|' && w[i] != '(' && w[i]
                != ')',
        tail.len() == 0 || tail[0] == ' ',
    ensures
        term_len(w + tail, 0) == w.len(),
    decreases w.len(),
{
    let s = w + tail;
    if w.len() == 0 {
        assert(s =~= tail);
    } else {
        assert(s[0] == w[0]);
        assert(s.skip(1) =~= w.skip(1) + tail);
        lemma_plain_term(w.skip(1), tail);
    }
}

/// A word is read as a term or a field.
proof fn lemma_word_is_term(st: ParseState, w: Seq<char>, tail: Seq<char>)
    requires
        st.rest == w + tail,
        is_plain_word(w),
        tail.len() == 0 || tail[0] == ' ',
    ensures
        st.past_space() == st,
        !st.sees('|') && !st.sees(')'),
        unary(st) is Ok ==> unary(st) == term(ParseState { nodes: st.nodes + 1, ..st }),
{
    reveal(atom);
    let q = |c: char| white_space(c);
    assert(st.rest[0] == w[0]);
    lemma_span(st.rest, q);
    assert(st.rest.skip(0) =~= st.rest);
    let s0 = ParseState { nodes: st.nodes + 1, ..st };
    assert(s0.past_space() == s0);
    assert(!sees_regex(st.rest)) by {
        if sees_regex(st.rest) && w.len() < 4 {
            assert(st.rest[w.len() as int] == tail[0]);
        } else if sees_regex(st.rest) {
            assert(w[0] == st.rest[0] && w[1] == st.rest[1] && w[2] == st.rest[2] && w[3]
                == st.rest[3]);
        }
    }
    assert(primary(s0) == atom(s0));
    assert(atom(s0) == term(s0));
}

/// The leading letters of a word, and the value behind them.
proof fn lemma_word_parts(st: ParseState, w: Seq<char>, tail: Seq<char>)
    requires
        st.rest == w + tail,
        is_plain_word(w),
        tail.len() == 0 || tail[0] == ' ',
    ensures
        ({
            let p = |c: char| letter_or_digit(c) || c == '_';
            let n = span(w, p) as int;
            &&& span(st.rest, p) == n
            &&& st.rest.take(n) == w.take(n)
            &&& n <= w.len()
            &&& n < w.len() ==> st.rest[n] == w[n]
            &&& n == w.len() && n < st.rest.len() ==> st.rest[n] == ' '
            &&& n < w.len() ==> field_value(st.at(st.rest.skip(n + 1))) == Ok::<
                (Seq<char>, ParseState),
                ErrorModel,
            >((w.skip(n + 1), st.at(tail)))
        }),
{
    let p = |c: char| letter_or_digit(c) || c == '_';
    let v = |c: char| !white_space(c) && c != '|' && c != ')';
    let n = span(w, p) as int;
    lemma_span(w, p);
    assert(st.rest.take(n) =~= w.take(n));
    assert forall|i: int| 0 <= i < n implies p(#[trigger] st.rest[i]) by {
        assert(p(w[i]));
    }
    assert(n < w.len() ==> st.rest[n] == w[n]);
    lemma_span_is(st.rest, p, n);
    if n < w.len() {
        let value = w.skip(n + 1);
        let begin = st.at(st.rest.skip(n + 1));
        assert(begin.rest =~= value + tail);
        assert forall|i: int| 0 <= i < value.len() implies v(#[trigger] begin.rest[i]) by {
            assert(begin.rest[i] == w[n + 1 + i]);
        }
        assert(value.len() > 0 ==> begin.rest[0] == w[n + 1]);
        lemma_span_is(begin.rest, v, value.len() as int);
        assert(begin.rest.take(value.len() as int) =~= value);
        assert(begin.rest.skip(value.len() as int) =~= tail);
        assert(begin.at(tail) == st.at(tail));
    }
}

/// A word gives what it gives by itself.
proof fn lemma_word_gives(st: ParseState, w: Seq<char>, tail: Seq<char>)
    requires
        st.rest == w + tail,
        is_plain_word(w),
        tail.len() == 0 || tail[0] == ' ',
    ensures
        match directive_at(st) {
            Some(d) => given_by(w) == Some(d.key),
            None => given_by(w) is None,
        },
{
    lemma_word_parts(st, w, tail);
    assert(w + Seq::<char>::empty() =~= w);
    lemma_word_parts(ParseState::start(w), w, Seq::empty());
}

/// A word is read as a whole.
proof fn lemma_word(st: ParseState, w: Seq<char>, tail: Seq<char>)
    requires
        st.rest == w + tail,
        ends_in(st.input, st.rest),
        is_plain_word(w),
        tail.len() == 0 || tail[0] == ' ',
    ensures
        st.past_space() == st,
        !st.sees('|') && !st.sees(')'),
        unary(st) is Ok ==> unary(st)->Ok_0.1.rest == tail,
{
    reveal(term);
    reveal(field);
    lemma_word_is_term(st, w, tail);
    let s0 = ParseState { nodes: st.nodes + 1, ..st };
    lemma_word_parts(s0, w, tail);
    let n = span(w, |c: char| letter_or_digit(c) || c == '_') as int;
    let name = lowered(w.take(n));
    if n < w.len() && w[n] == ':' && field_named(name) is Some {
        let value = w.skip(n + 1);
        let kind = field_named(name)->0;
        let key = field_key(kind, value);
        let s1 = s0.at(tail);
        assert(term(s0) == field(s0.at(s0.rest.skip(n + 1)), name));
        lemma_skip(st.rest, w.len() as int);
        assert(st.rest.skip(w.len() as int) =~= tail);
        lemma_ends_in(st.input, st.rest, tail);
        let directives = if kind == Field::Sort || kind == Field::Top {
            s1.directives
        } else {
            s1.directives + 1
        };
        lemma_directive(
            ParseState { directives, seen: s1.seen.push(key), ..s1 },
            kind,
            value,
        );
    } else {
        lemma_plain_term(w, tail);
        assert(st.rest.skip(w.len() as int) =~= tail);
    }
}

/// Reading words comes by each of them, or by one that is refused.
proof fn lemma_walk(st: ParseState, found: bool, words: Seq<Seq<char>>, k: int) -> (s: ParseState)
    requires
        st.rest == sentence(words) || st.rest == seq![' '] + sentence(words),
        ends_in(st.input, st.rest),
        forall|i: int| 0 <= i < words.len() ==> is_plain_word(#[trigger] words[i]),
        0 <= k < words.len(),
    ensures
        comes_by(st, found, s),
        unary(s) is Err || s.rest == sentence(words.skip(k)),
    decreases words.len(),
{
    let q = |c: char| white_space(c);
    let s1 = st.past_space();
    assert(is_plain_word(words[0]));
    assert(sentence(words)[0] == words[0][0]);
    let n: int = if st.rest == sentence(words) {
        0
    } else {
        1
    };
    assert(st.rest.skip(n) =~= sentence(words));
    assert(n == 0 ==> st.rest[0] == words[0][0]);
    assert(n == 1 ==> st.rest[1] == words[0][0]);
    lemma_span_is(st.rest, q, n);
    lemma_past_space(st);
    lemma_ends_in(st.input, st.rest, s1.rest);
    lemma_word(s1, words[0], after_word(words));
    if k == 0 {
        assert(words.skip(0) =~= words);
        s1
    } else if unary(s1) is Err {
        s1
    } else {
        let s2 = unary(s1)->Ok_0.1;
        let rest = words.drop_first();
        lemma_unary(s1);
        lemma_ends_in(st.input, s1.rest, s2.rest);
        assert forall|i: int| 0 <= i < rest.len() implies is_plain_word(#[trigger] rest[i]) by {
            assert(rest[i] == words[i + 1]);
        }
        let s = lemma_walk(s2, true, rest, k - 1);
        assert(rest.skip(k - 1) =~= words.skip(k));
        s
    }
}

/// Fewer words make a shorter text.
proof fn lemma_shorter(words: Seq<Seq<char>>, i: int, j: int)
    requires
        0 <= i < j <= words.len(),
        forall|k: int| 0 <= k < words.len() ==> is_plain_word(#[trigger] words[k]),
    ensures
        sentence(words.skip(j)).len() < sentence(words.skip(i)).len(),
    decreases j - i,
{
    let from = words.skip(i);
    assert(is_plain_word(words[i]));
    assert(from[0] == words[i]);
    assert(from.drop_first() =~= words.skip(i + 1));
    if i + 1 < j {
        lemma_shorter(words, i + 1, j);
    } else {
        assert(from.len() <= 1 ==> words.skip(j) =~= Seq::<Seq<char>>::empty());
    }
}

/// Of words side by side, no two may give the same filter or option: such a
/// query is refused.
pub proof fn words_that_repeat_a_directive_are_refused(words: Seq<Seq<char>>, i: int, j: int)
    requires
        forall|k: int| 0 <= k < words.len() ==> is_plain_word(#[trigger] words[k]),
        0 <= i < j < words.len(),
        given_by(words[i]) is Some,
        given_by(words[i]) == given_by(words[j]),
    ensures
        meaning(sentence(words)) is Err,
{
    let input = sentence(words);
    let start = ParseState::start(input);
    lemma_skip(input, 0);
    assert(input.skip(0) =~= input);
    let first = lemma_walk(start, false, words, i);
    let again = lemma_walk(start, false, words, j);
    if byte_len(input) <= MAX_QUERY_BYTES {
        if unary(first) is Err {
            errors_outside_groups_are_reported(input, first);
        } else if unary(again) is Err {
            errors_outside_groups_are_reported(input, again);
        } else {
            lemma_comes_by(start, false, first);
            lemma_comes_by(start, false, again);
            lemma_ends_in(input, start.rest, first.rest);
            lemma_ends_in(input, start.rest, again.rest);
            assert(is_plain_word(words[i]));
            assert(is_plain_word(words[j]));
            assert(words.skip(i)[0] == words[i]);
            assert(words.skip(j)[0] == words[j]);
            lemma_word_gives(first, words[i], after_word(words.skip(i)));
            lemma_word_gives(again, words[j], after_word(words.skip(j)));
            lemma_shorter(words, i, j);
            repeated_directives_are_refused(input, first, again);
        }
    }
}

} // verus!
