//! What holds of queries as a whole: how texts are read, and which files match.
use crate::cli::{pattern_query, spelled_slash, without_slashes};
use crate::query::ast::{
    no_filters, plain_options, ErrorModel, NodeModel, QueryModel, MAX_QUERY_BYTES, MAX_QUERY_NODES,
};
use crate::query::content::{
    check_hits, check_present, exact_spot, lemma_all_hits, lemma_any_hits, pattern_spot,
    regex_compiles,
};
use crate::query::grammar::{
    all_of, alternatives, any_of, atom, conjunction, meaning, phrase, primary, regex_body, reversed,
    sees_regex, term, term_len, unary, whole_query, ClassState, ParseState,
};
use crate::query::outside::{ends_inside, has_bracket};
use crate::query::plan::CheckModel;
use crate::query::validate::{
    at_depth, branches, escaped, first_error, is_meta, own_bytes, root_error, spelled_text,
};
use crate::text::{byte_len, lemma_byte_len_concat, lemma_span, lemma_span_is, span, white_space};
use vstd::prelude::*;

verus! {

/// An accepted query is short enough, has no defect, and its bounds are in order.
pub proof fn accepted_query_is_sound(input: Seq<char>)
    requires
        meaning(input) is Ok,
    ensures
        byte_len(input) <= MAX_QUERY_BYTES,
        meaning(input)->Ok_0.defect() is None,
        !reversed(meaning(input)->Ok_0.filters.size_min, meaning(input)->Ok_0.filters.size_max),
        !reversed(meaning(input)->Ok_0.filters.mtime_min, meaning(input)->Ok_0.filters.mtime_max),
{
}

/// A query that could not be read is refused by whatever checks it, with the
/// same reason.
pub proof fn refused_query_stays_refused(q: QueryModel, e: ErrorModel)
    requires
        q.root == NodeModel::Invalid(e),
    ensures
        q.defect() == Some(e),
{
    let pending = seq![(q.root, 0int)];
    assert(pending.last() == (q.root, 0int));
}

/// The query that asks for one thing and nothing else.
pub open spec fn just(root: NodeModel) -> QueryModel {
    QueryModel { root, filters: no_filters(), options: plain_options() }
}

/// White space alone asks for nothing.
pub proof fn white_space_asks_nothing(input: Seq<char>)
    requires
        byte_len(input) <= MAX_QUERY_BYTES,
        forall|i: int| 0 <= i < input.len() ==> white_space(#[trigger] input[i]),
    ensures
        meaning(input) == Ok::<QueryModel, ErrorModel>(just(NodeModel::Empty)),
{
    let p = |c: char| white_space(c);
    lemma_span_is(input, p, input.len() as int);
    let s0 = ParseState::start(input).past_space();
    assert(s0.rest =~= Seq::<char>::empty());
    lemma_span_is(s0.rest, p, 0);
    assert(s0.past_space().rest =~= Seq::<char>::empty());
    let pending = seq![(NodeModel::Empty, 0int)];
    assert(pending.drop_last() + at_depth(branches(NodeModel::Empty), 1) =~= Seq::<
        (NodeModel, int),
    >::empty());
    assert(first_error(
        pending.drop_last() + at_depth(branches(NodeModel::Empty), 1),
        1,
        own_bytes(NodeModel::Empty) as int,
    ) is None);
}

/// A text between quotes, with a backslash before each quote and backslash.
pub open spec fn quoted(t: Seq<char>) -> Seq<char>
    decreases t.len(),
{
    if t.len() == 0 {
        seq!['"']
    } else if t[0] == '"' || t[0] == '\\' {
        seq!['\\', t[0]] + quoted(t.skip(1))
    } else {
        seq![t[0]] + quoted(t.skip(1))
    }
}

proof fn lemma_phrase(done: Seq<char>, t: Seq<char>)
    ensures
        phrase(done, quoted(t)) == Some((done + t, Seq::<char>::empty())),
    decreases t.len(),
{
    let s = quoted(t);
    if t.len() == 0 {
        assert(done + t =~= done);
        assert(s.skip(1) =~= Seq::<char>::empty());
    } else {
        let rest = quoted(t.skip(1));
        lemma_phrase(done.push(t[0]), t.skip(1));
        assert(done.push(t[0]) + t.skip(1) =~= done + t);
        if t[0] == '"' || t[0] == '\\' {
            assert(s[0] == '\\');
            assert(s[1] == t[0]);
            assert(s.skip(2) =~= rest);
        } else {
            assert(s[0] == t[0]);
            assert(s.skip(1) =~= rest);
        }
    }
}

/// A single tree without branches that is no error and short enough is sound.
proof fn lemma_single(root: NodeModel)
    requires
        branches(root).len() == 0,
        root_error(root) is None,
        own_bytes(root) <= 4 * MAX_QUERY_BYTES,
    ensures
        just(root).defect() is None,
{
    let pending = seq![(root, 0int)];
    assert(pending.last() == (root, 0int));
    assert(pending.drop_last() + at_depth(branches(root), 1) =~= Seq::<(NodeModel, int)>::empty());
    assert(first_error(
        pending.drop_last() + at_depth(branches(root), 1),
        1,
        own_bytes(root) as int,
    ) is None);
}

/// A text that is one atom up to its end means that atom.
pub(crate) proof fn lemma_one_atom(input: Seq<char>, root: NodeModel)
    requires
        byte_len(input) <= MAX_QUERY_BYTES,
        input.len() > 0,
        !white_space(input[0]),
        input[0] != '(',
        input[0] != ')',
        input[0] != '|',
        input[0] != '-',
        input[0] != '^',
        !(root is Empty),
        branches(root).len() == 0,
        root_error(root) is None,
        own_bytes(root) <= 4 * MAX_QUERY_BYTES,
        ({
            let st = ParseState { nodes: 1, ..ParseState::start(input) };
            atom(st) == Ok::<(NodeModel, ParseState), ErrorModel>((root, st.at(Seq::empty())))
        }),
    ensures
        meaning(input) == Ok::<QueryModel, ErrorModel>(just(root)),
{
    let p = |c: char| white_space(c);
    let s0 = ParseState::start(input);
    lemma_span_is(input, p, 0);
    assert(input.skip(0) =~= input);
    assert(s0.past_space() == s0);
    let s1 = ParseState { nodes: 1, ..s0 };
    assert(s1.past_space() == s1);
    let e: Seq<char> = Seq::empty();
    let s2 = s1.at(e);
    assert(primary(s1) == Ok::<(NodeModel, ParseState), ErrorModel>((root, s2)));
    assert(unary(s0) == Ok::<(NodeModel, ParseState), ErrorModel>((root, s2)));
    lemma_span_is(e, p, 0);
    assert(e.skip(0) =~= e);
    assert(s2.past_space() == s2);
    assert(Seq::<NodeModel>::empty().push(root) =~= seq![root]);
    assert(all_of(seq![root], true, s2) == Ok::<(NodeModel, ParseState), ErrorModel>((root, s2)));
    assert(all_of(Seq::empty(), false, s0) == Ok::<(NodeModel, ParseState), ErrorModel>(
        (root, s2),
    ));
    assert(alternatives(seq![root], s0.directives, s2) == Ok::<
        (NodeModel, ParseState),
        ErrorModel,
    >((root, s2)));
    assert(any_of(s0) == Ok::<(NodeModel, ParseState), ErrorModel>((root, s2)));
    assert(whole_query(input) == Ok::<QueryModel, ErrorModel>(just(root)));
    lemma_single(root);
}

/// A text in quotes is a phrase of exactly that text.
pub proof fn quoted_text_is_a_phrase(t: Seq<char>)
    requires
        byte_len(seq!['"'] + quoted(t)) <= MAX_QUERY_BYTES,
    ensures
        meaning(seq!['"'] + quoted(t)) == Ok::<QueryModel, ErrorModel>(just(NodeModel::Phrase(t))),
{
    let input = seq!['"'] + quoted(t);
    let st = ParseState { nodes: 1, ..ParseState::start(input) };
    reveal(atom);
    assert(input.skip(1) =~= quoted(t));
    lemma_phrase(Seq::empty(), t);
    assert(Seq::<char>::empty() + t =~= t);
    lemma_quoted_bytes(t);
    lemma_byte_len_concat(seq!['"'], quoted(t));
    lemma_one_atom(input, NodeModel::Phrase(t));
}

proof fn lemma_quoted_bytes(t: Seq<char>)
    ensures
        byte_len(t) <= byte_len(quoted(t)),
    decreases t.len(),
{
    if t.len() > 0 {
        lemma_quoted_bytes(t.skip(1));
        assert(t =~= seq![t[0]] + t.skip(1));
        lemma_byte_len_concat(seq![t[0]], t.skip(1));
        if t[0] == '"' || t[0] == '\\' {
            lemma_byte_len_concat(seq!['\\', t[0]], quoted(t.skip(1)));
            assert(seq!['\\', t[0]] =~= seq!['\\'] + seq![t[0]]);
            lemma_byte_len_concat(seq!['\\'], seq![t[0]]);
        } else {
            lemma_byte_len_concat(seq![t[0]], quoted(t.skip(1)));
        }
    }
}

/// Escaping goes character by character from the front too.
proof fn lemma_escaped_front(t: Seq<char>)
    requires
        t.len() > 0,
    ensures
        escaped(t) == (if is_meta(t[0]) {
            seq!['\\', t[0]]
        } else {
            seq![t[0]]
        }) + escaped(t.skip(1)),
    decreases t.len(),
{
    let head = if is_meta(t[0]) {
        seq!['\\', t[0]]
    } else {
        seq![t[0]]
    };
    if t.len() == 1 {
        assert(t.drop_last() =~= Seq::<char>::empty());
        assert(t.skip(1) =~= Seq::<char>::empty());
        assert(escaped(t.drop_last()) =~= Seq::<char>::empty());
        assert(escaped(t) =~= head + escaped(t.skip(1)));
    } else {
        let a = t.drop_last();
        lemma_escaped_front(a);
        assert(a.skip(1) =~= t.skip(1).drop_last());
        assert(escaped(t) =~= head + escaped(t.skip(1)));
    }
}

/// The regular expression for a literal text is read back whole.
pub(crate) proof fn lemma_literal_body(done: Seq<char>, p: Seq<char>, after: Seq<char>)
    requires
        !ends_inside(done + without_slashes(escaped(p))),
    ensures
        regex_body(done, Seq::empty(), without_slashes(escaped(p)) + seq!['/'] + after) == Ok::<
            (Seq<char>, Seq<char>),
            Seq<char>,
        >((done + without_slashes(escaped(p)), after)),
    decreases p.len(),
{
    let none: Seq<ClassState> = Seq::empty();
    let e = escaped(p);
    let w = without_slashes(e);
    let s = w + seq!['/'] + after;
    if p.len() == 0 {
        assert(e =~= p);
        assert(w =~= Seq::<char>::empty());
        assert(s =~= seq!['/'] + after);
        assert(done + w =~= done);
        assert(s.skip(1) =~= after);
    } else {
        lemma_escaped_front(p);
        let rest = escaped(p.skip(1));
        let tail = without_slashes(rest);
        let s2 = tail + seq!['/'] + after;
        if is_meta(p[0]) {
            assert(e[0] == '\\' && e[1] == p[0]);
            assert(e.skip(2) =~= rest);
            assert(w == seq!['\\', p[0]] + tail);
            let d = done.push('\\').push(p[0]);
            assert(d + tail =~= done + w);
            lemma_literal_body(d, p.skip(1), after);
            assert(s[0] == '\\' && s[1] == p[0]);
            assert(s.skip(2) =~= s2);
            assert(crate::query::grammar::filled(none) =~= none);
        } else if p[0] == '/' {
            assert(e[0] == '/');
            assert(e.skip(1) =~= rest);
            assert(w == spelled_slash() + tail);
            let d = done.push('\\').push('x').push('2').push('f');
            assert(d + tail =~= done + w);
            lemma_literal_body(d, p.skip(1), after);
            assert(s[0] == '\\' && s[1] == 'x');
            let t1 = s.skip(2);
            assert(t1 =~= seq!['2', 'f'] + s2);
            assert(t1[0] == '2');
            let t2 = t1.skip(1);
            assert(t2 =~= seq!['f'] + s2);
            assert(t2[0] == 'f');
            assert(t2.skip(1) =~= s2);
            assert(crate::query::grammar::filled(none) =~= none);
            assert(regex_body(done.push('\\').push('x').push('2'), none, t2) == regex_body(
                d,
                none,
                s2,
            ));
            assert(regex_body(done.push('\\').push('x'), none, t1) == regex_body(
                done.push('\\').push('x').push('2'),
                none,
                t2,
            ));
        } else {
            assert(e[0] == p[0]);
            assert(e.skip(1) =~= rest);
            assert(w == seq![p[0]] + tail);
            let d = done.push(p[0]);
            assert(d + tail =~= done + w);
            lemma_literal_body(d, p.skip(1), after);
            assert(s[0] == p[0]);
            assert(s.skip(1) =~= s2);
        }
    }
}

/// An escaped text spells the text.
pub proof fn lemma_escaped_spells(t: Seq<char>)
    ensures
        spelled_text(escaped(t)) == Some(t),
    decreases t.len(),
{
    if t.len() == 0 {
        assert(escaped(t) =~= t);
    } else {
        lemma_escaped_front(t);
        let e = escaped(t);
        let rest = escaped(t.skip(1));
        lemma_escaped_spells(t.skip(1));
        assert(t =~= seq![t[0]] + t.skip(1));
        if is_meta(t[0]) {
            assert(e[0] == '\\' && e[1] == t[0]);
            assert(e.skip(2) =~= rest);
        } else {
            assert(e[0] == t[0]);
            assert(e.skip(1) =~= rest);
        }
    }
}

/// So it does with its slashes spelled out, and no bracket in it opens a class.
pub(crate) proof fn lemma_pattern_spells(t: Seq<char>)
    ensures
        spelled_text(without_slashes(escaped(t))) == Some(t),
        !has_bracket(without_slashes(escaped(t))),
    decreases t.len(),
{
    let e = escaped(t);
    let w = without_slashes(e);
    if t.len() == 0 {
        assert(e =~= t);
        assert(w =~= t);
    } else {
        lemma_escaped_front(t);
        let rest = escaped(t.skip(1));
        let tail = without_slashes(rest);
        lemma_pattern_spells(t.skip(1));
        assert(t =~= seq![t[0]] + t.skip(1));
        if is_meta(t[0]) {
            assert(e[0] == '\\' && e[1] == t[0]);
            assert(e.skip(2) =~= rest);
            assert(w == seq!['\\', t[0]] + tail);
            assert(w.skip(2) =~= tail);
        } else if t[0] == '/' {
            assert(e[0] == '/');
            assert(e.skip(1) =~= rest);
            assert(w == spelled_slash() + tail);
            assert(w[0] == '\\' && w[1] == 'x' && w[2] == '2' && w[3] == 'f');
            assert(w.skip(4) =~= tail);
            assert(w.skip(2) =~= seq!['2', 'f'] + tail);
            assert(w.skip(2).skip(1) =~= seq!['f'] + tail);
            assert(w.skip(2).skip(1).skip(1) =~= tail);
            assert(!has_bracket(w.skip(2).skip(1)));
            assert(!has_bracket(w.skip(2)));
        } else {
            assert(e[0] == t[0]);
            assert(e.skip(1) =~= rest);
            assert(w == seq![t[0]] + tail);
            assert(w.skip(1) =~= tail);
        }
    }
}

/// In literal mode a pattern is one regular expression that spells the pattern
/// out, whatever signs of the query language it holds.
pub proof fn fixed_pattern_is_taken_literally(p: Seq<char>)
    requires
        byte_len(pattern_query(p, true, false)) <= MAX_QUERY_BYTES,
    ensures
        meaning(pattern_query(p, true, false)) == Ok::<QueryModel, ErrorModel>(
            just(NodeModel::Regex(without_slashes(escaped(p)))),
        ),
        spelled_text(without_slashes(escaped(p))) == Some(p),
{
    lemma_pattern_spells(p);
    let w = without_slashes(escaped(p));
    let input = pattern_query(p, true, false);
    reveal_strlit("re:/");
    reveal_strlit("/");
    assert("re:/"@ =~= seq!['r', 'e', ':', '/']);
    assert("/"@ =~= seq!['/']);
    let st = ParseState { nodes: 1, ..ParseState::start(input) };
    let e: Seq<char> = Seq::empty();
    assert(input.skip(4) =~= w + seq!['/'] + e);
    lemma_literal_body(Seq::empty(), p, e);
    assert(Seq::<char>::empty() + w =~= w);
    reveal(atom);
    assert(sees_regex(input));
    assert(!st.sees('"'));
    lemma_byte_len_concat("re:/"@ + w, "/"@);
    lemma_byte_len_concat("re:/"@, w);
    lemma_one_atom(input, NodeModel::Regex(w));
}

/// A pattern that spells a text finds what a phrase of the text finds.
pub proof fn spelled_text_is_a_phrase(content: Seq<char>, pattern: Seq<char>, text: Seq<char>)
    requires
        spelled_text(pattern) == Some(text),
        regex_compiles(pattern),
    ensures
        ({
            let phrase = CheckModel::Phrase { text, case_insensitive: false };
            check_hits(content, CheckModel::Regex(pattern)) == check_hits(content, phrase)
        }),
{
    let f = |line: Seq<char>| pattern_spot(pattern, line);
    assert forall|line: Seq<char>| #[trigger] f(line) == exact_spot(text)(line) by {}
    assert(f =~= exact_spot(text));
}

/// A character that has no meaning of its own in a query.
pub open spec fn is_plain(c: char) -> bool {
    !white_space(c) && c != '(' && c != ')' && c != '|' && c != ':' && c != '"'
}

/// A word without signs of the query language.
pub open spec fn is_plain_word(w: Seq<char>) -> bool {
    &&& w.len() > 0
    &&& w[0] != '-'
    &&& w[0] != '^'
    &&& forall|i: int| 0 <= i < w.len() ==> is_plain(#[trigger] w[i])
}

/// Words with a space between.
pub open spec fn spaced(v: Seq<Seq<char>>) -> Seq<char>
    decreases v.len(),
{
    if v.len() == 0 {
        Seq::empty()
    } else if v.len() == 1 {
        v[0]
    } else {
        v[0] + seq![' '] + spaced(v.skip(1))
    }
}

/// Words as terms.
pub open spec fn terms(v: Seq<Seq<char>>) -> Seq<NodeModel> {
    v.map_values(|w: Seq<char>| NodeModel::Literal(w))
}

pub(crate) proof fn lemma_term_len(w: Seq<char>, rest: Seq<char>)
    requires
        forall|i: int| 0 <= i < w.len() ==> is_plain(#[trigger] w[i]),
        rest.len() == 0 || white_space(rest[0]),
    ensures
        term_len(w + rest, 0) == w.len(),
    decreases w.len(),
{
    let s = w + rest;
    if w.len() == 0 {
        assert(s =~= rest);
    } else {
        assert(is_plain(w[0]));
        assert(s[0] == w[0]);
        assert(s.skip(1) =~= w.skip(1) + rest);
        assert forall|i: int| 0 <= i < w.skip(1).len() implies is_plain(
            #[trigger] w.skip(1)[i],
        ) by {
            assert(is_plain(w[i + 1]));
        }
        lemma_term_len(w.skip(1), rest);
    }
}

proof fn lemma_spaced(v: Seq<Seq<char>>)
    requires
        v.len() > 0,
        forall|i: int| 0 <= i < v.len() ==> is_plain_word(#[trigger] v[i]),
    ensures
        spaced(v).len() > 0,
        spaced(v)[0] == v[0][0],
        forall|i: int| 0 <= i < spaced(v).len() ==> (#[trigger] spaced(v)[i]) != ':',
    decreases v.len(),
{
    assert(is_plain_word(v[0]));
    if v.len() > 1 {
        assert forall|i: int| 0 <= i < v.skip(1).len() implies is_plain_word(
            #[trigger] v.skip(1)[i],
        ) by {
            assert(is_plain_word(v[i + 1]));
        }
        lemma_spaced(v.skip(1));
        let s = spaced(v);
        assert forall|i: int| 0 <= i < s.len() implies (#[trigger] s[i]) != ':' by {
            if i < v[0].len() {
                assert(is_plain(v[0][i]));
            } else if i > v[0].len() {
                assert(s[i] == spaced(v.skip(1))[i - v[0].len() - 1]);
            }
        }
    } else {
        assert forall|i: int| 0 <= i < spaced(v).len() implies (#[trigger] spaced(v)[i])
            != ':' by {
            assert(is_plain(v[0][i]));
        }
    }
}

/// Words side by side are read one after the other.
#[verifier::spinoff_prover]
#[verifier::rlimit(60)]
proof fn lemma_words(nodes: Seq<NodeModel>, found: bool, st: ParseState, v: Seq<Seq<char>>)
    requires
        v.len() > 0,
        forall|i: int| 0 <= i < v.len() ==> is_plain_word(#[trigger] v[i]),
        st.past_space().rest == spaced(v),
        st.nodes + v.len() <= MAX_QUERY_NODES,
    ensures
        all_of(nodes, found, st) == Ok::<(NodeModel, ParseState), ErrorModel>(
            (
                conjunction(nodes + terms(v)),
                ParseState { rest: Seq::empty(), nodes: st.nodes + v.len(), ..st },
            ),
        ),
    decreases v.len(),
{
    let p = |c: char| white_space(c);
    let w = v[0];
    let s1 = st.past_space();
    lemma_spaced(v);
    assert(is_plain_word(w));
    assert(is_plain(w[0]));
    assert(s1.rest[0] == w[0]);
    lemma_span_is(s1.rest, p, 0);
    assert(s1.rest.skip(0) =~= s1.rest);
    assert(s1.past_space() == s1);
    let s2 = ParseState { nodes: s1.nodes + 1, ..s1 };
    assert(s2.past_space() == s2);
    let tail = if v.len() == 1 {
        Seq::<char>::empty()
    } else {
        seq![' '] + spaced(v.skip(1))
    };
    assert(s1.rest =~= w + tail);
    lemma_term_len(w, tail);
    let s3 = s2.at(tail);
    assert(s1.rest.take(w.len() as int) =~= w);
    assert(s1.rest.skip(w.len() as int) =~= tail);
    let node = NodeModel::Literal(w);
    reveal(atom);
    reveal(term);
    assert(atom(s2) == Ok::<(NodeModel, ParseState), ErrorModel>((node, s3))) by {
        assert(!s2.sees('"'));
        assert(!sees_regex(s2.rest)) by {
            if s2.rest.len() >= 4 {
                assert(s2.rest[2] != ':');
            }
        }
        let n = span(
            s2.rest,
            |c: char| crate::text::letter_or_digit(c) || c == '_',
        ) as int;
        if n < s2.rest.len() {
            lemma_span(s2.rest, |c: char| crate::text::letter_or_digit(c) || c == '_');
            assert(s2.rest[n] != ':');
        }
    }
    assert(primary(s2) == Ok::<(NodeModel, ParseState), ErrorModel>((node, s3)));
    assert(unary(s1) == Ok::<(NodeModel, ParseState), ErrorModel>((node, s3)));
    assert(s3.rest.len() < s1.rest.len());
    let more = nodes.push(node);
    assert(all_of(nodes, found, st) == all_of(more, true, s3));
    if v.len() == 1 {
        lemma_span_is(tail, p, 0);
        assert(s3.past_space().rest =~= Seq::<char>::empty());
        assert(more =~= nodes + terms(v));
    } else {
        let rest = v.skip(1);
        assert forall|i: int| 0 <= i < rest.len() implies is_plain_word(#[trigger] rest[i]) by {
            assert(is_plain_word(v[i + 1]));
        }
        lemma_spaced(rest);
        assert(is_plain_word(rest[0]));
        assert(is_plain(rest[0][0]));
        assert(tail[1] == rest[0][0]);
        lemma_span_is(tail, p, 1);
        assert(tail.skip(1) =~= spaced(rest));
        lemma_words(more, true, s3, rest);
        assert(more + terms(rest) =~= nodes + terms(v));
    }
}

/// Number of bytes of words together.
pub open spec fn word_bytes(v: Seq<Seq<char>>) -> nat
    decreases v.len(),
{
    if v.len() == 0 {
        0
    } else {
        word_bytes(v.drop_last()) + byte_len(v.last())
    }
}

proof fn lemma_word_bytes_front(v: Seq<Seq<char>>)
    requires
        v.len() > 0,
    ensures
        word_bytes(v) == byte_len(v[0]) + word_bytes(v.skip(1)),
    decreases v.len(),
{
    if v.len() == 1 {
        assert(v.drop_last() =~= Seq::<Seq<char>>::empty());
        assert(v.skip(1) =~= Seq::<Seq<char>>::empty());
    } else {
        lemma_word_bytes_front(v.drop_last());
        assert(v.drop_last().skip(1) =~= v.skip(1).drop_last());
    }
}

proof fn lemma_spaced_bytes(v: Seq<Seq<char>>)
    ensures
        word_bytes(v) <= byte_len(spaced(v)),
    decreases v.len(),
{
    if v.len() == 1 {
        lemma_word_bytes_front(v);
        assert(v.skip(1) =~= Seq::<Seq<char>>::empty());
    } else if v.len() > 1 {
        lemma_word_bytes_front(v);
        lemma_spaced_bytes(v.skip(1));
        lemma_byte_len_concat(v[0] + seq![' '], spaced(v.skip(1)));
        lemma_byte_len_concat(v[0], seq![' ']);
    }
}

/// Terms that are left to check are sound.
proof fn lemma_terms_sound(v: Seq<Seq<char>>, visited: int, bytes: int)
    requires
        0 <= visited,
        visited + v.len() <= 3 * MAX_QUERY_NODES,
        0 <= bytes,
        bytes + word_bytes(v) <= 4 * MAX_QUERY_BYTES,
    ensures
        first_error(at_depth(terms(v), 1), visited, bytes) is None,
    decreases v.len(),
{
    let pending = at_depth(terms(v), 1);
    if v.len() > 0 {
        let node = NodeModel::Literal(v.last());
        assert(pending.last() == (node, 1int));
        let rest = at_depth(terms(v.drop_last()), 1);
        assert(pending.drop_last() + at_depth(branches(node), 2) =~= rest);
        lemma_terms_sound(v.drop_last(), visited + 1, bytes + byte_len(v.last()));
    }
}

/// Words side by side ask for all of them: one alone is a term, several are a
/// conjunction of terms in their order.
pub proof fn words_are_terms(v: Seq<Seq<char>>)
    requires
        0 < v.len() <= MAX_QUERY_NODES,
        forall|i: int| 0 <= i < v.len() ==> is_plain_word(#[trigger] v[i]),
        byte_len(spaced(v)) <= MAX_QUERY_BYTES,
    ensures
        meaning(spaced(v)) == Ok::<QueryModel, ErrorModel>(just(conjunction(terms(v)))),
{
    let p = |c: char| white_space(c);
    let input = spaced(v);
    let s0 = ParseState::start(input);
    lemma_spaced(v);
    assert(is_plain_word(v[0]));
    assert(is_plain(v[0][0]));
    lemma_span_is(input, p, 0);
    assert(input.skip(0) =~= input);
    assert(s0.past_space() == s0);
    lemma_words(Seq::empty(), false, s0, v);
    let root = conjunction(terms(v));
    assert(Seq::<NodeModel>::empty() + terms(v) =~= terms(v));
    let e: Seq<char> = Seq::empty();
    let s1 = ParseState { rest: e, nodes: s0.nodes + v.len(), ..s0 };
    lemma_span_is(e, p, 0);
    assert(e.skip(0) =~= e);
    assert(s1.past_space() == s1);
    assert(alternatives(seq![root], s0.directives, s1) == Ok::<
        (NodeModel, ParseState),
        ErrorModel,
    >((root, s1)));
    assert(any_of(s0) == Ok::<(NodeModel, ParseState), ErrorModel>((root, s1)));
    assert(whole_query(input) == Ok::<QueryModel, ErrorModel>(just(root)));
    lemma_spaced_bytes(v);
    if v.len() == 1 {
        assert(terms(v)[0] == NodeModel::Literal(v[0]));
        lemma_word_bytes_front(v);
        lemma_single(root);
    } else {
        let pending = seq![(root, 0int)];
        assert(pending.last() == (root, 0int));
        assert(pending.drop_last() + at_depth(branches(root), 1) =~= at_depth(terms(v), 1));
        lemma_terms_sound(v, 1, 0);
    }
}

/// A file has matches for several terms together exactly where it has some for
/// each of them.
pub proof fn all_terms_have_to_match(content: Seq<char>, v: Seq<CheckModel>)
    requires
        v.len() > 0,
    ensures
        check_present(content, CheckModel::And(v)) <==> forall|i: int|
            0 <= i < v.len() ==> check_present(content, #[trigger] v[i]),
{
    lemma_all_hits(content, v, v.len());
}

/// A file has matches for one of several alternatives exactly where it has some
/// for at least one of them.
pub proof fn one_alternative_is_enough(content: Seq<char>, v: Seq<CheckModel>)
    ensures
        check_present(content, CheckModel::Or(v)) <==> exists|i: int|
            0 <= i < v.len() && check_present(content, #[trigger] v[i]),
{
    lemma_any_hits(content, v, v.len());
}

/// Negation leaves out exactly the files in which its operand has matches.
pub proof fn negation_excludes_files(content: Seq<char>, inner: CheckModel)
    ensures
        check_present(content, CheckModel::Not(Box::new(inner))) <==> !check_present(
            content,
            inner,
        ),
{
}

/// The order of terms does not change which files match.
pub proof fn order_of_terms_is_free(content: Seq<char>, a: CheckModel, b: CheckModel)
    ensures
        check_present(content, CheckModel::And(seq![a, b])) <==> check_present(
            content,
            CheckModel::And(seq![b, a]),
        ),
{
    let v = seq![a, b];
    let w = seq![b, a];
    all_terms_have_to_match(content, v);
    all_terms_have_to_match(content, w);
    assert(v[0] == w[1] && v[1] == w[0]);
    assert((forall|i: int| 0 <= i < v.len() ==> check_present(content, #[trigger] v[i]))
        <==> check_present(content, v[0]) && check_present(content, v[1]));
    assert((forall|i: int| 0 <= i < w.len() ==> check_present(content, #[trigger] w[i]))
        <==> check_present(content, w[0]) && check_present(content, w[1]));
}

} // verus!
