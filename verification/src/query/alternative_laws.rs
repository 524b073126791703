//! Alternatives of a command line ask for one of them.
use crate::cli::{joined_queries, pattern_queries, pattern_query, without_slashes};
use crate::query::ast::{ErrorModel, NodeModel, QueryModel, MAX_QUERY_BYTES, MAX_QUERY_NODES};
use crate::query::grammar::{
    all_of, alternatives, any_of, atom, meaning, primary, sees_regex, term, term_len, unary,
    whole_query, ParseState,
};
use crate::query::laws::{is_plain, is_plain_word, just, lemma_literal_body, lemma_pattern_spells};
use crate::query::validate::{at_depth, branches, escaped, first_error, own_bytes, root_error};
use crate::text::{
    byte_len, lemma_byte_len_concat, lemma_span, lemma_span_is, letter_or_digit, span, white_space,
};
use vstd::prelude::*;

verus! {

/// Whether a text, in parentheses, is read as a tree without branches.
pub open spec fn reads_as(a: Seq<char>, node: NodeModel) -> bool {
    &&& a.len() > 0 && !white_space(a[0]) && a[0] != '(' && a[0] != ')' && a[0] != '|' && a[0]
        != '-' && a[0] != '^'
    &&& !(node is Empty) && branches(node).len() == 0 && root_error(node) is None
    &&& own_bytes(node) <= byte_len(a)
    &&& forall|st: ParseState|
        #![trigger atom(st)]
        st.rest.len() > a.len() && st.rest.take(a.len() as int) == a && st.rest[a.len() as int]
            == ')' ==> atom(st) == Ok::<(NodeModel, ParseState), ErrorModel>(
            (node, st.at(st.rest.skip(a.len() as int))),
        )
}

/// A text in parentheses.
pub open spec fn grouped(a: Seq<char>) -> Seq<char> {
    seq!['('] + a + seq![')']
}

/// The alternatives after the first.
pub open spec fn others(v: Seq<Seq<char>>) -> Seq<char>
    decreases v.len(),
{
    if v.len() == 0 {
        Seq::empty()
    } else {
        seq![' ', '|', ' '] + grouped(v[0]) + others(v.skip(1))
    }
}

proof fn lemma_others_back(v: Seq<Seq<char>>)
    requires
        v.len() > 0,
    ensures
        others(v) == others(v.drop_last()) + (seq![' ', '|', ' '] + grouped(v.last())),
    decreases v.len(),
{
    let bar = seq![' ', '|', ' '];
    let e: Seq<Seq<char>> = Seq::empty();
    if v.len() == 1 {
        assert(v.skip(1) =~= e);
        assert(v.drop_last() =~= e);
        assert(others(e) =~= Seq::<char>::empty());
        assert(others(v) =~= others(v.drop_last()) + (bar + grouped(v.last())));
    } else {
        lemma_others_back(v.skip(1));
        assert(v.skip(1).drop_last() =~= v.drop_last().skip(1));
        assert(others(v) =~= others(v.drop_last()) + (bar + grouped(v.last())));
    }
}

proof fn lemma_joined(v: Seq<Seq<char>>)
    requires
        v.len() > 0,
    ensures
        joined_queries(v) == grouped(v[0]) + others(v.skip(1)),
    decreases v.len(),
{
    reveal_strlit("(");
    reveal_strlit(")");
    reveal_strlit(" | ");
    assert("("@ =~= seq!['(']);
    assert(")"@ =~= seq![')']);
    assert(" | "@ =~= seq![' ', '|', ' ']);
    let rest = v.skip(1);
    if v.len() == 1 {
        assert(rest =~= Seq::<Seq<char>>::empty());
        assert(joined_queries(v) =~= grouped(v[0]) + others(rest));
    } else {
        lemma_joined(v.drop_last());
        lemma_others_back(rest);
        assert(rest.drop_last() =~= v.drop_last().skip(1));
        assert(joined_queries(v) =~= grouped(v[0]) + others(rest));
    }
}

pub(crate) proof fn lemma_no_space(st: ParseState)
    requires
        st.rest.len() == 0 || !white_space(st.rest[0]),
    ensures
        st.past_space() == st,
{
    lemma_span_is(st.rest, |c: char| white_space(c), 0);
    assert(st.rest.skip(0) =~= st.rest);
}

/// What stands in parentheses is read up to the closing one.
proof fn lemma_inside(st: ParseState, a: Seq<char>, node: NodeModel, tail: Seq<char>)
    requires
        reads_as(a, node),
        st.rest == a + seq![')'] + tail,
        st.nodes + 1 <= MAX_QUERY_NODES,
    ensures
        any_of(st) == Ok::<(NodeModel, ParseState), ErrorModel>(
            (node, ParseState { rest: seq![')'] + tail, nodes: st.nodes + 1, ..st }),
        ),
{
    let s0 = ParseState { nodes: st.nodes + 1, ..st };
    let end = seq![')'] + tail;
    let s2 = ParseState { rest: end, ..s0 };
    assert(st.rest[0] == a[0]);
    lemma_no_space(st);
    lemma_no_space(s0);
    assert(s0.rest.take(a.len() as int) =~= a);
    assert(s0.rest.skip(a.len() as int) =~= end);
    assert(atom(s0) == Ok::<(NodeModel, ParseState), ErrorModel>((node, s2)));
    assert(primary(s0) == Ok::<(NodeModel, ParseState), ErrorModel>((node, s2)));
    assert(unary(st) == Ok::<(NodeModel, ParseState), ErrorModel>((node, s2)));
    assert(s2.rest[0] == ')');
    lemma_no_space(s2);
    let e: Seq<NodeModel> = Seq::empty();
    assert(e.push(node) =~= seq![node]);
    assert(all_of(seq![node], true, s2) == Ok::<(NodeModel, ParseState), ErrorModel>((node, s2)));
    assert(all_of(e, false, st) == Ok::<(NodeModel, ParseState), ErrorModel>((node, s2)));
    assert(alternatives(seq![node], st.directives, s2) == Ok::<
        (NodeModel, ParseState),
        ErrorModel,
    >((node, s2)));
}

/// A group and what may follow it.
proof fn lemma_branch(st: ParseState, a: Seq<char>, node: NodeModel, v: Seq<Seq<char>>)
    requires
        reads_as(a, node),
        st.rest == grouped(a) + others(v),
        st.depth == 0,
        st.nodes + 2 <= MAX_QUERY_NODES,
    ensures
        all_of(Seq::empty(), false, st) == Ok::<(NodeModel, ParseState), ErrorModel>(
            (
                node,
                ParseState {
                    rest: if v.len() == 0 {
                        Seq::empty()
                    } else {
                        others(v).skip(1)
                    },
                    nodes: st.nodes + 2,
                    ..st
                },
            ),
        ),
{
    let tail = others(v);
    let s0 = ParseState { nodes: st.nodes + 1, ..st };
    assert(st.rest[0] == '(');
    lemma_no_space(st);
    lemma_no_space(s0);
    let s1 = ParseState { depth: 1, ..s0.next() };
    assert(s0.rest.skip(1) =~= a + seq![')'] + tail);
    lemma_inside(s1, a, node, tail);
    let s2 = ParseState { rest: seq![')'] + tail, nodes: st.nodes + 2, ..s1 };
    let s3 = ParseState { depth: 0, ..s2 };
    assert(s3.rest[0] == ')');
    let s4 = s3.next();
    assert(s3.rest.skip(1) =~= tail);
    assert(primary(s0) == Ok::<(NodeModel, ParseState), ErrorModel>((node, s4)));
    assert(unary(st) == Ok::<(NodeModel, ParseState), ErrorModel>((node, s4)));
    let e: Seq<NodeModel> = Seq::empty();
    assert(e.push(node) =~= seq![node]);
    if v.len() == 0 {
        lemma_no_space(s4);
    } else {
        assert(tail[0] == ' ' && tail[1] == '|');
        lemma_span_is(tail, |c: char| white_space(c), 1);
        assert(s4.past_space().rest[0] == '|');
    }
    assert(all_of(seq![node], true, s4) == Ok::<(NodeModel, ParseState), ErrorModel>(
        (node, s4.past_space()),
    ));
}

/// The alternatives after the first are read one after the other.
proof fn lemma_choice(
    done: Seq<NodeModel>,
    before: int,
    st: ParseState,
    v: Seq<Seq<char>>,
    nodes: Seq<NodeModel>,
)
    requires
        v.len() == nodes.len(),
        forall|i: int| 0 <= i < v.len() ==> reads_as(v[i], #[trigger] nodes[i]),
        done.len() > 0,
        done.len() + v.len() > 1,
        st.depth == 0,
        st.directives == before,
        st.nodes + 2 * v.len() <= MAX_QUERY_NODES,
        st.rest == if v.len() == 0 {
            Seq::empty()
        } else {
            others(v).skip(1)
        },
    ensures
        alternatives(done, before, st) == Ok::<(NodeModel, ParseState), ErrorModel>(
            (
                NodeModel::Or(done + nodes),
                ParseState { rest: Seq::empty(), nodes: st.nodes + 2 * v.len(), ..st },
            ),
        ),
    decreases v.len(),
{
    if v.len() == 0 {
        assert(done + nodes =~= done);
    } else {
        let rest = v.skip(1);
        let all = others(v);
        assert(reads_as(v[0], nodes[0]));
        assert(st.rest[0] == '|');
        let s0 = st.next();
        assert(s0.rest =~= seq![' '] + grouped(v[0]) + others(rest));
        assert(s0.rest[0] == ' ' && s0.rest[1] == '(');
        lemma_span_is(s0.rest, |c: char| white_space(c), 1);
        let s1 = s0.past_space();
        assert(s1.rest =~= grouped(v[0]) + others(rest));
        lemma_branch(s1, v[0], nodes[0], rest);
        let s2 = ParseState {
            rest: if rest.len() == 0 {
                Seq::empty()
            } else {
                others(rest).skip(1)
            },
            nodes: st.nodes + 2,
            ..st
        };
        if rest.len() > 0 {
            assert(s2.rest[0] == '|');
        }
        lemma_no_space(s2);
        let tails = nodes.skip(1);
        assert forall|i: int| 0 <= i < rest.len() implies reads_as(rest[i], #[trigger] tails[i]) by {
            assert(reads_as(v[i + 1], nodes[i + 1]));
        }
        lemma_choice(done.push(nodes[0]), before, s2, rest, tails);
        assert(done.push(nodes[0]) + tails =~= done + nodes);
        assert(s2.rest.len() < s1.rest.len());
    }
}

/// Number of bytes of trees together.
spec fn node_bytes(nodes: Seq<NodeModel>) -> nat
    decreases nodes.len(),
{
    if nodes.len() == 0 {
        0
    } else {
        node_bytes(nodes.drop_last()) + own_bytes(nodes.last())
    }
}

proof fn lemma_joined_bytes(v: Seq<Seq<char>>, nodes: Seq<NodeModel>)
    requires
        v.len() == nodes.len(),
        forall|i: int| 0 <= i < v.len() ==> reads_as(v[i], #[trigger] nodes[i]),
    ensures
        node_bytes(nodes) <= byte_len(joined_queries(v)),
    decreases v.len(),
{
    if v.len() > 0 {
        let front = v.drop_last();
        let last = "("@ + v.last() + ")"@;
        assert(reads_as(v.last(), nodes[v.len() - 1]));
        lemma_byte_len_concat("("@ + v.last(), ")"@);
        lemma_byte_len_concat("("@, v.last());
        if v.len() == 1 {
            assert(node_bytes(nodes.drop_last()) == 0);
            assert(v[0] == v.last());
        } else {
            assert forall|i: int| 0 <= i < front.len() implies reads_as(
                front[i],
                #[trigger] nodes.drop_last()[i],
            ) by {
                assert(reads_as(v[i], nodes[i]));
            }
            lemma_joined_bytes(front, nodes.drop_last());
            lemma_byte_len_concat(joined_queries(front) + " | "@, last);
            lemma_byte_len_concat(joined_queries(front), " | "@);
        }
    }
}

/// Trees without branches that are left to check are sound.
proof fn lemma_leaves_sound(nodes: Seq<NodeModel>, visited: int, bytes: int)
    requires
        0 <= visited,
        visited + nodes.len() <= 3 * MAX_QUERY_NODES,
        0 <= bytes,
        bytes + node_bytes(nodes) <= 4 * MAX_QUERY_BYTES,
        forall|i: int|
            0 <= i < nodes.len() ==> branches(#[trigger] nodes[i]).len() == 0 && root_error(
                nodes[i],
            ) is None,
    ensures
        first_error(at_depth(nodes, 1), visited, bytes) is None,
    decreases nodes.len(),
{
    let pending = at_depth(nodes, 1);
    if nodes.len() > 0 {
        let node = nodes.last();
        assert(pending.last() == (node, 1int));
        assert(branches(nodes[nodes.len() - 1]).len() == 0);
        let rest = at_depth(nodes.drop_last(), 1);
        assert(pending.drop_last() + at_depth(branches(node), 2) =~= rest);
        assert forall|i: int| 0 <= i < nodes.drop_last().len() implies branches(
            #[trigger] nodes.drop_last()[i],
        ).len() == 0 && root_error(nodes.drop_last()[i]) is None by {
            assert(branches(nodes[i]).len() == 0);
        }
        lemma_leaves_sound(nodes.drop_last(), visited + 1, bytes + own_bytes(node));
    }
}

/// Several texts that are read as single trees, in parentheses with bars between
/// them, ask for one of the trees.
pub proof fn alternatives_ask_for_one(v: Seq<Seq<char>>, nodes: Seq<NodeModel>)
    requires
        2 <= v.len() == nodes.len(),
        2 * v.len() <= MAX_QUERY_NODES,
        forall|i: int| 0 <= i < v.len() ==> reads_as(v[i], #[trigger] nodes[i]),
        byte_len(joined_queries(v)) <= MAX_QUERY_BYTES,
    ensures
        meaning(joined_queries(v)) == Ok::<QueryModel, ErrorModel>(just(NodeModel::Or(nodes))),
{
    let input = joined_queries(v);
    let rest = v.skip(1);
    let tails = nodes.skip(1);
    let root = NodeModel::Or(nodes);
    let s0 = ParseState::start(input);
    lemma_joined(v);
    assert(reads_as(v[0], nodes[0]));
    assert(input[0] == '(');
    lemma_no_space(s0);
    lemma_branch(s0, v[0], nodes[0], rest);
    let s1 = ParseState { rest: others(rest).skip(1), nodes: 2, ..s0 };
    assert(s1.rest[0] == '|');
    lemma_no_space(s1);
    assert forall|i: int| 0 <= i < rest.len() implies reads_as(rest[i], #[trigger] tails[i]) by {
        assert(reads_as(v[i + 1], nodes[i + 1]));
    }
    lemma_choice(seq![nodes[0]], 0, s1, rest, tails);
    assert(seq![nodes[0]] + tails =~= nodes);
    let s2 = ParseState { rest: Seq::empty(), nodes: 2 * v.len() as int, ..s0 };
    assert(s1.rest.len() < s0.rest.len());
    assert(any_of(s0) == Ok::<(NodeModel, ParseState), ErrorModel>((root, s2)));
    lemma_no_space(s2);
    assert(whole_query(input) == Ok::<QueryModel, ErrorModel>(just(root)));
    let pending = seq![(root, 0int)];
    assert(pending.last() == (root, 0int));
    assert(pending.drop_last() + at_depth(branches(root), 1) =~= at_depth(nodes, 1));
    lemma_joined_bytes(v, nodes);
    assert forall|i: int| 0 <= i < nodes.len() implies branches(#[trigger] nodes[i]).len() == 0
        && root_error(nodes[i]) is None by {
        assert(reads_as(v[i], nodes[i]));
    }
    lemma_leaves_sound(nodes, 1, 0);
}

/// A word without signs of the query language is read as a term.
pub proof fn plain_word_reads_as_a_term(w: Seq<char>)
    requires
        is_plain_word(w),
    ensures
        reads_as(w, NodeModel::Literal(w)),
{
    let n = w.len() as int;
    assert(is_plain(w[0]));
    assert forall|st: ParseState|
        #![trigger atom(st)]
        st.rest.len() > w.len() && st.rest.take(n) == w && st.rest[n] == ')' implies atom(st)
        == Ok::<(NodeModel, ParseState), ErrorModel>(
        (NodeModel::Literal(w), st.at(st.rest.skip(n))),
    ) by {
        reveal(atom);
        reveal(term);
        let s = st.rest;
        assert forall|i: int| 0 <= i < n implies is_plain(#[trigger] s[i]) by {
            assert(s.take(n)[i] == s[i]);
            assert(is_plain(w[i]));
        }
        assert(!sees_regex(s)) by {
            if s.len() >= 4 && n > 2 {
                assert(is_plain(s[2]));
            }
        }
        let p = |c: char| letter_or_digit(c) || c == '_';
        let k = span(s, p) as int;
        lemma_span(s, p);
        if k < n {
            assert(is_plain(s[k]));
        } else if k > n {
            assert(p(s[n]));
        }
        lemma_term_ends(s, n);
        assert(is_plain(s[0]));
    }
}

proof fn lemma_term_ends(s: Seq<char>, n: int)
    requires
        0 <= n < s.len(),
        s[n] == ')',
        forall|i: int| 0 <= i < n ==> is_plain(#[trigger] s[i]),
    ensures
        term_len(s, 0) == n,
    decreases n,
{
    if n > 0 {
        let rest = s.skip(1);
        assert(is_plain(s[0]));
        assert forall|i: int| 0 <= i < n - 1 implies is_plain(#[trigger] rest[i]) by {
            assert(is_plain(s[i + 1]));
        }
        lemma_term_ends(rest, n - 1);
    }
}

/// The query of a pattern in literal mode is read as the expression that spells
/// the pattern.
pub proof fn fixed_pattern_reads_as_its_text(p: Seq<char>)
    ensures
        reads_as(
            pattern_query(p, true, false),
            NodeModel::Regex(without_slashes(escaped(p))),
        ),
{
    let w = without_slashes(escaped(p));
    let a = pattern_query(p, true, false);
    let node = NodeModel::Regex(w);
    let n = a.len() as int;
    lemma_pattern_spells(p);
    reveal_strlit("re:/");
    reveal_strlit("/");
    assert("re:/"@ =~= seq!['r', 'e', ':', '/']);
    assert("/"@ =~= seq!['/']);
    lemma_byte_len_concat("re:/"@ + w, "/"@);
    lemma_byte_len_concat("re:/"@, w);
    assert forall|st: ParseState|
        #![trigger atom(st)]
        st.rest.len() > a.len() && st.rest.take(n) == a && st.rest[n] == ')' implies atom(st)
        == Ok::<(NodeModel, ParseState), ErrorModel>((node, st.at(st.rest.skip(n)))) by {
        reveal(atom);
        let s = st.rest;
        let after = s.skip(n);
        assert(s =~= s.take(n) + after);
        assert(s[0] == 'r' && s[1] == 'e' && s[2] == ':' && s[3] == '/');
        assert(s.skip(4) =~= w + seq!['/'] + after);
        let e: Seq<char> = Seq::empty();
        assert(e + w =~= w);
        lemma_literal_body(e, p, after);
    }
}

/// Alternatives in literal mode ask for one of the texts.
pub proof fn fixed_patterns_ask_for_one(v: Seq<Seq<char>>)
    requires
        2 <= v.len(),
        2 * v.len() <= MAX_QUERY_NODES,
        byte_len(joined_queries(pattern_queries(v, true, false))) <= MAX_QUERY_BYTES,
    ensures
        meaning(joined_queries(pattern_queries(v, true, false))) == Ok::<QueryModel, ErrorModel>(
            just(
                NodeModel::Or(
                    v.map_values(
                        |p: Seq<char>| NodeModel::Regex(without_slashes(escaped(p))),
                    ),
                ),
            ),
        ),
{
    let nodes = v.map_values(|p: Seq<char>| NodeModel::Regex(without_slashes(escaped(p))));
    let texts = pattern_queries(v, true, false);
    assert forall|i: int| 0 <= i < v.len() implies reads_as(texts[i], #[trigger] nodes[i]) by {
        fixed_pattern_reads_as_its_text(v[i]);
    }
    alternatives_ask_for_one(texts, nodes);
}

} // verus!
