//! A query that is accepted has no gaps in its tree.
use crate::query::ast::NodeModel;
use crate::query::grammar::{
    all_of, alternatives, any_of, atom, boost_factor, directive, field, marked_primary, meaning,
    near, primary, term, unary, whole_query, ParseState, Parsed,
};
use crate::query::planner::{planned, planned_all, planned_any};
use crate::text::{lemma_span, letter_or_digit, lowered, span};
use vstd::prelude::*;

verus! {

broadcast use lemma_span;

/// Whether a tree asks for something in each of its branches.
pub open spec fn is_whole(node: NodeModel) -> bool
    decreases node, 0nat,
{
    match node {
        NodeModel::Empty => false,
        NodeModel::Invalid(_) => false,
        NodeModel::And(v) => v.len() > 0 && are_whole(v, v.len()),
        NodeModel::Or(v) => v.len() > 0 && are_whole(v, v.len()),
        NodeModel::Not(n) => is_whole(*n),
        _ => true,
    }
}

/// Whether the first `n` trees do.
pub open spec fn are_whole(v: Seq<NodeModel>, n: nat) -> bool
    decreases v, n,
{
    n == 0 || n > v.len() || (are_whole(v, (n - 1) as nat) && is_whole(v[n - 1]))
}

/// Whether a tree is whole or empty.
pub open spec fn is_whole_or_empty(node: NodeModel) -> bool {
    node is Empty || is_whole(node)
}

/// Whether a tree has no gaps: it is empty, or whole, or its alternatives are.
pub open spec fn has_no_gaps(node: NodeModel) -> bool {
    is_whole_or_empty(node) || (node is Or && forall|k: int|
        0 <= k < node->Or_0.len() ==> is_whole_or_empty(#[trigger] node->Or_0[k]))
}

/// Whether a filter or option cannot stand here: inside a group, a negation or a
/// boost.
spec fn is_inside(st: ParseState) -> bool {
    st.depth != 0 || st.unary != 0
}

/// Whether reading went as deep as it came back, and gave a tree without gaps.
spec fn reads_whole(st: ParseState, p: Parsed) -> bool {
    p matches Ok((n, s)) ==> s.depth == st.depth && s.unary == st.unary && (is_inside(st)
        ==> is_whole(n)) && is_whole_or_empty(n)
}

proof fn lemma_field(st: ParseState, name: Seq<char>)
    ensures
        reads_whole(st, field(st, name)),
{
    reveal(field);
    reveal(near);
    reveal(directive);
}

proof fn lemma_atom(st: ParseState)
    ensures
        reads_whole(st, atom(st)),
{
    reveal(atom);
    reveal(term);
    let k = span(st.rest, |c: char| letter_or_digit(c) || c == '_') as int;
    lemma_field(st.at(st.rest.skip(k + 1)), lowered(st.rest.take(k)));
}

proof fn lemma_primary(st: ParseState)
    requires
        st.depth >= 0,
        st.unary >= 0,
    ensures
        reads_whole(st, primary(st)),
    decreases st.rest.len(), 1nat,
{
    let s1 = st.past_space();
    if s1.sees('(') {
        lemma_any_of(ParseState { depth: s1.depth + 1, ..s1.next() });
    } else {
        lemma_atom(s1);
    }
}

proof fn lemma_marked_primary(st: ParseState)
    requires
        st.depth >= 0,
        st.unary >= 0,
    ensures
        reads_whole(st, marked_primary(st)),
        marked_primary(st) matches Ok((n, s)) ==> is_whole(n),
    decreases st.rest.len(), 2nat,
{
    lemma_primary(ParseState { unary: st.unary + 1, ..st });
}

proof fn lemma_unary(st: ParseState)
    requires
        st.depth >= 0,
        st.unary >= 0,
    ensures
        reads_whole(st, unary(st)),
    decreases st.rest.len(), 3nat,
{
    let s0 = ParseState { nodes: st.nodes + 1, ..st };
    let s1 = s0.past_space();
    if s1.sees('-') {
        lemma_marked_primary(s1.next());
    } else if s1.sees('^') {
        reveal(boost_factor);
        match boost_factor(s1.next()) {
            Err(e) => {},
            Ok((boost, s2)) => {
                if s2.rest.len() < s1.rest.len() {
                    lemma_marked_primary(s2);
                }
            },
        }
    } else {
        lemma_primary(s1);
    }
}

proof fn lemma_push_whole(v: Seq<NodeModel>, x: NodeModel, n: nat)
    requires
        n <= v.len(),
        are_whole(v, n),
    ensures
        are_whole(v.push(x), n),
    decreases n,
{
    if n > 0 {
        lemma_push_whole(v, x, (n - 1) as nat);
    }
}

proof fn lemma_all_of(nodes: Seq<NodeModel>, found: bool, st: ParseState)
    requires
        st.depth >= 0,
        st.unary >= 0,
        are_whole(nodes, nodes.len()),
        is_inside(st) && found ==> nodes.len() > 0,
    ensures
        reads_whole(st, all_of(nodes, found, st)),
    decreases st.rest.len(), 4nat,
{
    reveal_with_fuel(are_whole, 2);
    let s1 = st.past_space();
    if s1.rest.len() == 0 || s1.sees(')') || s1.sees('|') {
    } else {
        lemma_unary(s1);
        match unary(s1) {
            Err(e) => {},
            Ok((n, s2)) => {
                if s2.rest.len() < s1.rest.len() {
                    if n is Empty {
                        lemma_all_of(nodes, true, s2);
                    } else {
                        lemma_push_whole(nodes, n, nodes.len());
                        lemma_all_of(nodes.push(n), true, s2);
                    }
                }
            },
        }
    }
}

/// The same of alternatives, which may be empty where filters can stand.
spec fn reads_choice(st: ParseState, p: Parsed) -> bool {
    p matches Ok((n, s)) ==> s.depth == st.depth && s.unary == st.unary && (is_inside(st)
        ==> is_whole(n)) && has_no_gaps(n)
}

proof fn lemma_alternatives(nodes: Seq<NodeModel>, before: int, st: ParseState)
    requires
        st.depth >= 0,
        st.unary >= 0,
        nodes.len() > 0,
        forall|k: int| 0 <= k < nodes.len() ==> is_whole_or_empty(#[trigger] nodes[k]),
        is_inside(st) ==> are_whole(nodes, nodes.len()),
    ensures
        reads_choice(st, alternatives(nodes, before, st)),
    decreases st.rest.len(), 5nat,
{
    reveal_with_fuel(are_whole, 2);
    if st.sees('|') {
        let s1 = st.next().past_space();
        lemma_all_of(Seq::empty(), false, s1);
        match all_of(Seq::empty(), false, s1) {
            Err(e) => {},
            Ok((n, s2)) => {
                if s2.rest.len() < s1.rest.len() {
                    if is_inside(st) {
                        lemma_push_whole(nodes, n, nodes.len());
                    }
                    lemma_alternatives(nodes.push(n), before, s2.past_space());
                }
            },
        }
    } else {
        assert(is_whole_or_empty(nodes[0]));
    }
}

proof fn lemma_any_of(st: ParseState)
    requires
        st.depth >= 0,
        st.unary >= 0,
    ensures
        reads_choice(st, any_of(st)),
    decreases st.rest.len(), 5nat,
{
    reveal_with_fuel(are_whole, 2);
    lemma_all_of(Seq::empty(), false, st);
    match all_of(Seq::empty(), false, st) {
        Err(e) => {},
        Ok((n, s1)) => {
            if s1.rest.len() < st.rest.len() {
                lemma_alternatives(seq![n], st.directives, s1.past_space());
            }
        },
    }
}

/// What is read of a whole query has no gaps.
pub proof fn lemma_whole_query(input: Seq<char>)
    requires
        whole_query(input) is Ok,
    ensures
        has_no_gaps(whole_query(input)->Ok_0.root),
{
    let s0 = ParseState::start(input).past_space();
    if s0.rest.len() > 0 {
        lemma_any_of(s0);
    }
}

/// A query that is accepted has no gaps: no group, negation or boost of it is
/// empty, and nothing of it could not be read.
pub proof fn accepted_tree_has_no_gaps(input: Seq<char>)
    requires
        meaning(input) is Ok,
    ensures
        has_no_gaps(meaning(input)->Ok_0.root),
{
    lemma_whole_query(input);
}

/// Each of the first `n` trees that are whole is.
pub proof fn lemma_are_whole(v: Seq<NodeModel>, n: nat, k: int)
    requires
        0 <= k < n <= v.len(),
        are_whole(v, n),
    ensures
        is_whole(v[k]),
    decreases n,
{
    if k < n - 1 {
        lemma_are_whole(v, (n - 1) as nat, k);
    }
}

/// A whole tree is checked against the text of each document.
pub proof fn whole_tree_has_a_check(node: NodeModel, insensitive: bool)
    requires
        is_whole(node),
    ensures
        planned(node, insensitive).1 is Some,
    decreases node, 0nat,
{
    match node {
        NodeModel::And(v) => {
            lemma_all_checks(v, v.len(), insensitive);
        },
        NodeModel::Or(v) => {
            lemma_any_checks(v, v.len(), insensitive);
        },
        NodeModel::Not(n) => {
            whole_tree_has_a_check(*n, insensitive);
        },
        _ => {},
    }
}

proof fn lemma_all_checks(v: Seq<NodeModel>, n: nat, insensitive: bool)
    requires
        n <= v.len(),
        are_whole(v, n),
    ensures
        planned_all(v, n, insensitive).1.len() == n,
    decreases v, n,
{
    if n > 0 {
        lemma_all_checks(v, (n - 1) as nat, insensitive);
        whole_tree_has_a_check(v[n - 1], insensitive);
    }
}

proof fn lemma_any_checks(v: Seq<NodeModel>, n: nat, insensitive: bool)
    requires
        n <= v.len(),
        are_whole(v, n),
    ensures
        planned_any(v, n, insensitive).1.len() == n,
    decreases v, n,
{
    if n > 0 {
        lemma_any_checks(v, (n - 1) as nat, insensitive);
        whole_tree_has_a_check(v[n - 1], insensitive);
    }
}

} // verus!
