//! How large a query may be.
use crate::query::ast::{NodeModel, QueryModel};
use crate::query::validate::{
    at_depth, branches, first_error, is_finite_boost, own_bytes, total_bytes,
};
use crate::text::byte_len;
use vstd::prelude::*;

verus! {

/// Number of trees in a tree, itself and all below it.
pub open spec fn tree_count(node: NodeModel) -> nat
    decreases node, 0nat,
{
    1 + match node {
        NodeModel::And(v) => tree_counts(v, v.len()),
        NodeModel::Or(v) => tree_counts(v, v.len()),
        NodeModel::Not(n) => tree_count(*n),
        _ => 0,
    }
}

/// Number of trees in the first `n` trees.
pub open spec fn tree_counts(v: Seq<NodeModel>, n: nat) -> nat
    decreases v, n,
{
    if n == 0 || n > v.len() {
        0
    } else {
        tree_counts(v, (n - 1) as nat) + tree_count(v[n - 1])
    }
}

/// Number of bytes of text in a tree and all below it.
pub open spec fn tree_bytes(node: NodeModel) -> nat
    decreases node, 0nat,
{
    match node {
        NodeModel::Literal(t) => byte_len(t),
        NodeModel::Phrase(t) => byte_len(t),
        NodeModel::Regex(t) => byte_len(t),
        NodeModel::BoostedLiteral { text, .. } => byte_len(text),
        NodeModel::BoostedPhrase { text, .. } => byte_len(text),
        NodeModel::Near { terms, .. } => total_bytes(terms),
        NodeModel::And(v) => trees_bytes(v, v.len()),
        NodeModel::Or(v) => trees_bytes(v, v.len()),
        NodeModel::Not(n) => tree_bytes(*n),
        _ => 0,
    }
}

/// Number of bytes of text in the first `n` trees.
pub open spec fn trees_bytes(v: Seq<NodeModel>, n: nat) -> nat
    decreases v, n,
{
    if n == 0 || n > v.len() {
        0
    } else {
        trees_bytes(v, (n - 1) as nat) + tree_bytes(v[n - 1])
    }
}

/// Whether nothing is wrong with the root of a tree: it could be read, has not
/// too many branches or terms, and a boost of it is a number.
pub open spec fn is_flawless(node: NodeModel) -> bool {
    match node {
        NodeModel::Invalid(_) => false,
        NodeModel::And(v) => v.len() <= 1024,
        NodeModel::Or(v) => v.len() <= 1024,
        NodeModel::Near { terms, .. } => terms.len() <= 1024,
        NodeModel::BoostedLiteral { boost, .. } => is_finite_boost(boost),
        NodeModel::BoostedPhrase { boost, .. } => is_finite_boost(boost),
        _ => true,
    }
}

/// Whether nothing is wrong with a tree and all below it, of which none lies
/// deeper than `room` below its root.
pub open spec fn is_sound(node: NodeModel, room: int) -> bool
    decreases node, 0nat,
{
    &&& room >= 0
    &&& is_flawless(node)
    &&& match node {
        NodeModel::And(v) => are_sound(v, v.len(), room - 1),
        NodeModel::Or(v) => are_sound(v, v.len(), room - 1),
        NodeModel::Not(n) => is_sound(*n, room - 1),
        _ => true,
    }
}

/// The same of the first `n` trees.
pub open spec fn are_sound(v: Seq<NodeModel>, n: nat, room: int) -> bool
    decreases v, n,
{
    n == 0 || n > v.len() || (are_sound(v, (n - 1) as nat, room) && is_sound(v[n - 1], room))
}

spec fn count_of(p: Seq<(NodeModel, int)>) -> nat
    decreases p.len(),
{
    if p.len() == 0 {
        0
    } else {
        count_of(p.drop_last()) + tree_count(p.last().0)
    }
}

spec fn bytes_of(p: Seq<(NodeModel, int)>) -> nat
    decreases p.len(),
{
    if p.len() == 0 {
        0
    } else {
        bytes_of(p.drop_last()) + tree_bytes(p.last().0)
    }
}

spec fn sound_in(p: Seq<(NodeModel, int)>) -> bool
    decreases p.len(),
{
    p.len() == 0 || (sound_in(p.drop_last()) && is_sound(p.last().0, 96 - p.last().1))
}

proof fn lemma_joined(p: Seq<(NodeModel, int)>, v: Seq<NodeModel>, n: nat, depth: int)
    requires
        n <= v.len(),
    ensures
        count_of(p + at_depth(v.take(n as int), depth)) == count_of(p) + tree_counts(v, n),
        bytes_of(p + at_depth(v.take(n as int), depth)) == bytes_of(p) + trees_bytes(v, n),
        sound_in(p + at_depth(v.take(n as int), depth)) <==> sound_in(p) && are_sound(
            v,
            n,
            96 - depth,
        ),
    decreases n,
{
    let all = p + at_depth(v.take(n as int), depth);
    if n == 0 {
        assert(all =~= p);
    } else {
        let m = (n - 1) as nat;
        lemma_joined(p, v, m, depth);
        assert(all.drop_last() =~= p + at_depth(v.take(m as int), depth));
        assert(all.last() == (v[n - 1], depth));
    }
}

proof fn lemma_walk(p: Seq<(NodeModel, int)>, visited: int, bytes: int)
    requires
        0 <= visited <= 3072,
        bytes <= 262144,
    ensures
        first_error(p, visited, bytes) is None <==> visited + count_of(p) <= 3072 && bytes
            + bytes_of(p) <= 262144 && sound_in(p),
    decreases 3073 - visited,
{
    if p.len() > 0 {
        let (node, depth) = p.last();
        let v = branches(node);
        lemma_joined(p.drop_last(), v, v.len(), depth + 1);
        assert(v.take(v.len() as int) =~= v);
        if node is Not {
            reveal_with_fuel(tree_counts, 2);
            reveal_with_fuel(trees_bytes, 2);
            reveal_with_fuel(are_sound, 2);
            assert(v[0] == *node->Not_0);
        } else if !(node is And || node is Or) {
            assert(v.len() == 0);
        }
        if visited + 1 <= 3072 && bytes + own_bytes(node) <= 262144 {
            lemma_walk(
                p.drop_last() + at_depth(v, depth + 1),
                visited + 1,
                bytes + own_bytes(node),
            );
        }
    }
}

/// A query is accepted exactly if its tree is: it has at most three times as many
/// parts as a query may have terms, lies three times as deep as groups may at
/// most, has no more than four times as much text as a query may have, and
/// nothing is wrong with any part of it.
pub proof fn queries_within_the_limits_are_accepted(q: QueryModel)
    ensures
        q.defect() is None <==> tree_count(q.root) <= 3 * 1024 && tree_bytes(q.root) <= 4 * 65536
            && is_sound(q.root, 96),
{
    let p = seq![(q.root, 0int)];
    lemma_walk(p, 0, 0);
    assert(p.drop_last() =~= Seq::<(NodeModel, int)>::empty());
    reveal_with_fuel(count_of, 2);
    reveal_with_fuel(bytes_of, 2);
    reveal_with_fuel(sound_in, 2);
}

} // verus!
