//! What a query asks of a file: its tree is read as a Boolean expression whose
//! leaves are texts, patterns and proximity searches.
use crate::query::ast::NodeModel;
use crate::query::boost::boost_of;
use crate::query::content::{check_hits, lemma_all_hits, lemma_any_hits, Hit};
use crate::query::match_laws::{
    alternatives_show_every_match, alternatives_show_nothing_else, terms_show_every_match,
    terms_show_nothing_else,
};
use crate::query::plan::CheckModel;
use crate::query::planner::{planned, planned_all, planned_any};
use crate::query::tree_laws::{are_whole, is_whole, lemma_are_whole, whole_tree_has_a_check};
use vstd::prelude::*;

verus! {

/// The matches of a tree in a text.
pub open spec fn matches_of(content: Seq<char>, node: NodeModel, insensitive: bool) -> Seq<Hit> {
    check_hits(content, planned(node, insensitive).1->0)
}

/// Whether a text satisfies a tree: all branches of a conjunction, one of a
/// disjunction, not what is excluded, and a match for each other leaf.
pub open spec fn satisfies(content: Seq<char>, node: NodeModel, insensitive: bool) -> bool
    decreases node,
{
    match node {
        NodeModel::And(v) => forall|k: int|
            0 <= k < v.len() ==> satisfies(content, #[trigger] v[k], insensitive),
        NodeModel::Or(v) => exists|k: int|
            0 <= k < v.len() && satisfies(content, #[trigger] v[k], insensitive),
        NodeModel::Not(n) => !satisfies(content, *n, insensitive),
        _ => matches_of(content, node, insensitive).len() > 0,
    }
}

proof fn lemma_lists(v: Seq<NodeModel>, n: nat, insensitive: bool)
    requires
        n <= v.len(),
        are_whole(v, n),
    ensures
        planned_all(v, n, insensitive).1.len() == n,
        planned_any(v, n, insensitive).1.len() == n,
        forall|k: int|
            0 <= k < n ==> Some(#[trigger] planned_all(v, n, insensitive).1[k]) == planned(
                v[k],
                insensitive,
            ).1,
        forall|k: int|
            0 <= k < n ==> Some(#[trigger] planned_any(v, n, insensitive).1[k]) == planned(
                v[k],
                insensitive,
            ).1,
    decreases n,
{
    if n > 0 {
        lemma_lists(v, (n - 1) as nat, insensitive);
        whole_tree_has_a_check(v[n - 1], insensitive);
        let a = planned_all(v, (n - 1) as nat, insensitive).1;
        let b = planned_any(v, (n - 1) as nat, insensitive).1;
        assert(planned_all(v, n, insensitive).1 == a.push(planned(v[n - 1], insensitive).1->0));
        assert(planned_any(v, n, insensitive).1 == b.push(planned(v[n - 1], insensitive).1->0));
    }
}

/// The leaves of a tree ask for what they say: a term for its text in any case, a
/// phrase for its text as it is written unless case is ignored, a pattern for its
/// matches, `near:` for its terms within their distance. A boost changes nothing
/// about that, and is handed on.
pub proof fn leaves_ask_for_what_they_say(
    content: Seq<char>,
    text: Seq<char>,
    boost: Seq<char>,
    terms: Seq<Seq<char>>,
    distance: u32,
    insensitive: bool,
)
    ensures
        matches_of(content, NodeModel::Literal(text), insensitive) == check_hits(
            content,
            CheckModel::Literal(text),
        ),
        matches_of(content, NodeModel::Phrase(text), insensitive) == check_hits(
            content,
            (CheckModel::Phrase { text, case_insensitive: insensitive }),
        ),
        matches_of(content, NodeModel::Regex(text), false) == check_hits(
            content,
            CheckModel::Regex(text),
        ),
        matches_of(content, NodeModel::Regex(text), true) == check_hits(
            content,
            CheckModel::Regex("(?i)"@ + text),
        ),
        matches_of(content, (NodeModel::Near { terms, distance }), insensitive) == check_hits(
            content,
            (CheckModel::Near { terms, distance }),
        ),
        matches_of(content, (NodeModel::BoostedLiteral { text, boost }), insensitive) == matches_of(
            content,
            NodeModel::Literal(text),
            insensitive,
        ),
        matches_of(content, (NodeModel::BoostedPhrase { text, boost }), insensitive) == matches_of(
            content,
            NodeModel::Phrase(text),
            insensitive,
        ),
        boost_of(planned((NodeModel::BoostedLiteral { text, boost }), insensitive).1->0) == boost,
        boost_of(planned((NodeModel::BoostedPhrase { text, boost }), insensitive).1->0) == boost,
{
}

/// Several terms ask for all of them; every match of each of them is shown, and
/// nothing else.
pub proof fn conjunction_asks_for_all(
    content: Seq<char>,
    v: Seq<NodeModel>,
    insensitive: bool,
    h: Hit,
)
    requires
        v.len() > 0,
        are_whole(v, v.len()),
    ensures
        ({
            let r = matches_of(content, NodeModel::And(v), insensitive);
            &&& r.len() > 0 <==> forall|k: int|
                0 <= k < v.len() ==> matches_of(content, #[trigger] v[k], insensitive).len() > 0
            &&& r.len() > 0 ==> (r.contains(h) <==> exists|k: int|
                0 <= k < v.len() && matches_of(content, #[trigger] v[k], insensitive).contains(h))
        }),
{
    lemma_lists(v, v.len(), insensitive);
    let list = planned_all(v, v.len(), insensitive).1;
    let r = matches_of(content, NodeModel::And(v), insensitive);
    assert forall|k: int| 0 <= k < v.len() implies matches_of(content, #[trigger] v[k], insensitive)
        == check_hits(content, list[k]) by {
        assert(Some(list[k]) == planned(v[k], insensitive).1);
    }
    if v.len() == 1 {
        assert(r == matches_of(content, v[0], insensitive));
    } else {
        assert(r == check_hits(content, CheckModel::And(list)));
        lemma_all_hits(content, list, list.len());
        assert forall|k: int| 0 <= k < list.len() implies (check_hits(
            content,
            #[trigger] list[k],
        ).len() > 0) == (matches_of(content, v[k], insensitive).len() > 0) by {}
        if r.len() > 0 {
            if r.contains(h) {
                let k = terms_show_nothing_else(content, list, h);
                assert(matches_of(content, v[k], insensitive).contains(h));
            }
            if exists|k: int|
                0 <= k < v.len() && matches_of(content, #[trigger] v[k], insensitive).contains(
                    h,
                ) {
                let k = choose|k: int|
                    0 <= k < v.len() && matches_of(content, #[trigger] v[k], insensitive).contains(
                        h,
                    );
                assert forall|l: int| 0 <= l < list.len() implies check_hits(
                    content,
                    #[trigger] list[l],
                ).len() > 0 by {
                    assert(crate::query::content::check_present(content, list[l]));
                }
                terms_show_every_match(content, list, k, h);
            }
        }
    }
}

/// Alternatives ask for one of them; every match of each of them is shown, and
/// nothing else.
pub proof fn disjunction_asks_for_one(
    content: Seq<char>,
    v: Seq<NodeModel>,
    insensitive: bool,
    h: Hit,
)
    requires
        v.len() > 0,
        are_whole(v, v.len()),
    ensures
        ({
            let r = matches_of(content, NodeModel::Or(v), insensitive);
            &&& r.len() > 0 <==> exists|k: int|
                0 <= k < v.len() && matches_of(content, #[trigger] v[k], insensitive).len() > 0
            &&& r.contains(h) <==> exists|k: int|
                0 <= k < v.len() && matches_of(content, #[trigger] v[k], insensitive).contains(h)
        }),
{
    lemma_lists(v, v.len(), insensitive);
    let list = planned_any(v, v.len(), insensitive).1;
    let r = matches_of(content, NodeModel::Or(v), insensitive);
    assert forall|k: int| 0 <= k < v.len() implies matches_of(content, #[trigger] v[k], insensitive)
        == check_hits(content, list[k]) by {
        assert(Some(list[k]) == planned(v[k], insensitive).1);
    }
    if v.len() == 1 {
        assert(r == matches_of(content, v[0], insensitive));
    } else {
        assert(r == check_hits(content, CheckModel::Or(list)));
        lemma_any_hits(content, list, list.len());
        if r.len() > 0 {
            let k = choose|k: int|
                0 <= k < list.len() && crate::query::content::check_present(
                    content,
                    #[trigger] list[k],
                );
            assert(matches_of(content, v[k], insensitive).len() > 0);
        }
        if exists|k: int|
            0 <= k < v.len() && matches_of(content, #[trigger] v[k], insensitive).len() > 0 {
            let k = choose|k: int|
                0 <= k < v.len() && matches_of(content, #[trigger] v[k], insensitive).len() > 0;
            assert(crate::query::content::check_present(content, list[k]));
        }
        if r.contains(h) {
            let k = alternatives_show_nothing_else(content, list, h);
            assert(matches_of(content, v[k], insensitive).contains(h));
        }
        if exists|k: int|
            0 <= k < v.len() && matches_of(content, #[trigger] v[k], insensitive).contains(h) {
            let k = choose|k: int|
                0 <= k < v.len() && matches_of(content, #[trigger] v[k], insensitive).contains(h);
            alternatives_show_every_match(content, list, k, h);
        }
    }
}

/// A file has matches of a query exactly where it satisfies the query, read as a
/// Boolean expression over the whole file.
pub proof fn query_is_a_boolean_expression(
    content: Seq<char>,
    node: NodeModel,
    insensitive: bool,
)
    requires
        is_whole(node),
    ensures
        matches_of(content, node, insensitive).len() > 0 <==> satisfies(content, node, insensitive),
    decreases node,
{
    let none: Hit = (0u32, Seq::empty(), 0nat, 0nat);
    match node {
        NodeModel::And(v) => {
            conjunction_asks_for_all(content, v, insensitive, none);
            assert forall|k: int| 0 <= k < v.len() implies (matches_of(
                content,
                #[trigger] v[k],
                insensitive,
            ).len() > 0 <==> satisfies(content, v[k], insensitive)) by {
                lemma_are_whole(v, v.len(), k);
                query_is_a_boolean_expression(content, v[k], insensitive);
            }
        },
        NodeModel::Or(v) => {
            disjunction_asks_for_one(content, v, insensitive, none);
            assert forall|k: int| 0 <= k < v.len() implies (matches_of(
                content,
                #[trigger] v[k],
                insensitive,
            ).len() > 0 <==> satisfies(content, v[k], insensitive)) by {
                lemma_are_whole(v, v.len(), k);
                query_is_a_boolean_expression(content, v[k], insensitive);
            }
        },
        NodeModel::Not(n) => {
            whole_tree_has_a_check(*n, insensitive);
            query_is_a_boolean_expression(content, *n, insensitive);
        },
        _ => {},
    }
}

} // verus!
