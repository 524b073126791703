//! Whole-word search: no part of a query is left without word boundaries.
use crate::query::ast::{ErrorModel, NodeModel};
use crate::query::validate::{all_whole_words, escaped, whole_words};
use vstd::prelude::*;

verus! {

/// Whether a text starts with one text and ends with another, and what stands
/// between them.
pub open spec fn wraps(s: Seq<char>, a: Seq<char>, inner: Seq<char>, b: Seq<char>) -> bool {
    s == a + inner + b
}

/// Whether a tree asks for whole words alone: each leaf is a regular expression
/// that starts and ends at a word boundary.
pub open spec fn has_boundaries(node: NodeModel) -> bool
    decreases node,
{
    match node {
        NodeModel::Empty => true,
        NodeModel::Regex(s) => (exists|inner: Seq<char>| #[trigger]
            wraps(s, "\\b(?:"@, inner, ")\\b"@)) || (exists|inner: Seq<char>| #[trigger]
            wraps(s, "(?i:\\b(?:"@, inner, ")\\b)"@)),
        NodeModel::And(v) => forall|k: int| 0 <= k < v.len() ==> has_boundaries(#[trigger] v[k]),
        NodeModel::Or(v) => forall|k: int| 0 <= k < v.len() ==> has_boundaries(#[trigger] v[k]),
        NodeModel::Not(n) => has_boundaries(*n),
        _ => false,
    }
}

proof fn lemma_each_word(v: Seq<NodeModel>, n: nat)
    requires
        n <= v.len(),
    ensures
        match all_whole_words(v, n) {
            Ok(w) => w.len() == n && forall|k: int|
                0 <= k < n ==> whole_words(v[k]) == Ok::<NodeModel, ErrorModel>(#[trigger] w[k]),
            Err(e) => exists|k: int|
                0 <= k < n && whole_words(#[trigger] v[k]) == Err::<NodeModel, ErrorModel>(e)
                    && forall|l: int| 0 <= l < k ==> whole_words(#[trigger] v[l]) is Ok,
        },
    decreases n,
{
    if n > 0 {
        lemma_each_word(v, (n - 1) as nat);
        match all_whole_words(v, (n - 1) as nat) {
            Ok(w) => {
                assert forall|l: int| 0 <= l < n - 1 implies whole_words(#[trigger] v[l]) is Ok by {
                    assert(whole_words(v[l]) == Ok::<NodeModel, ErrorModel>(w[l]));
                }
                if whole_words(v[n - 1]) is Ok {
                    let x = w.push(whole_words(v[n - 1])->Ok_0);
                    assert forall|k: int| 0 <= k < n implies whole_words(v[k]) == Ok::<
                        NodeModel,
                        ErrorModel,
                    >(#[trigger] x[k]) by {
                        if k < n - 1 {
                            assert(x[k] == w[k]);
                        }
                    }
                }
            },
            Err(_) => {},
        }
    }
}

/// No leaf of a tree in whole-word form is without a word boundary on both sides.
pub proof fn whole_words_have_boundaries(node: NodeModel)
    requires
        whole_words(node) is Ok,
    ensures
        has_boundaries(whole_words(node)->Ok_0),
    decreases node,
{
    match node {
        NodeModel::Literal(t) => {
            assert(wraps(
                whole_words(node)->Ok_0->Regex_0,
                "(?i:\\b(?:"@,
                escaped(t),
                ")\\b)"@,
            ));
        },
        NodeModel::Phrase(t) => {
            assert(wraps(whole_words(node)->Ok_0->Regex_0, "\\b(?:"@, escaped(t), ")\\b"@));
        },
        NodeModel::Regex(t) => {
            assert(wraps(whole_words(node)->Ok_0->Regex_0, "\\b(?:"@, t, ")\\b"@));
        },
        NodeModel::And(v) => {
            lemma_each_word(v, v.len());
            let w = all_whole_words(v, v.len())->Ok_0;
            assert forall|k: int| 0 <= k < w.len() implies has_boundaries(#[trigger] w[k]) by {
                assert(whole_words(v[k]) == Ok::<NodeModel, ErrorModel>(w[k]));
                whole_words_have_boundaries(v[k]);
            }
        },
        NodeModel::Or(v) => {
            lemma_each_word(v, v.len());
            let w = all_whole_words(v, v.len())->Ok_0;
            assert forall|k: int| 0 <= k < w.len() implies has_boundaries(#[trigger] w[k]) by {
                assert(whole_words(v[k]) == Ok::<NodeModel, ErrorModel>(w[k]));
                whole_words_have_boundaries(v[k]);
            }
        },
        NodeModel::Not(n) => {
            whole_words_have_boundaries(*n);
        },
        _ => {},
    }
}

/// What stands between the boundaries is what was asked for: the pattern of a
/// regular expression, the text of a phrase, or the text of a term in any case.
/// Boosts and proximity searches are refused.
pub proof fn whole_words_keep_the_leaves(text: Seq<char>, boost: Seq<char>)
    ensures
        wraps(
            whole_words(NodeModel::Regex(text))->Ok_0->Regex_0,
            "\\b(?:"@,
            text,
            ")\\b"@,
        ),
        wraps(
            whole_words(NodeModel::Phrase(text))->Ok_0->Regex_0,
            "\\b(?:"@,
            escaped(text),
            ")\\b"@,
        ),
        wraps(
            whole_words(NodeModel::Literal(text))->Ok_0->Regex_0,
            "(?i:\\b(?:"@,
            escaped(text),
            ")\\b)"@,
        ),
        whole_words(NodeModel::Regex(text)) is Ok && whole_words(NodeModel::Phrase(text)) is Ok
            && whole_words(NodeModel::Literal(text)) is Ok,
        whole_words(NodeModel::Regex(text))->Ok_0 is Regex,
        whole_words(NodeModel::Phrase(text))->Ok_0 is Regex,
        whole_words(NodeModel::Literal(text))->Ok_0 is Regex,
        whole_words((NodeModel::BoostedLiteral { text, boost })) is Err,
        whole_words((NodeModel::BoostedPhrase { text, boost })) is Err,
{
}

/// A proximity search is refused in whole-word form.
pub proof fn whole_words_refuse_proximity(terms: Seq<Seq<char>>, distance: u32)
    ensures
        whole_words((NodeModel::Near { terms, distance })) is Err,
{
}

/// Alternatives stay alternatives, terms together stay together, and each branch
/// takes its own whole-word form; a branch that has none is the reason why the
/// whole has none.
pub proof fn whole_words_keep_the_branches(v: Seq<NodeModel>)
    ensures
        (forall|k: int| 0 <= k < v.len() ==> whole_words(#[trigger] v[k]) is Ok) ==> {
            &&& whole_words(NodeModel::Or(v)) is Ok
            &&& whole_words(NodeModel::And(v)) is Ok
            &&& whole_words(NodeModel::Or(v))->Ok_0 is Or
            &&& whole_words(NodeModel::And(v))->Ok_0 is And
            &&& whole_words(NodeModel::Or(v))->Ok_0->Or_0 == v.map_values(
                |n: NodeModel| whole_words(n)->Ok_0,
            )
            &&& whole_words(NodeModel::And(v))->Ok_0->And_0 == v.map_values(
                |n: NodeModel| whole_words(n)->Ok_0,
            )
        },
        forall|k: int|
            0 <= k < v.len() && whole_words(#[trigger] v[k]) is Err && (forall|l: int|
                0 <= l < k ==> whole_words(#[trigger] v[l]) is Ok) ==> {
                &&& whole_words(NodeModel::Or(v)) == whole_words(v[k])
                &&& whole_words(NodeModel::And(v)) == whole_words(v[k])
            },
{
    lemma_each_word(v, v.len());
    match all_whole_words(v, v.len()) {
        Ok(w) => {
            assert forall|k: int| 0 <= k < v.len() implies whole_words(#[trigger] v[k]) is Ok by {
                assert(whole_words(v[k]) == Ok::<NodeModel, ErrorModel>(w[k]));
            }
            assert(w =~= v.map_values(|n: NodeModel| whole_words(n)->Ok_0)) by {
                assert forall|k: int| 0 <= k < w.len() implies w[k] == v.map_values(
                    |n: NodeModel| whole_words(n)->Ok_0,
                )[k] by {
                    assert(whole_words(v[k]) == Ok::<NodeModel, ErrorModel>(w[k]));
                }
            }
        },
        Err(e) => {
            let a = choose|a: int|
                0 <= a < v.len() && whole_words(#[trigger] v[a]) == Err::<NodeModel, ErrorModel>(e)
                    && forall|l: int| 0 <= l < a ==> whole_words(#[trigger] v[l]) is Ok;
            assert(whole_words(v[a]) is Err);
            assert forall|k: int|
                0 <= k < v.len() && whole_words(#[trigger] v[k]) is Err && (forall|l: int|
                    0 <= l < k ==> whole_words(#[trigger] v[l]) is Ok) implies {
                &&& whole_words(NodeModel::Or(v)) == whole_words(v[k])
                &&& whole_words(NodeModel::And(v)) == whole_words(v[k])
            } by {
                assert(k == a) by {
                    if k < a {
                        assert(whole_words(v[k]) is Ok);
                    }
                    if a < k {
                        assert(whole_words(v[a]) is Ok);
                    }
                }
            }
        },
    }
}

/// What is excluded is excluded as whole words.
pub proof fn whole_words_keep_exclusion(node: NodeModel)
    ensures
        match whole_words(node) {
            Ok(w) => whole_words(NodeModel::Not(Box::new(node))) == Ok::<NodeModel, ErrorModel>(
                NodeModel::Not(Box::new(w)),
            ),
            Err(e) => whole_words(NodeModel::Not(Box::new(node))) == Err::<NodeModel, ErrorModel>(
                e,
            ),
        },
{
}

} // verus!
