//! A search for files lists what looking into every document would list.
use crate::query::ast::QueryModel;
use crate::query::bitmap::ascending;
use crate::query::index::Index;
use crate::query::plan::CheckModel;
use crate::query::planner::{node_fits, plan_of};
use crate::query::scan_laws::{
    lemma_ascending_list, lemma_found_eligible, narrowing_is_sound, narrowing_is_sure,
    sure_documents_are_shown, sure_documents_stay_candidates,
};
use crate::query::search::{ascending_list, line_bounds, FileHits};
use vstd::prelude::*;

verus! {

impl Index {
    /// The paths of the documents that a query is about and whose text it is
    /// found in.
    pub open spec fn scanned_files(&self, q: QueryModel, limit: nat) -> Seq<Seq<char>> {
        let ids = ascending_list(self.eligible(q));
        let plan = plan_of(q);
        self.matching_paths(ids, ids.len(), plan.verification, line_bounds(plan.steps), limit)
    }
}

proof fn lemma_same_paths(
    index: Index,
    a: Seq<u32>,
    b: Seq<u32>,
    n: nat,
    check: Option<CheckModel>,
    bounds: (Option<u32>, Option<u32>),
    limit: nat,
)
    requires
        n <= a.len(),
        n <= b.len(),
        forall|k: int| 0 <= k < n ==> a[k] == b[k],
    ensures
        index.matching_paths(a, n, check, bounds, limit) == index.matching_paths(
            b,
            n,
            check,
            bounds,
            limit,
        ),
    decreases n,
{
    if n > 0 {
        lemma_same_paths(index, a, b, (n - 1) as nat, check, bounds, limit);
    }
}

/// Documents that are not listed do not matter.
proof fn lemma_unlisted(
    index: Index,
    a: Seq<u32>,
    b: Seq<u32>,
    check: Option<CheckModel>,
    bounds: (Option<u32>, Option<u32>),
    limit: nat,
)
    requires
        ascending(a),
        ascending(b),
        forall|d: u32| #[trigger] a.contains(d) ==> b.contains(d),
        forall|d: u32| #[trigger]
            b.contains(d) && !a.contains(d) ==> !index.lists(d, check, bounds),
    ensures
        index.matching_paths(a, a.len(), check, bounds, limit) == index.matching_paths(
            b,
            b.len(),
            check,
            bounds,
            limit,
        ),
    decreases b.len(),
{
    if b.len() == 0 {
        if a.len() > 0 {
            assert(a.contains(a[0]));
            assert(b.contains(a[0]));
        }
    } else {
        let last = b.last();
        let y = b.drop_last();
        assert(b.contains(b[b.len() - 1]));
        lemma_same_paths(index, b, y, y.len(), check, bounds, limit);
        if a.contains(last) {
            let i = choose|i: int| 0 <= i < a.len() && a[i] == last;
            if i < a.len() - 1 {
                assert(a.contains(a.last()));
                assert(b.contains(a.last()));
            }
            let x = a.drop_last();
            lemma_same_paths(index, a, x, x.len(), check, bounds, limit);
            assert forall|d: u32| #[trigger] x.contains(d) implies y.contains(d) by {
                let k = choose|k: int| 0 <= k < x.len() && x[k] == d;
                assert(a[k] == d);
                assert(a.contains(d));
                assert(b.contains(d));
                let j = choose|j: int| 0 <= j < b.len() && b[j] == d;
                assert(y[j] == d);
            }
            assert forall|d: u32| #[trigger]
                y.contains(d) && !x.contains(d) implies !index.lists(d, check, bounds) by {
                let j = choose|j: int| 0 <= j < y.len() && y[j] == d;
                assert(b[j] == d);
                assert(b.contains(d));
                if a.contains(d) {
                    let k = choose|k: int| 0 <= k < a.len() && a[k] == d;
                    assert(x[k] == d);
                }
            }
            lemma_unlisted(index, x, y, check, bounds, limit);
        } else {
            assert(!index.lists(last, check, bounds));
            assert forall|d: u32| #[trigger] a.contains(d) implies y.contains(d) by {
                assert(b.contains(d));
                let j = choose|j: int| 0 <= j < b.len() && b[j] == d;
                assert(y[j] == d);
            }
            assert forall|d: u32| #[trigger]
                y.contains(d) && !a.contains(d) implies !index.lists(d, check, bounds) by {
                let j = choose|j: int| 0 <= j < y.len() && y[j] == d;
                assert(b[j] == d);
                assert(b.contains(d));
            }
            lemma_unlisted(index, a, y, check, bounds, limit);
        }
    }
}

/// A search for files lists those that looking for the query in every document
/// would list.
pub proof fn file_search_is_a_scan(index: Index, q: QueryModel, limit: nat)
    requires
        index.wf(),
        narrowing_is_sure(index, q),
        node_fits(q.root, q.options.case_insensitive),
    ensures
        index.files(q, limit) == index.scanned_files(q, limit),
{
    let plan = plan_of(q);
    let bounds = line_bounds(plan.steps);
    let found = index.found(plan);
    let eligible = index.eligible(q);
    lemma_found_eligible(index, q);
    lemma_ascending_list(index, found);
    lemma_ascending_list(index, eligible);
    let a = ascending_list(found);
    let b = ascending_list(eligible);
    assert forall|d: u32| #[trigger] a.contains(d) implies b.contains(d) by {
        assert(found.contains(d));
    }
    assert forall|d: u32| #[trigger] b.contains(d) && !a.contains(d) implies !index.lists(
        d,
        plan.verification,
        bounds,
    ) by {
        assert(eligible.contains(d));
        assert(index.valid_docs().contains(d));
        if index.lists(d, plan.verification, bounds) {
            sure_documents_stay_candidates(index, q, d);
        }
    }
    lemma_unlisted(index, a, b, plan.verification, bounds, limit);
}

/// The paths of results.
pub open spec fn result_paths(v: Seq<FileHits>) -> Seq<Seq<char>> {
    v.map_values(|r: FileHits| r.path)
}

proof fn lemma_listed_with_results(
    index: Index,
    ids: Seq<u32>,
    n: nat,
    check: Option<CheckModel>,
    bounds: (Option<u32>, Option<u32>),
)
    ensures
        index.matching_paths(ids, n, check, bounds, 0) == result_paths(
            index.verified(ids, n, check, bounds, None),
        ),
    decreases n,
{
    let now = result_paths(index.verified(ids, n, check, bounds, None));
    if n == 0 {
        assert(now =~= Seq::empty());
    } else {
        let m = (n - 1) as nat;
        lemma_listed_with_results(index, ids, m, check, bounds);
        let before = result_paths(index.verified(ids, m, check, bounds, None));
        let d = ids[n - 1];
        if index.lists(d, check, bounds) {
            assert(now =~= before.push(index.documents@[d as int].path@));
        } else {
            assert(now =~= before);
        }
    }
}

/// A search for files lists exactly those files of which a search shows
/// something.
pub proof fn files_with_results_are_listed(index: Index, q: QueryModel)
    ensures
        index.files(q, 0) == result_paths(index.answers(q, None)),
{
    let plan = plan_of(q);
    let ids = ascending_list(index.found(plan));
    lemma_listed_with_results(
        index,
        ids,
        ids.len(),
        plan.verification,
        line_bounds(plan.steps),
    );
}

/// A search for files without a limit lists every document that narrowing is sure
/// of, whatever other documents hold.
pub proof fn sure_documents_are_listed(index: Index, q: QueryModel, d: u32)
    requires
        index.wf(),
        narrowing_is_sound(index, q),
        node_fits(q.root, q.options.case_insensitive),
        index.must_be_found(q, d),
    ensures
        index.files(q, 0).contains(index.documents@[d as int].path@),
{
    sure_documents_are_shown(index, q, d);
    files_with_results_are_listed(index, q);
    let v = index.answers(q, None);
    let r = index.result(d, index.hits_in(q, d));
    let i = choose|i: int| 0 <= i < v.len() && v[i] == r;
    assert(result_paths(v)[i] == r.path);
}

} // verus!
