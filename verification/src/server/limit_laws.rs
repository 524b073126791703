//! A limit holds for an answer as a whole, whatever form it has.
use crate::order::sorts;
use crate::query::ast::{texts, QueryModel};
use crate::query::index::Index;
use crate::query::plan::CheckModel;
use crate::query::search::{counts_of, hit_paths, limited, path_keys, picked, tally, ContentHit};
use crate::server::protocol::{content_matches, ContentSearchOptions, ContentSearchResponse};
use crate::server::requests::{
    answers_search, are_the_files, are_the_matches, capped, files_as_matches,
};
use vstd::prelude::*;

verus! {

/// The sum of counts.
pub open spec fn total(counts: Seq<(Seq<char>, nat)>) -> nat
    decreases counts.len(),
{
    if counts.len() == 0 {
        0
    } else {
        total(counts.drop_last()) + counts.last().1
    }
}

/// The counts of lines per file add up to the number of lines.
pub proof fn counts_add_up(v: Seq<Seq<char>>)
    ensures
        total(tally(v)) == v.len(),
    decreases v.len(),
{
    if v.len() > 0 {
        counts_add_up(v.drop_last());
        let before = tally(v.drop_last());
        assert(tally(v).drop_last() =~= if tally(v).len() == before.len() {
            before.drop_last()
        } else {
            before
        });
    }
}

proof fn lemma_paths_limited(
    index: Index,
    ids: Seq<u32>,
    n: nat,
    check: Option<CheckModel>,
    bounds: (Option<u32>, Option<u32>),
    limit: nat,
)
    requires
        limit > 0,
    ensures
        index.matching_paths(ids, n, check, bounds, limit).len() <= limit,
    decreases n,
{
    if n > 0 {
        lemma_paths_limited(index, ids, (n - 1) as nat, check, bounds, limit);
    }
}

proof fn lemma_files_limited(index: Index, q: QueryModel, limit: usize, out: Seq<Seq<char>>)
    requires
        limit > 0,
        are_the_files(index, q, limit, out),
    ensures
        out.len() <= limit,
{
    let found = index.files(q, limit as nat);
    let plan = crate::query::planner::plan_of(q);
    let ids = crate::query::search::ascending_list(index.found(plan));
    let bounds = crate::query::search::line_bounds(plan.steps);
    lemma_paths_limited(index, ids, ids.len(), plan.verification, bounds, limit as nat);
    if plan.verification is Some {
        let perm = choose|perm: Seq<usize>| #[trigger]
            sorts(path_keys(found), perm) && out == picked(found, perm);
        assert(out.len() == perm.len());
        assert(path_keys(found).len() == found.len());
    }
}

/// With a limit other than zero, an answer has at most as many lines, or files,
/// or lines counted in all its files together.
pub proof fn limits_are_for_the_whole_answer(
    index: Index,
    q: QueryModel,
    limit: usize,
    options: ContentSearchOptions,
    r: ContentSearchResponse,
)
    requires
        limit > 0,
        answers_search(index, q, limit, options, r),
    ensures
        r.matches@.len() <= limit,
        r.file_paths is Some ==> r.file_paths->0@.len() <= limit,
        r.file_counts is Some ==> total(counts_of(r.file_counts->0@)) <= limit,
{
    assert(content_matches(r.matches@).len() == r.matches@.len());
    if options.files_only {
        if options.compact_files {
            let paths = texts(r.file_paths->0@);
            lemma_files_limited(index, q, capped(limit), paths);
            assert(paths.len() == r.file_paths->0@.len());
        } else {
            let v = choose|v: Seq<Seq<char>>| #[trigger]
                are_the_files(index, q, capped(limit), v) && content_matches(r.matches@)
                    == files_as_matches(v);
            lemma_files_limited(index, q, capped(limit), v);
            assert(files_as_matches(v).len() == v.len());
        }
    } else if options.counts_only {
        let v = choose|v: Seq<ContentHit>| #[trigger]
            are_the_matches(index, q, 0, 0, v) && counts_of(r.file_counts->0@) == tally(
                hit_paths(limited(v, limit as nat)),
            );
        counts_add_up(hit_paths(limited(v, limit as nat)));
        assert(hit_paths(limited(v, limit as nat)).len() == limited(v, limit as nat).len());
    } else {
        let v = choose|v: Seq<ContentHit>| #[trigger]
            are_the_matches(index, q, options.context_before, options.context_after, v)
                && content_matches(r.matches@) == limited(v, capped(limit) as nat)
                && r.files_with_matches == tally(hit_paths(v)).len();
        assert(limited(v, capped(limit) as nat).len() <= limit);
    }
}

} // verus!
