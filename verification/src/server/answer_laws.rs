//! How many matches an answer has, with a server or without.
use crate::cli::answers_grep;
use crate::query::ast::QueryModel;
use crate::query::index::Index;
use crate::query::rank_laws::sorting_moves_each_item_once;
use crate::query::search::{
    content_keys, counts_of, hit_paths, hits_in_context, limited, tally, ContentHit, FileHits,
};
use crate::server::limit_laws::{counts_add_up, total};
use crate::server::protocol::{content_matches, ContentSearchOptions, ContentSearchResponse};
use crate::server::requests::{answers_search, are_the_matches};
use vstd::prelude::*;

verus! {

/// Number of lines that several results stand for: those with matches, or one
/// for a file as a whole.
pub open spec fn lines_in(v: Seq<FileHits>, n: nat) -> nat
    decreases n,
{
    if n == 0 {
        0
    } else {
        lines_in(v, (n - 1) as nat) + if v[n - 1].hits.len() == 0 {
            1
        } else {
            v[n - 1].hits.len()
        }
    }
}

/// The smaller of a number and a limit, where zero is no limit.
pub open spec fn at_most(n: nat, limit: nat) -> nat {
    if limit == 0 || n < limit {
        n
    } else {
        limit
    }
}

proof fn lemma_hits_len(r: FileHits, n: nat, text: Option<Seq<char>>, before: u32, after: u32)
    ensures
        hits_in_context(r, n, text, before, after).len() == n,
    decreases n,
{
    if n > 0 {
        lemma_hits_len(r, (n - 1) as nat, text, before, after);
    }
}

proof fn lemma_all_len(index: Index, v: Seq<FileHits>, n: nat, before: u32, after: u32)
    ensures
        index.all_in_context(v, n, before, after).len() == lines_in(v, n),
    decreases n,
{
    if n > 0 {
        lemma_all_len(index, v, (n - 1) as nat, before, after);
        let r = v[n - 1];
        lemma_hits_len(r, r.hits.len(), index.text(r.doc), before, after);
    }
}

proof fn lemma_matches_len(
    index: Index,
    q: QueryModel,
    before: u32,
    after: u32,
    out: Seq<ContentHit>,
)
    requires
        are_the_matches(index, q, before, after, out),
    ensures
        out.len() == lines_in(index.answers(q, None), index.answers(q, None).len()),
{
    let found = index.answers(q, None);
    let items = index.all_in_context(found, found.len(), before, after);
    lemma_all_len(index, found, found.len(), before, after);
    let perm = sorting_moves_each_item_once(items, content_keys(items), out);
}

proof fn lemma_counted(v: Seq<ContentHit>, limit: nat)
    ensures
        limited(v, limit).len() == at_most(v.len(), limit),
        total(tally(hit_paths(limited(v, limit)))) == at_most(v.len(), limit),
{
    counts_add_up(hit_paths(limited(v, limit)));
}

/// Without a server an answer has every match up to the limit, and counting
/// counts as many as would be shown, whatever lines around them are asked for.
pub proof fn every_match_is_shown_or_counted(
    index: Index,
    q: QueryModel,
    max_count: usize,
    options: ContentSearchOptions,
    r: ContentSearchResponse,
)
    requires
        answers_grep(index, q, max_count, options, r),
        !options.files_only,
        !q.asks_nothing(),
    ensures
        ({
            let all = index.answers(q, None);
            let wanted = at_most(lines_in(all, all.len()), max_count as nat);
            &&& !options.counts_only ==> r.matches@.len() == wanted
            &&& options.counts_only ==> r.file_counts is Some && total(
                counts_of(r.file_counts->0@),
            ) == wanted
        }),
{
    assert(content_matches(r.matches@).len() == r.matches@.len());
    if options.counts_only {
        let v = choose|v: Seq<ContentHit>| #[trigger]
            are_the_matches(index, q, 0, 0, v) && counts_of(r.file_counts->0@) == tally(
                hit_paths(limited(v, max_count as nat)),
            );
        lemma_matches_len(index, q, 0, 0, v);
        lemma_counted(v, max_count as nat);
    } else {
        let v = choose|v: Seq<ContentHit>| #[trigger]
            are_the_matches(index, q, options.context_before, options.context_after, v)
                && content_matches(r.matches@) == limited(v, max_count as nat)
                && r.files_with_matches == tally(hit_paths(limited(v, max_count as nat))).len();
        lemma_matches_len(index, q, options.context_before, options.context_after, v);
        lemma_counted(v, max_count as nat);
    }
}

/// A server answers with as many matches as a search without it does, as long as
/// no more than ten million are asked for, and counts as many.
pub proof fn servers_show_and_count_every_match(
    index: Index,
    q: QueryModel,
    limit: usize,
    options: ContentSearchOptions,
    r: ContentSearchResponse,
)
    requires
        answers_search(index, q, limit, options, r),
        !options.files_only,
        0 < limit <= 10_000_000,
    ensures
        ({
            let all = index.answers(q, None);
            let wanted = at_most(lines_in(all, all.len()), limit as nat);
            &&& !options.counts_only ==> r.matches@.len() == wanted
            &&& options.counts_only ==> r.file_counts is Some && total(
                counts_of(r.file_counts->0@),
            ) == wanted
        }),
{
    assert(content_matches(r.matches@).len() == r.matches@.len());
    if options.counts_only {
        let v = choose|v: Seq<ContentHit>| #[trigger]
            are_the_matches(index, q, 0, 0, v) && counts_of(r.file_counts->0@) == tally(
                hit_paths(limited(v, limit as nat)),
            );
        lemma_matches_len(index, q, 0, 0, v);
        lemma_counted(v, limit as nat);
    } else {
        let v = choose|v: Seq<ContentHit>| #[trigger]
            are_the_matches(index, q, options.context_before, options.context_after, v)
                && content_matches(r.matches@) == limited(
                v,
                crate::server::requests::capped(limit) as nat,
            ) && r.files_with_matches == tally(hit_paths(v)).len();
        lemma_matches_len(index, q, options.context_before, options.context_after, v);
        lemma_counted(v, limit as nat);
    }
}

} // verus!
