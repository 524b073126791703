//! Ranked results: what is merged, in what order it comes, and what a limit
//! leaves out.
use crate::order::{comes_first, lemma_all_places, lex_is_strict, lex_lt, names_place, sorts};
use crate::paths::{path_key, same_path};
use crate::query::ast::SortOrder;
use crate::query::index::Index;
use crate::query::ranking::{
    distinct_lower, merged, new_names, path_among, scored_hits, scored_results, RankedHit,
};
use crate::query::search::{arranged, limited, picked, FileHits};
use crate::query::wand::ScoreKey;
use crate::text::lower_case;
use vstd::prelude::*;

verus! {

/// Sorting changes the order alone: `perm` tells for each place of the outcome
/// which item stands there, and names each item once. No item stands before one
/// with a smaller key, and items with equal keys stand in the order they had.
pub proof fn sorting_moves_each_item_once<T>(
    items: Seq<T>,
    keys: Seq<Seq<u32>>,
    out: Seq<T>,
) -> (perm: Seq<usize>)
    requires
        arranged(items, keys, out),
        keys.len() == items.len(),
    ensures
        out.len() == items.len() == perm.len(),
        perm.no_duplicates(),
        forall|i: int| 0 <= i < perm.len() ==> (#[trigger] perm[i]) < items.len(),
        forall|i: int| 0 <= i < out.len() ==> #[trigger] out[i] == items[perm[i] as int],
        forall|k: int| 0 <= k < items.len() ==> #[trigger] names_place(perm, k),
        forall|i: int, j: int|
            0 <= i < j < perm.len() ==> !lex_lt(
                keys[#[trigger] perm[j] as int],
                keys[#[trigger] perm[i] as int],
            ),
        forall|i: int, j: int|
            0 <= i < j < perm.len() && keys[#[trigger] perm[i] as int]
                == keys[#[trigger] perm[j] as int] ==> perm[i] < perm[j],
{
    let perm = choose|perm: Seq<usize>| #[trigger] sorts(keys, perm) && out == picked(items, perm);
    lemma_all_places(keys, perm);
    assert forall|i: int, j: int| 0 <= i < j < perm.len() implies !lex_lt(
        keys[#[trigger] perm[j] as int],
        keys[#[trigger] perm[i] as int],
    ) by {
        assert(comes_first(
            keys[perm[i] as int],
            perm[i] as int,
            keys[perm[j] as int],
            perm[j] as int,
        ));
        lex_is_strict(keys[perm[i] as int], keys[perm[j] as int]);
    }
    assert forall|i: int, j: int|
        0 <= i < j < perm.len() && keys[#[trigger] perm[i] as int]
            == keys[#[trigger] perm[j] as int] implies perm[i] < perm[j] by {
        assert(comes_first(
            keys[perm[i] as int],
            perm[i] as int,
            keys[perm[j] as int],
            perm[j] as int,
        ));
        lex_is_strict(keys[perm[i] as int], keys[perm[j] as int]);
    }
    perm
}

/// A limit keeps what comes first: as many items as it says, all where it is zero
/// or there are fewer.
pub proof fn limits_keep_the_first<T>(v: Seq<T>, limit: nat)
    ensures
        limited(v, limit).len() <= v.len(),
        limit == 0 ==> limited(v, limit).len() == v.len(),
        limit > 0 ==> limited(v, limit).len() == if v.len() < limit {
            v.len()
        } else {
            limit
        },
        forall|i: int| 0 <= i < limited(v, limit).len() ==> #[trigger] limited(v, limit)[i] == v[i],
{
}

/// Under `sort:recency` no file comes before one that was modified later, and
/// none that a limit leaves out was modified later than one that is kept.
pub proof fn recent_files_come_first(
    index: Index,
    items: Seq<RankedHit>,
    sorted: Seq<RankedHit>,
    limit: nat,
)
    requires
        arranged(items, index.rank_keys(items, SortOrder::Recency), sorted),
        forall|k: int|
            0 <= k < items.len() ==> (#[trigger] items[k]).doc < index.documents@.len(),
    ensures
        ({
            let r = limited(sorted, limit);
            &&& forall|i: int, j: int|
                0 <= i < j < r.len() ==> index.documents@[(#[trigger] r[i]).doc as int].mtime
                    >= index.documents@[(#[trigger] r[j]).doc as int].mtime
            &&& forall|i: int, k: int|
                0 <= i < r.len() && 0 <= k < items.len() && !r.contains(items[k])
                    ==> index.documents@[(#[trigger] r[i]).doc as int].mtime
                    >= index.documents@[(#[trigger] items[k]).doc as int].mtime
        }),
{
    let keys = index.rank_keys(items, SortOrder::Recency);
    let r = limited(sorted, limit);
    let perm = sorting_moves_each_item_once(items, keys, sorted);
    assert forall|i: int, j: int| 0 <= i < j < sorted.len() implies index.documents@[(
    #[trigger] sorted[i]).doc as int].mtime >= index.documents@[(
    #[trigger] sorted[j]).doc as int].mtime by {
        let a = keys[perm[i] as int];
        let b = keys[perm[j] as int];
        assert(sorted[i] == items[perm[i] as int] && sorted[j] == items[perm[j] as int]);
        let x = index.documents@[sorted[i].doc as int].mtime;
        let y = index.documents@[sorted[j].doc as int].mtime;
        assert(!lex_lt(b, a));
        if x < y {
            let p = (u64::MAX - x) as u64;
            let q = (u64::MAX - y) as u64;
            assert(a =~= seq![(p / 0x1_0000_0000) as u32, (p % 0x1_0000_0000) as u32]);
            assert(b =~= seq![(q / 0x1_0000_0000) as u32, (q % 0x1_0000_0000) as u32]);
            lemma_number_order(q, p);
            assert(false);
        }
    }
    lemma_kept_before_left(items, sorted, perm, limit);
    assert forall|i: int, k: int|
        0 <= i < r.len() && 0 <= k < items.len() && !r.contains(
            items[k],
        ) implies index.documents@[(#[trigger] r[i]).doc as int].mtime >= index.documents@[(
    #[trigger] items[k]).doc as int].mtime by {
        let j = choose|j: int| r.len() <= j < sorted.len() && #[trigger] sorted[j] == items[k];
        assert(sorted[i] == r[i]);
    }
}

/// A number is ordered by its two halves, the upper first.
proof fn lemma_number_order(a: u64, b: u64)
    requires
        a < b,
    ensures
        lex_lt(
            seq![(a / 0x1_0000_0000) as u32, (a % 0x1_0000_0000) as u32],
            seq![(b / 0x1_0000_0000) as u32, (b % 0x1_0000_0000) as u32],
        ),
{
    let x = seq![(a / 0x1_0000_0000) as u32, (a % 0x1_0000_0000) as u32];
    let y = seq![(b / 0x1_0000_0000) as u32, (b % 0x1_0000_0000) as u32];
    assert(a / 0x1_0000_0000 < b / 0x1_0000_0000 || (a / 0x1_0000_0000 == b / 0x1_0000_0000 && a
        % 0x1_0000_0000 < b % 0x1_0000_0000));
    assert(a / 0x1_0000_0000 <= u32::MAX && b / 0x1_0000_0000 <= u32::MAX);
    if x[0] == y[0] {
        assert(x.drop_first() =~= seq![x[1]]);
        assert(y.drop_first() =~= seq![y[1]]);
        assert(lex_lt(x.drop_first(), y.drop_first()));
    }
}

/// An item that a limit leaves out stands behind those that it keeps.
proof fn lemma_kept_before_left<T>(items: Seq<T>, sorted: Seq<T>, perm: Seq<usize>, limit: nat)
    requires
        sorted.len() == items.len() == perm.len(),
        forall|i: int| 0 <= i < sorted.len() ==> #[trigger] sorted[i] == items[perm[i] as int],
        forall|k: int| 0 <= k < items.len() ==> #[trigger] names_place(perm, k),
    ensures
        forall|k: int|
            0 <= k < items.len() && !limited(sorted, limit).contains(#[trigger] items[k])
                ==> exists|j: int|
                limited(sorted, limit).len() <= j < sorted.len() && #[trigger] sorted[j]
                    == items[k],
{
    let r = limited(sorted, limit);
    assert forall|k: int| 0 <= k < items.len() && !r.contains(#[trigger] items[k]) implies exists|
        j: int,
    |
        r.len() <= j < sorted.len() && #[trigger] sorted[j] == items[k] by {
        assert(names_place(perm, k));
        let j = choose|j: int| 0 <= j < perm.len() && #[trigger] perm[j] as int == k;
        assert(sorted[j] == items[k]);
        if j < r.len() {
            assert(r[j] == sorted[j]);
            assert(r.contains(items[k]));
        }
    }
}

/// Under `sort:score` scores do not rise, and nothing that a limit leaves out
/// scores more than anything that is kept.
pub proof fn high_scores_come_first(
    index: Index,
    items: Seq<RankedHit>,
    sorted: Seq<RankedHit>,
    limit: nat,
)
    requires
        arranged(items, index.rank_keys(items, SortOrder::Score), sorted),
    ensures
        ({
            let r = limited(sorted, limit);
            &&& forall|i: int, j: int|
                0 <= i < j < r.len() ==> (#[trigger] r[i]).score >= (#[trigger] r[j]).score
            &&& forall|i: int, k: int|
                0 <= i < r.len() && 0 <= k < items.len() && !r.contains(items[k]) ==> (
                #[trigger] r[i]).score >= (#[trigger] items[k]).score
        }),
{
    let keys = index.rank_keys(items, SortOrder::Score);
    let r = limited(sorted, limit);
    let perm = sorting_moves_each_item_once(items, keys, sorted);
    assert forall|i: int, j: int| 0 <= i < j < sorted.len() implies (#[trigger] sorted[i]).score
        >= (#[trigger] sorted[j]).score by {
        assert(sorted[i] == items[perm[i] as int] && sorted[j] == items[perm[j] as int]);
        let a = keys[perm[i] as int];
        let b = keys[perm[j] as int];
        assert(!lex_lt(b, a));
        assert(a[0] == u32::MAX - sorted[i].score && b[0] == u32::MAX - sorted[j].score);
    }
    lemma_kept_before_left(items, sorted, perm, limit);
    assert forall|i: int, k: int|
        0 <= i < r.len() && 0 <= k < items.len() && !r.contains(items[k]) implies (
    #[trigger] r[i]).score >= (#[trigger] items[k]).score by {
        let j = choose|j: int| r.len() <= j < sorted.len() && #[trigger] sorted[j] == items[k];
        assert(sorted[i] == r[i]);
    }
}

/// Under `sort:path` no file comes before one whose path is before its own, and
/// nothing that a limit leaves out is before anything that is kept.
pub proof fn first_paths_come_first(
    index: Index,
    items: Seq<RankedHit>,
    sorted: Seq<RankedHit>,
    limit: nat,
)
    requires
        arranged(items, index.rank_keys(items, SortOrder::Path), sorted),
    ensures
        ({
            let r = limited(sorted, limit);
            &&& forall|i: int, j: int|
                0 <= i < j < r.len() ==> !lex_lt(
                    path_key((#[trigger] r[j]).path),
                    path_key((#[trigger] r[i]).path),
                )
            &&& forall|i: int, k: int|
                0 <= i < r.len() && 0 <= k < items.len() && !r.contains(items[k]) ==> !lex_lt(
                    path_key((#[trigger] items[k]).path),
                    path_key((#[trigger] r[i]).path),
                )
        }),
{
    let keys = index.rank_keys(items, SortOrder::Path);
    let r = limited(sorted, limit);
    let perm = sorting_moves_each_item_once(items, keys, sorted);
    assert forall|i: int, j: int| 0 <= i < j < sorted.len() implies !lex_lt(
        path_key((#[trigger] sorted[j]).path),
        path_key((#[trigger] sorted[i]).path),
    ) by {
        assert(sorted[i] == items[perm[i] as int] && sorted[j] == items[perm[j] as int]);
        assert(!lex_lt(keys[perm[j] as int], keys[perm[i] as int]));
    }
    lemma_kept_before_left(items, sorted, perm, limit);
    assert forall|i: int, k: int|
        0 <= i < r.len() && 0 <= k < items.len() && !r.contains(items[k]) implies !lex_lt(
        path_key((#[trigger] items[k]).path),
        path_key((#[trigger] r[i]).path),
    ) by {
        let j = choose|j: int| r.len() <= j < sorted.len() && #[trigger] sorted[j] == items[k];
        assert(sorted[i] == r[i]);
    }
}

proof fn lemma_scored_hits(r: FileHits, n: nat, score: ScoreKey)
    requires
        n <= r.hits.len(),
    ensures
        scored_hits(r, n, score).len() == n,
        forall|i: int|
            0 <= i < n ==> #[trigger] scored_hits(r, n, score)[i] == (RankedHit {
                doc: r.doc,
                path: r.path,
                line: r.hits[i].0,
                score,
            }),
    decreases n,
{
    if n > 0 {
        lemma_scored_hits(r, (n - 1) as nat, score);
    }
}

/// Each match of a document is ranked, one by one and in their order, with its
/// line and the score of its document; a document without matches is ranked
/// once, for its first line. A further document adds its own and changes nothing
/// about the others.
pub proof fn each_match_is_ranked(v: Seq<FileHits>, scores: Seq<ScoreKey>, r: FileHits, score: ScoreKey)
    requires
        scores.len() == v.len(),
    ensures
        ({
            let before = scored_results(v, scores, v.len());
            let all = scored_results(v.push(r), scores.push(score), v.len() + 1);
            let added = if r.hits.len() == 0 {
                1
            } else {
                r.hits.len()
            };
            &&& v.len() == 0 ==> before.len() == 0
            &&& all.len() == before.len() + added
            &&& forall|i: int| 0 <= i < before.len() ==> #[trigger] all[i] == before[i]
            &&& forall|i: int|
                before.len() <= i < all.len() ==> {
                    let h = #[trigger] all[i];
                    h.doc == r.doc && h.path == r.path && h.score == score && h.line
                        == if r.hits.len() == 0 {
                        1
                    } else {
                        r.hits[i - before.len()].0
                    }
                }
        }),
{
    let w = v.push(r);
    let s = scores.push(score);
    lemma_scored_prefix(v, scores, r, score, v.len());
    lemma_scored_hits(r, r.hits.len(), score);
    assert(w[v.len() as int] == r && s[v.len() as int] == score);
    let before = scored_results(v, scores, v.len());
    let all = scored_results(w, s, v.len() + 1);
    assert(scored_results(w, s, v.len()) == before);
    assert forall|i: int| before.len() <= i < all.len() implies {
        let h = #[trigger] all[i];
        h.doc == r.doc && h.path == r.path && h.score == score && h.line == if r.hits.len() == 0 {
            1
        } else {
            r.hits[i - before.len()].0
        }
    } by {
        if r.hits.len() > 0 {
            assert(all[i] == scored_hits(r, r.hits.len(), score)[i - before.len()]);
        }
    }
}

proof fn lemma_scored_prefix(
    v: Seq<FileHits>,
    scores: Seq<ScoreKey>,
    r: FileHits,
    score: ScoreKey,
    n: nat,
)
    requires
        n <= v.len() == scores.len(),
    ensures
        scored_results(v.push(r), scores.push(score), n) == scored_results(v, scores, n),
    decreases n,
{
    if n > 0 {
        lemma_scored_prefix(v, scores, r, score, (n - 1) as nat);
        assert(v.push(r)[n - 1] == v[n - 1]);
        assert(scores.push(score)[n - 1] == scores[n - 1]);
    }
}

/// A file that is found by its name is among the ranked results, for its first
/// line, unless a match in its text is; and no file is there by its name that
/// has a match in its text.
pub proof fn names_add_new_files(
    v: Seq<FileHits>,
    scores: Seq<ScoreKey>,
    names: Seq<(u32, Seq<char>)>,
    score: ScoreKey,
)
    ensures
        ({
            let found = scored_results(v, scores, v.len());
            let all = merged(v, scores, names, score);
            &&& forall|i: int| 0 <= i < found.len() ==> #[trigger] all[i] == found[i]
            &&& found.len() <= all.len()
            &&& forall|k: int|
                0 <= k < names.len() ==> path_among(all, (#[trigger] names[k]).1)
            &&& forall|i: int|
                found.len() <= i < all.len() ==> {
                    let h = #[trigger] all[i];
                    h.line == 1 && h.score == score && names.contains((h.doc, h.path)) && forall|
                        j: int,
                    |
                        0 <= j < found.len() ==> !same_path((#[trigger] found[j]).path, h.path)
                }
        }),
{
    let found = scored_results(v, scores, v.len());
    let more = new_names(found, names, names.len(), score);
    let all = merged(v, scores, names, score);
    lemma_new_names(found, names, names.len(), score);
    assert forall|k: int| 0 <= k < names.len() implies path_among(all, (#[trigger] names[k]).1) by {
        if path_among(found, names[k].1) {
            let i = choose|i: int|
                0 <= i < found.len() && same_path((#[trigger] found[i]).path, names[k].1);
            assert(all[i] == found[i]);
        } else {
            let i = choose|i: int|
                0 <= i < more.len() && same_path((#[trigger] more[i]).path, names[k].1);
            assert(all[found.len() + i] == more[i]);
        }
    }
    assert forall|i: int| found.len() <= i < all.len() implies {
        let h = #[trigger] all[i];
        h.line == 1 && h.score == score && names.contains((h.doc, h.path)) && forall|j: int|
            0 <= j < found.len() ==> !same_path((#[trigger] found[j]).path, h.path)
    } by {
        assert(all[i] == more[i - found.len()]);
    }
}

proof fn lemma_new_names(
    found: Seq<RankedHit>,
    names: Seq<(u32, Seq<char>)>,
    n: nat,
    score: ScoreKey,
)
    requires
        n <= names.len(),
    ensures
        ({
            let more = new_names(found, names, n, score);
            &&& forall|k: int|
                0 <= k < n ==> path_among(found, (#[trigger] names[k]).1) || path_among(
                    more,
                    names[k].1,
                )
            &&& forall|i: int|
                0 <= i < more.len() ==> {
                    let h = #[trigger] more[i];
                    h.line == 1 && h.score == score && names.contains((h.doc, h.path))
                        && !path_among(found, h.path)
                }
        }),
    decreases n,
{
    if n > 0 {
        lemma_new_names(found, names, (n - 1) as nat, score);
        let before = new_names(found, names, (n - 1) as nat, score);
        let more = new_names(found, names, n, score);
        assert forall|k: int| 0 <= k < n implies path_among(found, (#[trigger] names[k]).1)
            || path_among(more, names[k].1) by {
            if !path_among(found, names[k].1) {
                if k < n - 1 {
                    let i = choose|i: int|
                        0 <= i < before.len() && same_path((#[trigger] before[i]).path, names[k].1);
                    assert(more[i] == before[i]);
                } else {
                    assert(more[more.len() - 1].path == names[k].1);
                }
            }
        }
        assert forall|i: int| 0 <= i < more.len() implies {
            let h = #[trigger] more[i];
            h.line == 1 && h.score == score && names.contains((h.doc, h.path)) && !path_among(
                found,
                h.path,
            )
        } by {
            if i < before.len() {
                assert(more[i] == before[i]);
            } else {
                assert(names[n - 1] == (more[i].doc, more[i].path));
            }
        }
    }
}

/// A file name is searched for terms in lower case, each once, and every term is
/// searched for.
pub proof fn each_term_is_searched_once(v: Seq<Seq<char>>)
    ensures
        distinct_lower(v).no_duplicates(),
        forall|k: int| 0 <= k < v.len() ==> distinct_lower(v).contains(lower_case(#[trigger] v[k])),
        forall|i: int|
            0 <= i < distinct_lower(v).len() ==> exists|k: int|
                0 <= k < v.len() && lower_case(#[trigger] v[k]) == #[trigger] distinct_lower(v)[i],
    decreases v.len(),
{
    if v.len() > 0 {
        let front = v.drop_last();
        each_term_is_searched_once(front);
        let before = distinct_lower(front);
        let all = distinct_lower(v);
        assert forall|k: int| 0 <= k < v.len() implies all.contains(
            lower_case(#[trigger] v[k]),
        ) by {
            if k < v.len() - 1 {
                assert(front[k] == v[k]);
                let i = choose|i: int| 0 <= i < before.len() && before[i] == lower_case(v[k]);
                assert(all[i] == before[i]);
            } else if !before.contains(lower_case(v.last())) {
                assert(all[all.len() - 1] == lower_case(v[k]));
            }
        }
        assert forall|i: int| 0 <= i < all.len() implies exists|k: int|
            0 <= k < v.len() && lower_case(#[trigger] v[k]) == #[trigger] all[i] by {
            if i < before.len() {
                assert(all[i] == before[i]);
                let k = choose|k: int|
                    0 <= k < front.len() && lower_case(#[trigger] front[k]) == before[i];
                assert(v[k] == front[k]);
            } else {
                assert(lower_case(v[v.len() - 1]) == all[i]);
            }
        }
    }
}

} // verus!
