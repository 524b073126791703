//! The best results of many, with candidates that cannot be among them left
//! out.
//!
//! Every candidate has an upper bound of its score. Candidates are taken in
//! descending order of their bounds; once the best bound left does not beat the
//! least score among the results kept, no candidate can.
//!
//! Scores are numbers that are in the order of the scores they stand for; zero
//! stands for no score.
use crate::order::{key_lists, order_by_keys, sorts};
use crate::query::content::FileMatch;
use crate::query::search::{arranged, picked};
use vstd::prelude::*;

verus! {

/// A score, or what stands for it in the same order.
pub type ScoreKey = u32;

/// A document that may be among the results.
#[derive(Debug)]
pub struct WandCandidate {
    pub doc_id: u32,
    pub full_path: String,
    pub rel_path: String,
    pub mtime: u64,
    /// A score that the document's own cannot exceed.
    pub upper_bound: ScoreKey,
    pub depth: usize,
}

/// A result.
#[derive(Debug)]
pub struct TopKEntry {
    pub score: ScoreKey,
    pub doc_id: u32,
    pub path: String,
    pub mtime: u64,
    pub matches: Vec<FileMatch>,
}

/// The best results so far, at most `capacity` of them.
#[derive(Debug)]
pub struct TopKHeap {
    pub entries: Vec<TopKEntry>,
    pub capacity: usize,
}

/// Whether an entry has the least score.
pub open spec fn is_least(v: Seq<TopKEntry>, i: int) -> bool {
    0 <= i < v.len() && forall|j: int| 0 <= j < v.len() ==> v[i].score <= (#[trigger] v[j]).score
}

/// The keys that put entries in descending order of scores.
pub open spec fn score_keys(v: Seq<TopKEntry>) -> Seq<Seq<u32>> {
    v.map_values(|e: TopKEntry| seq![(u32::MAX - e.score) as u32])
}

impl TopKHeap {
    /// There are no more entries than the capacity allows.
    pub open spec fn wf(&self) -> bool {
        self.entries@.len() <= self.capacity
    }

    /// Whether there is no room left.
    pub open spec fn full(&self) -> bool {
        self.entries@.len() >= self.capacity
    }

    /// Whether a score gets an entry in: there is room, or it beats the least
    /// score kept.
    pub open spec fn admits(&self, score: ScoreKey) -> bool {
        !self.full() || exists|i: int|
            0 <= i < self.entries@.len() && (#[trigger] self.entries@[i]).score < score
    }

    /// Whether an entry turns these results into others: it joins them where
    /// there is room, or takes the place of one with the least score where its
    /// own is higher.
    pub open spec fn becomes(&self, entry: TopKEntry, after: TopKHeap) -> bool {
        &&& after.capacity == self.capacity
        &&& if !self.full() {
            after.entries@ == self.entries@.push(entry)
        } else if self.admits(entry.score) {
            exists|i: int| #[trigger]
                is_least(self.entries@, i) && after.entries@ == self.entries@.remove(i).push(entry)
        } else {
            after.entries@ == self.entries@
        }
    }

    /// Room for the `k` best results.
    pub fn new(k: usize) -> (r: TopKHeap)
        ensures
            r.wf(),
            r.entries@.len() == 0,
            r.capacity == k,
    {
        TopKHeap { entries: Vec::new(), capacity: k }
    }

    /// The place of the first entry with the least score.
    fn least(&self) -> (r: usize)
        requires
            self.entries@.len() > 0,
        ensures
            is_least(self.entries@, r as int),
    {
        let mut best: usize = 0;
        let mut i: usize = 1;
        while i < self.entries.len()
            invariant
                best < i <= self.entries@.len(),
                forall|j: int|
                    0 <= j < i ==> self.entries@[best as int].score <= (
                    #[trigger] self.entries@[j]).score,
            decreases self.entries@.len() - i,
        {
            if self.entries[i].score < self.entries[best].score {
                best = i;
            }
            i += 1;
        }
        best
    }

    /// The least score kept once there is no room left; zero before.
    pub fn threshold(&self) -> (r: ScoreKey)
        ensures
            !self.full() || self.entries@.len() == 0 ==> r == 0,
            self.full() && self.entries@.len() > 0 ==> exists|i: int| #[trigger]
                is_least(self.entries@, i) && r == self.entries@[i].score,
    {
        if self.entries.len() >= self.capacity && self.entries.len() > 0 {
            let i = self.least();
            self.entries[i].score
        } else {
            0
        }
    }

    /// Whether a score gets an entry in.
    pub fn would_enter(&self, score: ScoreKey) -> (r: bool)
        ensures
            r == self.admits(score),
    {
        if self.entries.len() < self.capacity {
            return true;
        }
        if self.entries.len() == 0 {
            return false;
        }
        let i = self.least();
        self.entries[i].score < score
    }

    /// Takes an entry in where there is room, or in place of one with the least
    /// score where its own is higher. Tells whether it was taken in.
    pub fn try_insert(&mut self, entry: TopKEntry) -> (r: bool)
        requires
            old(self).wf(),
        ensures
            final(self).wf(),
            r == old(self).admits(entry.score),
            old(self).becomes(entry, *final(self)),
    {
        if self.entries.len() < self.capacity {
            self.entries.push(entry);
            return true;
        }
        if !self.would_enter(entry.score) {
            return false;
        }
        let i = self.least();
        self.entries.remove(i);
        self.entries.push(entry);
        true
    }

    /// Number of entries.
    pub fn len(&self) -> (r: usize)
        ensures
            r == self.entries@.len(),
    {
        self.entries.len()
    }

    /// Whether there are no entries.
    pub fn is_empty(&self) -> (r: bool)
        ensures
            r == (self.entries@.len() == 0),
    {
        self.entries.len() == 0
    }

    /// Whether there is no room left.
    pub fn is_full(&self) -> (r: bool)
        ensures
            r == self.full(),
    {
        self.entries.len() >= self.capacity
    }

    /// The entries in descending order of scores.
    pub fn into_sorted_vec(self) -> (r: Vec<TopKEntry>)
        ensures
            arranged(self.entries@, score_keys(self.entries@), r@),
    {
        let ghost all = self.entries@;
        let mut keys: Vec<Vec<u32>> = Vec::new();
        let mut k: usize = 0;
        while k < self.entries.len()
            invariant
                k <= all.len(),
                all == self.entries@,
                key_lists(keys@) == score_keys(all).take(k as int),
            decreases all.len() - k,
        {
            let ghost was = keys@;
            let mut key: Vec<u32> = Vec::new();
            key.push(u32::MAX - self.entries[k].score);
            assert(key@ =~= score_keys(all)[k as int]);
            keys.push(key);
            k += 1;
            assert(key_lists(keys@) =~= key_lists(was).push(key@));
            assert(score_keys(all).take(k as int) =~= score_keys(all).take(k - 1).push(key@));
        }
        assert(score_keys(all).take(all.len() as int) =~= score_keys(all));
        let perm = order_by_keys(keys);
        // Entries are moved out of slots, each of which is named once.
        let mut slots: Vec<Option<TopKEntry>> = Vec::new();
        let mut rest = self.entries;
        let n = rest.len();
        let mut i: usize = 0;
        while i < n
            invariant
                i <= n == all.len(),
                rest@ == all.skip(i as int),
                slots@.len() == i,
                forall|j: int| 0 <= j < i ==> #[trigger] slots@[j] == Some(all[j]),
            decreases n - i,
        {
            let e = rest.remove(0);
            slots.push(Some(e));
            i += 1;
            assert(rest@ =~= all.skip(i as int));
        }
        proof {
            crate::order::lemma_all_places(score_keys(all), perm@);
        }
        let mut out: Vec<TopKEntry> = Vec::new();
        let mut m: usize = 0;
        while m < perm.len()
            invariant
                m <= perm@.len(),
                n == all.len(),
                slots@.len() == n,
                forall|j: int| 0 <= j < perm@.len() ==> (#[trigger] perm@[j]) < n,
                perm@.no_duplicates(),
                forall|j: int|
                    m <= j < perm@.len() ==> slots@[#[trigger] perm@[j] as int] == Some(
                        all[perm@[j] as int],
                    ),
                out@ == picked(all, perm@).take(m as int),
            decreases perm@.len() - m,
        {
            let p = perm[m];
            assert(perm@[m as int] < n);
            let mut taken: Option<TopKEntry> = None;
            let ghost before = slots@;
            assert(slots@[perm@[m as int] as int] == Some(all[perm@[m as int] as int]));
            let e = slots.remove(p);
            slots.insert(p, taken);
            assert(slots@ =~= before.update(p as int, None));
            let e = e.unwrap();
            out.push(e);
            assert forall|j: int| m + 1 <= j < perm@.len() implies slots@[
                #[trigger] perm@[j] as int
            ] == Some(all[perm@[j] as int]) by {
                assert(perm@[j] != perm@[m as int]);
            }
            m += 1;
            assert(picked(all, perm@).take(m as int) =~= picked(all, perm@).take(m - 1).push(e));
        }
        assert(picked(all, perm@).take(perm@.len() as int) =~= picked(all, perm@));
        assert(sorts(score_keys(all), perm@));
        out
    }
}

/// Picking every place of a list once gives its items.
proof fn lemma_picked<T>(items: Seq<T>, perm: Seq<usize>)
    requires
        perm.len() == items.len() <= usize::MAX,
        perm.no_duplicates(),
        forall|i: int| 0 <= i < perm.len() ==> (#[trigger] perm[i]) < items.len(),
        forall|v: usize| v < items.len() ==> #[trigger] perm.contains(v),
    ensures
        picked(items, perm).to_multiset() == items.to_multiset(),
    decreases items.len(),
{
    broadcast use vstd::multiset::group_multiset_axioms;

    let out = picked(items, perm);
    if items.len() == 0 {
        assert(out =~= items);
    } else {
        let n = items.len() - 1;
        let last = n as usize;
        assert(perm[0] < items.len());
        assert(perm.contains(last));
        let p = choose|p: int| 0 <= p < perm.len() && perm[p] == last;
        let fewer = perm.remove(p);
        let rest = items.drop_last();
        assert forall|i: int| 0 <= i < fewer.len() implies (#[trigger] fewer[i]) < rest.len() by {
            let j = if i < p {
                i
            } else {
                i + 1
            };
            assert(fewer[i] == perm[j]);
            assert(perm[j] != perm[p]);
        }
        assert forall|v: usize| v < rest.len() implies #[trigger] fewer.contains(v) by {
            assert(perm.contains(v));
            let q = choose|q: int| 0 <= q < perm.len() && perm[q] == v;
            let j = if q < p {
                q
            } else {
                q - 1
            };
            assert(fewer[j] == v);
        }
        lemma_picked(rest, fewer);
        assert(picked(rest, fewer) =~= out.remove(p));
        vstd::seq_lib::to_multiset_remove(out, p);
        vstd::seq_lib::to_multiset_build(rest, items.last());
        assert(rest.push(items.last()) =~= items);
        assert(out[p] == items.last());
        vstd::seq_lib::to_multiset_contains(out, out[p]);
        assert(out.to_multiset() =~= items.to_multiset());
    }
}

/// The results as they grow: none at first, then after each entry.
pub open spec fn fed(states: Seq<TopKHeap>, entries: Seq<TopKEntry>) -> bool {
    &&& states.len() == entries.len() + 1
    &&& states[0].entries@.len() == 0
    &&& forall|i: int|
        0 <= i < entries.len() ==> (#[trigger] states[i]).becomes(entries[i], states[i + 1])
}

/// Whether of all entries those that are kept are among the best: nothing left
/// out scores more than anything kept.
pub open spec fn best_of(kept: Seq<TopKEntry>, all: Seq<TopKEntry>) -> bool {
    let left = all.to_multiset().sub(kept.to_multiset());
    &&& kept.to_multiset().subset_of(all.to_multiset())
    &&& forall|e: TopKEntry, i: int|
        #![trigger left.count(e), kept[i]]
        left.count(e) > 0 && 0 <= i < kept.len() ==> e.score <= kept[i].score
}

/// One more entry leaves the best of all.
proof fn lemma_one_more(before: TopKHeap, all: Seq<TopKEntry>, entry: TopKEntry, after: TopKHeap)
    requires
        before.becomes(entry, after),
        before.full() ==> best_of(before.entries@, all),
        !before.full() ==> before.entries@ == all,
    ensures
        best_of(after.entries@, all.push(entry)),
        !before.full() ==> after.entries@ == all.push(entry),
{
    broadcast use vstd::multiset::group_multiset_axioms;

    let old = before.entries@;
    let new = after.entries@;
    let more = all.push(entry);
    let was = all.to_multiset().sub(old.to_multiset());
    let left = more.to_multiset().sub(new.to_multiset());
    vstd::seq_lib::to_multiset_build(all, entry);
    if before.full() && before.admits(entry.score) {
        let i = choose|i: int| #[trigger]
            is_least(old, i) && new == old.remove(i).push(entry);
        vstd::seq_lib::to_multiset_build(old.remove(i), entry);
        vstd::seq_lib::to_multiset_remove(old, i);
        vstd::seq_lib::to_multiset_contains(old, old[i]);
        assert(old.contains(old[i]));
        assert(new.to_multiset().subset_of(more.to_multiset()));
        assert(left =~= was.insert(old[i]));
        let k = choose|k: int| 0 <= k < old.len() && (#[trigger] old[k]).score < entry.score;
        assert forall|e: TopKEntry, j: int|
            #![trigger left.count(e), new[j]]
            left.count(e) > 0 && 0 <= j < new.len() implies e.score <= new[j].score by {
            let place = if j < i {
                j
            } else if j < new.len() - 1 {
                j + 1
            } else {
                k
            };
            assert(old[place].score <= new[j].score);
            assert(old[i].score <= old[place].score);
            if e != old[i] {
                assert(was.count(e) > 0);
            }
        }
    } else if before.full() {
        assert(new.to_multiset().subset_of(more.to_multiset()));
        assert(left =~= was.insert(entry));
        assert forall|e: TopKEntry, j: int|
            #![trigger left.count(e), new[j]]
            left.count(e) > 0 && 0 <= j < new.len() implies e.score <= new[j].score by {
            assert(!(old[j].score < entry.score));
            if e != entry {
                assert(was.count(e) > 0);
            }
        }
    }
}

/// After the first `n` entries the best of them are kept.
proof fn lemma_best_so_far(states: Seq<TopKHeap>, entries: Seq<TopKEntry>, n: nat)
    requires
        fed(states, entries),
        n <= entries.len(),
    ensures
        states[n as int].capacity == states[0].capacity,
        states[n as int].entries@.len() == if n < states[0].capacity {
            n
        } else {
            states[0].capacity as nat
        },
        best_of(states[n as int].entries@, entries.take(n as int)),
        n <= states[0].capacity ==> states[n as int].entries@ == entries.take(n as int),
    decreases n,
{
    broadcast use vstd::multiset::group_multiset_axioms;

    if n == 0 {
        assert(states[0].entries@ =~= entries.take(0));
    } else {
        let m = n - 1;
        lemma_best_so_far(states, entries, m as nat);
        assert(states[m].becomes(entries[m], states[m + 1]));
        lemma_one_more(states[m], entries.take(m), entries[m], states[m + 1]);
        assert(entries.take(m).push(entries[m]) =~= entries.take(n as int));
    }
}

/// The greatest entries are kept, however many are taken in: of all of them, as
/// many as there is room for, in descending order of scores, and nothing that
/// is left out scores more than anything that is kept.
pub proof fn the_greatest_are_kept(
    states: Seq<TopKHeap>,
    entries: Seq<TopKEntry>,
    result: Seq<TopKEntry>,
)
    requires
        fed(states, entries),
        arranged(states.last().entries@, score_keys(states.last().entries@), result),
    ensures
        result.len() == if entries.len() < states[0].capacity {
            entries.len()
        } else {
            states[0].capacity as nat
        },
        forall|i: int, j: int|
            0 <= i < j < result.len() ==> (#[trigger] result[i]).score >= (
            #[trigger] result[j]).score,
        best_of(result, entries),
{
    let kept = states.last().entries@;
    let keys = score_keys(kept);
    lemma_best_so_far(states, entries, entries.len());
    assert(entries.take(entries.len() as int) =~= entries);
    let perm = choose|perm: Seq<usize>| #[trigger] sorts(keys, perm) && result == picked(kept, perm);
    crate::order::lemma_all_places(keys, perm);
    lemma_picked(kept, perm);
    assert forall|i: int, j: int| 0 <= i < j < result.len() implies (#[trigger] result[i]).score >= (
    #[trigger] result[j]).score by {
        let a = keys[perm[i] as int];
        let b = keys[perm[j] as int];
        assert(a == seq![(u32::MAX - result[i].score) as u32]);
        assert(b == seq![(u32::MAX - result[j].score) as u32]);
        assert(crate::order::comes_first(a, perm[i] as int, b, perm[j] as int));
    }
    let left = entries.to_multiset().sub(kept.to_multiset());
    assert forall|e: TopKEntry, i: int|
        #![trigger left.count(e), result[i]]
        left.count(e) > 0 && 0 <= i < result.len() implies e.score <= result[i].score by {
        assert(perm[i] < kept.len());
        assert(result[i] == kept[perm[i] as int]);
    }
}

/// How the candidates fared.
#[derive(Debug, Clone, Copy, PartialEq, Eq, Structural)]
pub struct WandStats {
    pub total_candidates: usize,
    /// Left out without being looked at.
    pub pruned_by_upper_bound: usize,
    pub verified: usize,
    pub entered_top_k: usize,
    pub early_terminated: bool,
}

/// A count and more, within the range of machine sizes.
pub open spec fn counted(n: usize, more: nat) -> usize {
    if n + more > usize::MAX {
        usize::MAX
    } else {
        (n + more) as usize
    }
}

impl Default for WandStats {
    fn default() -> (r: Self)
        ensures
            r == (WandStats {
                total_candidates: 0,
                pruned_by_upper_bound: 0,
                verified: 0,
                entered_top_k: 0,
                early_terminated: false,
            }),
    {
        WandStats {
            total_candidates: 0,
            pruned_by_upper_bound: 0,
            verified: 0,
            entered_top_k: 0,
            early_terminated: false,
        }
    }
}

/// Whether a candidate has the highest bound.
pub open spec fn is_best(v: Seq<WandCandidate>, i: int) -> bool {
    0 <= i < v.len() && forall|j: int|
        0 <= j < v.len() ==> (#[trigger] v[j]).upper_bound <= v[i].upper_bound
}

/// Candidates on their way to results.
#[derive(Debug)]
pub struct WandProcessor {
    pub candidates: Vec<WandCandidate>,
    pub top_k: TopKHeap,
    pub stats: WandStats,
    pub limit: usize,
}

impl WandProcessor {
    /// There is room for as many results as the limit says.
    pub open spec fn wf(&self) -> bool {
        self.top_k.wf() && self.top_k.capacity == self.limit
    }

    /// A processor for the `limit` best results.
    pub fn new(limit: usize) -> (r: WandProcessor)
        ensures
            r.wf(),
            r.candidates@.len() == 0,
            r.top_k.entries@.len() == 0,
            r.limit == limit,
            r.stats.total_candidates == 0 && r.stats.pruned_by_upper_bound == 0
                && r.stats.verified == 0 && r.stats.entered_top_k == 0
                && !r.stats.early_terminated,
    {
        WandProcessor {
            candidates: Vec::new(),
            top_k: TopKHeap::new(limit),
            stats: WandStats::default(),
            limit,
        }
    }

    /// Adds a candidate.
    pub fn add_candidate(&mut self, candidate: WandCandidate)
        requires
            old(self).wf(),
        ensures
            final(self).wf(),
            final(self).candidates@ == old(self).candidates@.push(candidate),
            final(self).top_k == old(self).top_k,
            final(self).limit == old(self).limit,
            final(self).stats == (WandStats {
                total_candidates: counted(old(self).stats.total_candidates, 1),
                ..old(self).stats
            }),
    {
        self.stats.total_candidates = self.stats.total_candidates.saturating_add(1);
        self.candidates.push(candidate);
    }

    /// Adds several candidates.
    pub fn add_candidates(&mut self, candidates: Vec<WandCandidate>)
        requires
            old(self).wf(),
        ensures
            final(self).wf(),
            final(self).candidates@ == old(self).candidates@ + candidates@,
            final(self).top_k == old(self).top_k,
            final(self).limit == old(self).limit,
            final(self).stats == (WandStats {
                total_candidates: counted(
                    old(self).stats.total_candidates,
                    candidates@.len(),
                ),
                ..old(self).stats
            }),
    {
        let mut candidates = candidates;
        self.stats.total_candidates = self.stats.total_candidates.saturating_add(
            candidates.len(),
        );
        self.candidates.append(&mut candidates);
    }

    /// The least score that the results have once they are complete.
    pub fn threshold(&self) -> (r: ScoreKey)
        ensures
            !self.top_k.full() || self.top_k.entries@.len() == 0 ==> r == 0,
            self.top_k.full() && self.top_k.entries@.len() > 0 ==> exists|i: int| #[trigger]
                is_least(self.top_k.entries@, i) && r == self.top_k.entries@[i].score,
    {
        self.top_k.threshold()
    }

    /// The place of the first candidate with the highest bound.
    fn best(&self) -> (r: usize)
        requires
            self.candidates@.len() > 0,
        ensures
            is_best(self.candidates@, r as int),
    {
        let mut best: usize = 0;
        let mut i: usize = 1;
        while i < self.candidates.len()
            invariant
                best < i <= self.candidates@.len(),
                forall|j: int|
                    0 <= j < i ==> (#[trigger] self.candidates@[j]).upper_bound
                        <= self.candidates@[best as int].upper_bound,
            decreases self.candidates@.len() - i,
        {
            if self.candidates[best].upper_bound < self.candidates[i].upper_bound {
                best = i;
            }
            i += 1;
        }
        best
    }

    /// The candidate with the highest bound. Where that bound cannot get an
    /// entry into the results, none is given and none is left: no candidate can.
    pub fn next_candidate(&mut self) -> (r: Option<WandCandidate>)
        requires
            old(self).wf(),
        ensures
            final(self).wf(),
            final(self).top_k == old(self).top_k,
            final(self).limit == old(self).limit,
            old(self).candidates@.len() == 0 ==> r is None && final(self).candidates@
                == old(self).candidates@ && final(self).stats == old(self).stats,
            old(self).candidates@.len() > 0 ==> exists|i: int| #[trigger]
                is_best(old(self).candidates@, i) && if old(self).top_k.admits(
                    old(self).candidates@[i].upper_bound,
                ) {
                    &&& r == Some(old(self).candidates@[i])
                    &&& final(self).candidates@ == old(self).candidates@.remove(i)
                    &&& final(self).stats == old(self).stats
                } else {
                    &&& r is None
                    &&& final(self).candidates@.len() == 0
                    &&& final(self).stats == (WandStats {
                        pruned_by_upper_bound: counted(
                            old(self).stats.pruned_by_upper_bound,
                            old(self).candidates@.len(),
                        ),
                        early_terminated: true,
                        ..old(self).stats
                    })
                },
            r is None ==> final(self).candidates@ == Seq::<WandCandidate>::empty(),
            r is None ==> forall|j: int|
                0 <= j < old(self).candidates@.len() ==> !final(self).top_k.admits(
                    (#[trigger] old(self).candidates@[j]).upper_bound,
                ),
    {
        if self.candidates.len() == 0 {
            return None;
        }
        let i = self.best();
        assert(is_best(old(self).candidates@, i as int));
        if self.top_k.would_enter(self.candidates[i].upper_bound) {
            return Some(self.candidates.remove(i));
        }
        self.stats.pruned_by_upper_bound = self.stats.pruned_by_upper_bound.saturating_add(
            self.candidates.len(),
        );
        self.stats.early_terminated = true;
        self.candidates.clear();
        None
    }

    /// Takes in the result of a candidate that was looked at.
    pub fn submit_result(&mut self, entry: TopKEntry)
        requires
            old(self).wf(),
        ensures
            final(self).wf(),
            final(self).candidates == old(self).candidates,
            final(self).limit == old(self).limit,
            final(self).stats == (WandStats {
                verified: counted(old(self).stats.verified, 1),
                entered_top_k: if old(self).top_k.admits(entry.score) {
                    counted(old(self).stats.entered_top_k, 1)
                } else {
                    old(self).stats.entered_top_k
                },
                ..old(self).stats
            }),
            old(self).top_k.becomes(entry, final(self).top_k),
    {
        self.stats.verified = self.stats.verified.saturating_add(1);
        if self.top_k.try_insert(entry) {
            self.stats.entered_top_k = self.stats.entered_top_k.saturating_add(1);
        }
    }

    /// Notes that a candidate that was looked at had no match.
    pub fn record_no_match(&mut self)
        requires
            old(self).wf(),
        ensures
            final(self).wf(),
            final(self).candidates == old(self).candidates,
            final(self).top_k == old(self).top_k,
            final(self).limit == old(self).limit,
            final(self).stats == (WandStats {
                verified: counted(old(self).stats.verified, 1),
                ..old(self).stats
            }),
    {
        self.stats.verified = self.stats.verified.saturating_add(1);
    }

    /// Whether there are as many results as asked for.
    pub fn has_enough_results(&self) -> (r: bool)
        ensures
            r == self.top_k.full(),
    {
        self.top_k.is_full()
    }

    /// How the candidates fared.
    pub fn stats(&self) -> (r: &WandStats)
        ensures
            *r == self.stats,
    {
        &self.stats
    }

    /// The results in descending order of scores, and how the candidates fared.
    pub fn into_results(self) -> (r: (Vec<TopKEntry>, WandStats))
        ensures
            arranged(self.top_k.entries@, score_keys(self.top_k.entries@), r.0@),
            r.1 == self.stats,
    {
        let stats = self.stats;
        (self.top_k.into_sorted_vec(), stats)
    }

    /// Number of results asked for.
    pub fn limit(&self) -> (r: usize)
        ensures
            r == self.limit,
    {
        self.limit
    }

    /// Number of candidates left.
    pub fn remaining_candidates(&self) -> (r: usize)
        ensures
            r == self.candidates@.len(),
    {
        self.candidates.len()
    }
}

} // verus!
