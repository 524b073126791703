//! Changes that wait to be written to an index, and when they are due.
use crate::server::watcher::{
    added_change_is_mentioned, no_changes, BatchModel, ChangeBatch, ChangeKind, FileChange,
    WatcherMessage,
};
use vstd::prelude::*;

verus! {

/// A point in time: nanoseconds since the server started.
pub type Moment = u64;

/// Quiet time after which visible changes are written, in nanoseconds.
pub const QUIET_NANOS: u64 = 250_000_000;

/// Age at which visible changes are written in any case, in nanoseconds.
pub const MAX_AGE_NANOS: u64 = 10_000_000_000;

/// Time after which a failed update is tried again, in nanoseconds.
pub const RETRY_NANOS: u64 = 1_000_000_000;

/// Most messages that are taken at a time.
pub const MESSAGE_BACKLOG: usize = 1024;

/// Changes of one index that wait to be written.
#[derive(Debug)]
pub struct PendingChanges {
    pub batch: ChangeBatch,
    pub first_change: Moment,
    pub last_change: Moment,
    /// Whether searches do not see all of the changes yet.
    pub needs_visibility: bool,
    /// Not to be tried before this time.
    pub retry_after: Option<Moment>,
}

/// The mathematical content of [`PendingChanges`].
pub struct PendingModel {
    pub batch: BatchModel,
    pub first_change: Moment,
    pub last_change: Moment,
    pub needs_visibility: bool,
    pub retry_after: Option<Moment>,
}

impl View for PendingChanges {
    type V = PendingModel;

    open spec fn view(&self) -> PendingModel {
        PendingModel {
            batch: self.batch@,
            first_change: self.first_change,
            last_change: self.last_change,
            needs_visibility: self.needs_visibility,
            retry_after: self.retry_after,
        }
    }
}

/// The time since a point in time.
pub open spec fn since(now: Moment, then: Moment) -> int {
    if now >= then {
        now - then
    } else {
        0
    }
}

/// A time some nanoseconds later, within the range of times.
pub open spec fn later(now: Moment, nanos: u64) -> Moment {
    if now + nanos > u64::MAX {
        u64::MAX
    } else {
        (now + nanos) as u64
    }
}

impl PendingModel {
    /// Whether the changes are to be written: with an interval of their own, or
    /// without a watcher, at that age; else once they are quiet, or old.
    pub open spec fn durable_due(self, now: Moment, flush_interval: u64, watching: bool) -> bool {
        if !watching || flush_interval != 0 {
            since(now, self.first_change) >= flush_interval
        } else {
            since(now, self.last_change) >= QUIET_NANOS || since(now, self.first_change)
                >= MAX_AGE_NANOS
        }
    }

    /// Whether a failed update keeps the changes back.
    pub open spec fn held_back(self, now: Moment) -> bool {
        self.retry_after is Some && now < self.retry_after->0
    }

    /// Whether anything is to be done, and if so whether to write.
    pub open spec fn due(self, now: Moment, flush_interval: u64, watching: bool) -> Option<bool> {
        if self.held_back(now) {
            None
        } else if self.durable_due(now, flush_interval, watching) || self.needs_visibility {
            Some(self.durable_due(now, flush_interval, watching))
        } else {
            None
        }
    }

    /// The changes with newer ones: they are to be made visible.
    pub open spec fn joined_by(self, batch: BatchModel, now: Moment) -> PendingModel {
        PendingModel {
            batch: self.batch.merged_with(batch),
            last_change: now,
            needs_visibility: true,
            ..self
        }
    }

    /// Newer changes with older ones that are put back: they need another pass.
    pub open spec fn with_restored(self, older: PendingModel) -> PendingModel {
        PendingModel {
            batch: self.batch.merged_with(older.batch),
            first_change: if older.first_change < self.first_change {
                older.first_change
            } else {
                self.first_change
            },
            needs_visibility: true,
            ..self
        }
    }
}

/// Changes that have just come.
pub open spec fn fresh(batch: BatchModel, now: Moment) -> PendingModel {
    PendingModel {
        batch,
        first_change: now,
        last_change: now,
        needs_visibility: true,
        retry_after: None,
    }
}

fn elapsed(now: Moment, then: Moment) -> (r: u64)
    ensures
        r == since(now, then),
{
    now.saturating_sub(then)
}

impl PendingChanges {
    /// Whether anything is to be done, and if so whether to write.
    pub fn is_due(&self, now: Moment, flush_interval: u64, watching: bool) -> (r: Option<bool>)
        ensures
            r == self@.due(now, flush_interval, watching),
    {
        match self.retry_after {
            Some(at) => {
                if now < at {
                    return None;
                }
            },
            None => {},
        }
        let durable = if !watching || flush_interval != 0 {
            elapsed(now, self.first_change) >= flush_interval
        } else {
            elapsed(now, self.last_change) >= QUIET_NANOS || elapsed(now, self.first_change)
                >= MAX_AGE_NANOS
        };
        if durable || self.needs_visibility {
            Some(durable)
        } else {
            None
        }
    }
}

/// Changes by root.
pub type Roots = Seq<(Seq<char>, PendingModel)>;

/// Whether the entry at place `i` is that of a root.
pub open spec fn entry_of(v: Roots, i: int, root: Seq<char>) -> bool {
    0 <= i < v.len() && v[i].0 == root
}

/// Whether no root has two entries.
pub open spec fn one_per_root(v: Roots) -> bool {
    forall|i: int, j: int| 0 <= i < j < v.len() ==> (#[trigger] v[i]).0 != (#[trigger] v[j]).0
}

/// What waits for a root.
pub open spec fn pending_for(v: Roots, root: Seq<char>) -> Option<PendingModel> {
    if exists|i: int| entry_of(v, i, root) {
        Some(v[choose|i: int| entry_of(v, i, root)].1)
    } else {
        None
    }
}

/// All changes that wait, by root.
#[derive(Debug)]
pub struct PendingTable {
    pub roots: Vec<(String, PendingChanges)>,
}

impl View for PendingTable {
    type V = Roots;

    open spec fn view(&self) -> Roots {
        self.roots@.map_values(|p: (String, PendingChanges)| (p.0@, p.1@))
    }
}

/// What happened to a batch of changes.
#[derive(Debug, Clone, Copy, PartialEq, Eq, Structural)]
pub enum FlushOutcome {
    /// Written.
    Written,
    /// Visible to searches, not written.
    Visible,
    /// Neither.
    Failed,
}

impl PendingTable {
    /// No root has two entries.
    pub open spec fn wf(&self) -> bool {
        one_per_root(self@)
    }

    /// A table without changes.
    pub fn new() -> (r: PendingTable)
        ensures
            r.wf(),
            r@ == Roots::empty(),
    {
        let r = PendingTable { roots: Vec::new() };
        assert(r@ =~= Roots::empty());
        r
    }

    /// Whether nothing waits.
    pub fn is_empty(&self) -> (r: bool)
        ensures
            r == (self@.len() == 0),
    {
        self.roots.len() == 0
    }

    fn place_of(&self, root: &String) -> (r: Option<usize>)
        ensures
            match r {
                Some(i) => entry_of(self@, i as int, root@),
                None => !(exists|i: int| entry_of(self@, i, root@)),
            },
    {
        let mut i: usize = 0;
        while i < self.roots.len()
            invariant
                i <= self.roots@.len(),
                forall|j: int| 0 <= j < i ==> !entry_of(self@, j, root@),
            decreases self.roots@.len() - i,
        {
            assert(self@[i as int].0 == self.roots@[i as int].0@);
            if self.roots[i].0 == *root {
                return Some(i);
            }
            i += 1;
        }
        None
    }

    /// What waits for a root.
    pub fn get(&self, root: &String) -> (r: Option<&PendingChanges>)
        requires
            self.wf(),
        ensures
            match r {
                Some(p) => pending_for(self@, root@) == Some(p@),
                None => pending_for(self@, root@) is None,
            },
    {
        match self.place_of(root) {
            Some(i) => {
                proof {
                    lemma_entry_unique(self@, i as int, root@);
                }
                assert(self@[i as int].1 == self.roots@[i as int].1@);
                Some(&self.roots[i].1)
            },
            None => None,
        }
    }

    /// Takes the entry of a root away.
    pub fn take(&mut self, root: &String) -> (r: Option<PendingChanges>)
        requires
            old(self).wf(),
        ensures
            final(self).wf(),
            match r {
                Some(p) => pending_for(old(self)@, root@) == Some(p@),
                None => pending_for(old(self)@, root@) is None && final(self)@ == old(self)@,
            },
            pending_for(final(self)@, root@) is None,
            forall|other: Seq<char>|
                other != root@ ==> #[trigger] pending_for(final(self)@, other) == pending_for(
                    old(self)@,
                    other,
                ),
    {
        let ghost before = self@;
        match self.place_of(root) {
            Some(i) => {
                proof {
                    lemma_entry_unique(self@, i as int, root@);
                }
                assert(self@[i as int].1 == self.roots@[i as int].1@);
                let (known, p) = self.roots.remove(i);
                assert(self@ =~= before.remove(i as int));
                proof {
                    lemma_removed(before, i as int, root@);
                }
                Some(p)
            },
            None => None,
        }
    }

    /// Puts an entry for a root that has none.
    fn put(&mut self, root: String, p: PendingChanges)
        requires
            old(self).wf(),
            pending_for(old(self)@, root@) is None,
        ensures
            final(self).wf(),
            pending_for(final(self)@, root@) == Some(p@),
            forall|other: Seq<char>|
                other != root@ ==> #[trigger] pending_for(final(self)@, other) == pending_for(
                    old(self)@,
                    other,
                ),
    {
        let ghost before = self@;
        self.roots.push((root, p));
        assert(self@ =~= before.push((root@, p@)));
        proof {
            lemma_pushed(before, root@, p@);
        }
    }

    /// Adds changes for a root that is loaded. An empty batch, and changes of a
    /// root that is not loaded, are dropped.
    pub fn accumulate_changes(
        &mut self,
        root: String,
        batch: ChangeBatch,
        loaded: bool,
        now: Moment,
    )
        requires
            old(self).wf(),
        ensures
            final(self).wf(),
            batch@.total() == 0 || !loaded ==> final(self)@ == old(self)@,
            batch@.total() > 0 && loaded ==> pending_for(final(self)@, root@) == Some(
                match pending_for(old(self)@, root@) {
                    Some(p) => p.joined_by(batch@, now),
                    None => fresh(batch@, now),
                },
            ),
            forall|other: Seq<char>|
                other != root@ ==> #[trigger] pending_for(final(self)@, other) == pending_for(
                    old(self)@,
                    other,
                ),
    {
        if batch.is_empty() || !loaded {
            return;
        }
        match self.take(&root) {
            Some(p) => {
                let mut p = p;
                p.batch.merge(batch);
                p.last_change = now;
                p.needs_visibility = true;
                self.put(root, p);
            },
            None => self.put(
                root,
                PendingChanges {
                    batch,
                    first_change: now,
                    last_change: now,
                    needs_visibility: true,
                    retry_after: None,
                },
            ),
        }
    }

    /// Asks for a full comparison of a root: a change of the root itself.
    pub fn queue_reconciliation(&mut self, root: String, loaded: bool, now: Moment)
        requires
            old(self).wf(),
        ensures
            final(self).wf(),
            !loaded ==> final(self)@ == old(self)@,
            loaded ==> pending_for(final(self)@, root@) == Some(
                match pending_for(old(self)@, root@) {
                    Some(p) => p.joined_by(reconciliation(), now),
                    None => fresh(reconciliation(), now),
                },
            ),
            forall|other: Seq<char>|
                other != root@ ==> #[trigger] pending_for(final(self)@, other) == pending_for(
                    old(self)@,
                    other,
                ),
    {
        let mut batch = ChangeBatch::new();
        batch.add(FileChange { path: String::new(), kind: ChangeKind::Modified });
        proof {
            added_change_is_mentioned(
                no_changes(),
                Seq::empty(),
                ChangeKind::Modified,
                Seq::empty(),
            );
        }
        self.accumulate_changes(root, batch, loaded, now);
    }

    /// Takes in a message of a watcher. Where a rebuild is asked for, and where
    /// the watcher failed, the root is compared in full.
    pub fn take_message(&mut self, message: WatcherMessage, loaded: bool, now: Moment)
        requires
            old(self).wf(),
        ensures
            final(self).wf(),
            ({
                let root = message_root(message);
                let news = message_changes(message);
                &&& news.total() == 0 || !loaded ==> final(self)@ == old(self)@
                &&& news.total() > 0 && loaded ==> pending_for(final(self)@, root) == Some(
                    match pending_for(old(self)@, root) {
                        Some(p) => p.joined_by(news, now),
                        None => fresh(news, now),
                    },
                )
                &&& forall|other: Seq<char>|
                    other != root ==> #[trigger] pending_for(final(self)@, other)
                        == pending_for(old(self)@, other)
            }),
    {
        proof {
            added_change_is_mentioned(
                no_changes(),
                Seq::empty(),
                ChangeKind::Modified,
                Seq::empty(),
            );
        }
        match message {
            WatcherMessage::ChangesReady { root_path, batch } => self.accumulate_changes(
                root_path,
                batch,
                loaded,
                now,
            ),
            WatcherMessage::RequestRebuild { root_path, reason } => self.queue_reconciliation(
                root_path,
                loaded,
                now,
            ),
            WatcherMessage::Error { root_path, message } => self.queue_reconciliation(
                root_path,
                loaded,
                now,
            ),
        }
    }

    /// Keeps the changes of a root back for a while.
    pub fn retry_pending_changes(&mut self, root: String, now: Moment)
        requires
            old(self).wf(),
        ensures
            final(self).wf(),
            pending_for(final(self)@, root@) == match pending_for(old(self)@, root@) {
                Some(p) => Some(
                    PendingModel { retry_after: Some(later(now, RETRY_NANOS)), ..p },
                ),
                None => None,
            },
            forall|other: Seq<char>|
                other != root@ ==> #[trigger] pending_for(final(self)@, other) == pending_for(
                    old(self)@,
                    other,
                ),
    {
        match self.take(&root) {
            Some(p) => {
                let mut p = p;
                p.retry_after = Some(now.saturating_add(RETRY_NANOS));
                self.put(root, p);
            },
            None => {},
        }
    }

    /// Has searches see the changes of a root anew, if there are any.
    pub fn show_again(&mut self, root: String) -> (r: bool)
        requires
            old(self).wf(),
        ensures
            final(self).wf(),
            r == (pending_for(old(self)@, root@) is Some),
            pending_for(final(self)@, root@) == match pending_for(old(self)@, root@) {
                Some(p) => Some(PendingModel { needs_visibility: true, ..p }),
                None => None,
            },
            forall|other: Seq<char>|
                other != root@ ==> #[trigger] pending_for(final(self)@, other) == pending_for(
                    old(self)@,
                    other,
                ),
    {
        match self.take(&root) {
            Some(p) => {
                let mut p = p;
                p.needs_visibility = true;
                self.put(root, p);
                true
            },
            None => false,
        }
    }

    /// Puts changes back that could not be processed. Changes that came in the
    /// meantime stay.
    pub fn restore_pending_changes(&mut self, root: String, pending: PendingChanges)
        requires
            old(self).wf(),
        ensures
            final(self).wf(),
            pending_for(final(self)@, root@) == Some(
                match pending_for(old(self)@, root@) {
                    Some(newer) => newer.with_restored(pending@),
                    None => pending@,
                },
            ),
            forall|other: Seq<char>|
                other != root@ ==> #[trigger] pending_for(final(self)@, other) == pending_for(
                    old(self)@,
                    other,
                ),
    {
        match self.take(&root) {
            Some(p) => {
                let mut newer = p;
                newer.batch.merge(pending.batch);
                if pending.first_change < newer.first_change {
                    newer.first_change = pending.first_change;
                }
                newer.needs_visibility = true;
                self.put(root, newer);
            },
            None => self.put(root, pending),
        }
    }

    /// Settles what became of changes that had been taken. Written changes are
    /// gone; visible ones wait on to be written; failed ones wait on to be
    /// tried again after a while.
    pub fn settle(
        &mut self,
        root: String,
        pending: PendingChanges,
        outcome: FlushOutcome,
        now: Moment,
    )
        requires
            old(self).wf(),
        ensures
            final(self).wf(),
            pending_for(final(self)@, root@) == settled(
                pending_for(old(self)@, root@),
                pending@,
                outcome,
                now,
            ),
            forall|other: Seq<char>|
                other != root@ ==> #[trigger] pending_for(final(self)@, other) == pending_for(
                    old(self)@,
                    other,
                ),
    {
        match outcome {
            FlushOutcome::Written => {},
            FlushOutcome::Visible => {
                let mut pending = pending;
                pending.needs_visibility = false;
                self.restore_pending_changes(root, pending);
            },
            FlushOutcome::Failed => {
                let again = root.clone();
                self.restore_pending_changes(root, pending);
                self.retry_pending_changes(again, now);
            },
        }
    }

    /// The roots with something to be done, each with whether to write.
    pub fn due(&self, now: Moment, flush_interval: u64, watching: bool) -> (r: Vec<(String, bool)>)
        ensures
            due_list(r@) == due_roots(self@, self@.len(), now, flush_interval, watching),
    {
        let mut out: Vec<(String, bool)> = Vec::new();
        let mut i: usize = 0;
        assert(due_list(out@) =~= Seq::<(Seq<char>, bool)>::empty());
        while i < self.roots.len()
            invariant
                i <= self.roots@.len(),
                due_list(out@) == due_roots(self@, i as nat, now, flush_interval, watching),
            decreases self.roots@.len() - i,
        {
            assert(self@[i as int] == (self.roots@[i as int].0@, self.roots@[i as int].1@));
            match self.roots[i].1.is_due(now, flush_interval, watching) {
                Some(persist) => {
                    let ghost was = out@;
                    let entry = (self.roots[i].0.clone(), persist);
                    out.push(entry);
                    assert(due_list(out@) =~= due_list(was).push((entry.0@, entry.1)));
                },
                None => {},
            }
            i += 1;
        }
        out
    }
}

/// The change that asks for a full comparison.
pub open spec fn reconciliation() -> BatchModel {
    no_changes().plus(Seq::empty(), ChangeKind::Modified)
}

/// The root that a message is about.
pub open spec fn message_root(m: WatcherMessage) -> Seq<char> {
    match m {
        WatcherMessage::ChangesReady { root_path, .. } => root_path@,
        WatcherMessage::RequestRebuild { root_path, .. } => root_path@,
        WatcherMessage::Error { root_path, .. } => root_path@,
    }
}

/// The changes that a message stands for.
pub open spec fn message_changes(m: WatcherMessage) -> BatchModel {
    match m {
        WatcherMessage::ChangesReady { batch, .. } => batch@,
        _ => reconciliation(),
    }
}

/// What waits for a root once it is clear what became of changes taken from it.
pub open spec fn settled(
    newer: Option<PendingModel>,
    taken: PendingModel,
    outcome: FlushOutcome,
    now: Moment,
) -> Option<PendingModel> {
    match outcome {
        FlushOutcome::Written => newer,
        FlushOutcome::Visible => Some(
            match newer {
                Some(n) => n.with_restored(taken),
                None => PendingModel { needs_visibility: false, ..taken },
            },
        ),
        FlushOutcome::Failed => Some(
            PendingModel {
                retry_after: Some(later(now, RETRY_NANOS)),
                ..match newer {
                    Some(n) => n.with_restored(taken),
                    None => taken,
                }
            },
        ),
    }
}

/// The contents of a list of roots with something to be done.
pub open spec fn due_list(v: Seq<(String, bool)>) -> Seq<(Seq<char>, bool)> {
    v.map_values(|p: (String, bool)| (p.0@, p.1))
}

/// Those of the first `n` roots with something to be done.
pub open spec fn due_roots(v: Roots, n: nat, now: Moment, flush_interval: u64, watching: bool) -> Seq<
    (Seq<char>, bool),
>
    decreases n,
{
    if n == 0 {
        Seq::empty()
    } else {
        let before = due_roots(v, (n - 1) as nat, now, flush_interval, watching);
        match v[n - 1].1.due(now, flush_interval, watching) {
            Some(persist) => before.push((v[n - 1].0, persist)),
            None => before,
        }
    }
}

proof fn lemma_entry_unique(v: Roots, i: int, root: Seq<char>)
    requires
        one_per_root(v),
        entry_of(v, i, root),
    ensures
        pending_for(v, root) == Some(v[i].1),
{
    let k = choose|k: int| entry_of(v, k, root);
    assert(entry_of(v, k, root));
    if k < i {
        assert(v[k].0 != v[i].0);
    }
    if i < k {
        assert(v[i].0 != v[k].0);
    }
}

proof fn lemma_removed(v: Roots, i: int, root: Seq<char>)
    requires
        one_per_root(v),
        entry_of(v, i, root),
    ensures
        one_per_root(v.remove(i)),
        pending_for(v.remove(i), root) is None,
        forall|other: Seq<char>|
            other != root ==> #[trigger] pending_for(v.remove(i), other) == pending_for(v, other),
{
    let w = v.remove(i);
    assert forall|a: int, b: int| 0 <= a < b < w.len() implies (#[trigger] w[a]).0 != (
    #[trigger] w[b]).0 by {
        let x = if a < i {
            a
        } else {
            a + 1
        };
        let y = if b < i {
            b
        } else {
            b + 1
        };
        assert(w[a] == v[x] && w[b] == v[y]);
    }
    assert forall|a: int| !entry_of(w, a, root) by {
        if entry_of(w, a, root) {
            let x = if a < i {
                a
            } else {
                a + 1
            };
            assert(w[a] == v[x]);
            if x < i {
                assert(v[x].0 != v[i].0);
            } else {
                assert(v[i].0 != v[x].0);
            }
        }
    }
    assert forall|other: Seq<char>| other != root implies #[trigger] pending_for(w, other)
        == pending_for(v, other) by {
        if exists|a: int| entry_of(v, a, other) {
            let a = choose|a: int| entry_of(v, a, other);
            let b = if a < i {
                a
            } else {
                a - 1
            };
            assert(w[b] == v[a]);
            assert(entry_of(w, b, other));
            lemma_entry_unique(v, a, other);
            lemma_entry_unique(w, b, other);
        } else {
            assert forall|a: int| !entry_of(w, a, other) by {
                if entry_of(w, a, other) {
                    let x = if a < i {
                        a
                    } else {
                        a + 1
                    };
                    assert(w[a] == v[x]);
                    assert(entry_of(v, x, other));
                }
            }
        }
    }
}

proof fn lemma_pushed(v: Roots, root: Seq<char>, p: PendingModel)
    requires
        one_per_root(v),
        pending_for(v, root) is None,
    ensures
        one_per_root(v.push((root, p))),
        pending_for(v.push((root, p)), root) == Some(p),
        forall|other: Seq<char>|
            other != root ==> #[trigger] pending_for(v.push((root, p)), other) == pending_for(
                v,
                other,
            ),
{
    let w = v.push((root, p));
    assert forall|a: int, b: int| 0 <= a < b < w.len() implies (#[trigger] w[a]).0 != (
    #[trigger] w[b]).0 by {
        if b == v.len() && w[a].0 == root {
            assert(entry_of(v, a, root));
        }
    }
    assert(entry_of(w, v.len() as int, root));
    lemma_entry_unique(w, v.len() as int, root);
    assert forall|other: Seq<char>| other != root implies #[trigger] pending_for(w, other)
        == pending_for(v, other) by {
        if exists|a: int| entry_of(v, a, other) {
            let a = choose|a: int| entry_of(v, a, other);
            assert(entry_of(w, a, other));
            lemma_entry_unique(v, a, other);
            lemma_entry_unique(w, a, other);
        } else {
            assert forall|a: int| !entry_of(w, a, other) by {
                if entry_of(w, a, other) {
                    assert(entry_of(v, a, other));
                }
            }
        }
    }
}

proof fn lemma_mentions_all(b: BatchModel, v: Seq<Seq<char>>, n: nat, kind: ChangeKind, p: Seq<
    char,
>)
    requires
        n <= v.len(),
    ensures
        b.mentions(p) ==> b.plus_all(v, n, kind).mentions(p),
        forall|i: int| 0 <= i < n ==> b.plus_all(v, n, kind).mentions(#[trigger] v[i]),
    decreases n,
{
    if n > 0 {
        let m = (n - 1) as nat;
        lemma_mentions_all(b, v, m, kind, p);
        let before = b.plus_all(v, m, kind);
        added_change_is_mentioned(before, v[n - 1], kind, p);
        assert forall|i: int| 0 <= i < n implies b.plus_all(v, n, kind).mentions(
            #[trigger] v[i],
        ) by {
            added_change_is_mentioned(before, v[n - 1], kind, v[i]);
        }
    }
}

/// No work is lost when batches are merged: every file that either batch lists
/// is mentioned by the two together.
pub proof fn merged_batch_mentions_both(a: BatchModel, b: BatchModel, path: Seq<char>)
    ensures
        a.mentions(path) ==> a.merged_with(b).mentions(path),
        b.created.contains(path) || b.modified.contains(path) || b.deleted.contains(path)
            ==> a.merged_with(b).mentions(path),
{
    let one = a.plus_all(b.created, b.created.len(), ChangeKind::Created);
    let two = one.plus_all(b.modified, b.modified.len(), ChangeKind::Modified);
    lemma_mentions_all(a, b.created, b.created.len(), ChangeKind::Created, path);
    lemma_mentions_all(one, b.modified, b.modified.len(), ChangeKind::Modified, path);
    lemma_mentions_all(two, b.deleted, b.deleted.len(), ChangeKind::Deleted, path);
}

/// A failed update loses nothing: whatever came in the meantime, the files of
/// the changes that were taken still wait, and they are held back for a while.
pub proof fn failed_update_is_retained(
    newer: Option<PendingModel>,
    taken: PendingModel,
    now: Moment,
    path: Seq<char>,
)
    requires
        taken.batch.created.contains(path) || taken.batch.modified.contains(path)
            || taken.batch.deleted.contains(path),
        now < u64::MAX - RETRY_NANOS,
    ensures
        settled(newer, taken, FlushOutcome::Failed, now) is Some,
        settled(newer, taken, FlushOutcome::Failed, now)->0.batch.mentions(path),
        settled(newer, taken, FlushOutcome::Failed, now)->0.held_back(now),
{
    match newer {
        Some(n) => {
            merged_batch_mentions_both(n.batch, taken.batch, path);
        },
        None => {
            lemma_contains_lists(taken.batch.created, path);
            lemma_contains_lists(taken.batch.modified, path);
            lemma_contains_lists(taken.batch.deleted, path);
        },
    }
}

proof fn lemma_contains_lists(v: Seq<Seq<char>>, path: Seq<char>)
    ensures
        v.contains(path) ==> crate::server::watcher::lists(v, path),
{
    if v.contains(path) {
        let i = choose|i: int| 0 <= i < v.len() && v[i] == path;
        assert(crate::paths::same_path(v[i], path));
    }
}

/// Newer notifications get another pass: once changes have come while others
/// were being processed, they need to be made visible whatever became of those.
pub proof fn newer_changes_stay_due(
    newer: PendingModel,
    taken: PendingModel,
    outcome: FlushOutcome,
    now: Moment,
)
    requires
        newer.needs_visibility,
    ensures
        settled(Some(newer), taken, outcome, now) is Some,
        settled(Some(newer), taken, outcome, now)->0.needs_visibility,
{
}

/// Takes the first messages of a queue, at most [`MESSAGE_BACKLOG`], and leaves
/// the rest in order.
pub fn take_messages(queue: &mut Vec<WatcherMessage>) -> (r: Vec<WatcherMessage>)
    ensures
        r@ + final(queue)@ == old(queue)@,
        r@.len() == if old(queue)@.len() < MESSAGE_BACKLOG {
            old(queue)@.len() as int
        } else {
            MESSAGE_BACKLOG as int
        },
{
    if queue.len() <= MESSAGE_BACKLOG {
        let mut out: Vec<WatcherMessage> = Vec::new();
        out.append(queue);
        assert(out@ + queue@ =~= old(queue)@);
        out
    } else {
        let rest = queue.split_off(MESSAGE_BACKLOG);
        let mut out: Vec<WatcherMessage> = Vec::new();
        out.append(queue);
        *queue = rest;
        assert(out@ + queue@ =~= old(queue)@);
        out
    }
}

} // verus!
