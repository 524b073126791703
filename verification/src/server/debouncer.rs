//! Gathering changes of files until they settle.
use crate::paths::{is_same_path, same_path};
use crate::server::interval::Interval;
use crate::server::watcher::{
    added_change_is_mentioned, no_changes, BatchModel, ChangeBatch, ChangeKind, FileChange,
    WatcherConfig,
};
use vstd::prelude::*;

verus! {

/// A point in time.
#[verifier::external_type_specification]
#[verifier::external_body]
pub struct ExInstant(std::time::Instant);

/// `Instant::now` gives the time of the call.
#[verifier::external_body]
fn clock() -> std::time::Instant {
    std::time::Instant::now()
}

/// `Instant::elapsed` gives the time since a point in time. All that holds of it
/// at every call is that its nanoseconds are less than a second.
#[verifier::external_body]
fn time_since(t: &std::time::Instant) -> (r: Interval)
    ensures
        r.wf(),
{
    let d = t.elapsed();
    Interval { secs: d.as_secs(), nanos: d.subsec_nanos() }
}

/// What two changes of one file come to; nothing where they cancel out.
pub open spec fn combined(first: ChangeKind, second: ChangeKind) -> Option<ChangeKind> {
    match (first, second) {
        (ChangeKind::Created, ChangeKind::Deleted) => None,
        (_, ChangeKind::Renamed) => Some(ChangeKind::Deleted),
        (ChangeKind::Created, ChangeKind::Modified) => Some(ChangeKind::Created),
        (ChangeKind::Deleted, ChangeKind::Created) => Some(ChangeKind::Modified),
        (_, kind) => Some(kind),
    }
}

/// What two changes of one file come to.
pub fn combine(first: ChangeKind, second: ChangeKind) -> (r: Option<ChangeKind>)
    ensures
        r == combined(first, second),
{
    match (first, second) {
        (ChangeKind::Created, ChangeKind::Modified) => Some(ChangeKind::Created),
        (ChangeKind::Created, ChangeKind::Deleted) => None,
        (ChangeKind::Deleted, ChangeKind::Created) => Some(ChangeKind::Modified),
        (_, ChangeKind::Renamed) => Some(ChangeKind::Deleted),
        (_, kind) => Some(kind),
    }
}

/// Changes by path.
pub type Pending = Seq<(Seq<char>, ChangeKind)>;

/// Whether the change at place `i` is of a path.
pub open spec fn is_of(v: Pending, i: int, path: Seq<char>) -> bool {
    0 <= i < v.len() && same_path(v[i].0, path)
}

/// Whether no two changes are of the same path.
pub open spec fn one_each(v: Pending) -> bool {
    forall|i: int, j: int|
        0 <= i < j < v.len() ==> !same_path((#[trigger] v[i]).0, (#[trigger] v[j]).0)
}

/// The changes after one more: it joins an earlier change of its path.
pub open spec fn after_event(v: Pending, path: Seq<char>, kind: ChangeKind) -> Pending {
    if exists|i: int| is_of(v, i, path) {
        let i = choose|i: int| is_of(v, i, path);
        match combined(v[i].1, kind) {
            Some(k) => v.update(i, (v[i].0, k)),
            None => v.remove(i),
        }
    } else {
        v.push((path, kind))
    }
}

/// The batch of the first `n` changes.
pub open spec fn batch_of(v: Pending, n: nat) -> BatchModel
    decreases n,
{
    if n == 0 {
        no_changes()
    } else {
        batch_of(v, (n - 1) as nat).plus(v[n - 1].0, v[n - 1].1)
    }
}

/// Most milliseconds that a change waits for others, where the window is not
/// longer.
pub const MAX_EVENT_AGE_MS: u64 = 100;

/// Gathers changes until none has come for some time.
#[derive(Debug)]
pub struct EventDebouncer {
    pub config: WatcherConfig,
    /// Changes, one for each path.
    pub pending: Vec<(String, ChangeKind)>,
    /// Time of the first change.
    pub first_event: Option<std::time::Instant>,
    /// Time of the last change.
    pub last_event: Option<std::time::Instant>,
}

/// How long a change waits for others at most, in nanoseconds.
pub open spec fn age_limit(window: Interval) -> nat {
    if window@ < MAX_EVENT_AGE_MS * 1_000_000 {
        (MAX_EVENT_AGE_MS * 1_000_000) as nat
    } else {
        window@
    }
}

/// What is left of a time.
pub open spec fn left_of(limit: nat, elapsed: nat) -> nat {
    if elapsed >= limit {
        0
    } else {
        (limit - elapsed) as nat
    }
}

fn oldest_age(window: Interval) -> (r: Interval)
    requires
        window.wf(),
    ensures
        r.wf(),
        r@ == age_limit(window),
{
    let most = Interval::from_millis(MAX_EVENT_AGE_MS);
    if window.at_least(&most) {
        window
    } else {
        most
    }
}

/// Whether changes have settled, given the time since the last and since the
/// first of them.
pub fn is_settled(quiet: Interval, age: Interval, window: Interval) -> (r: bool)
    requires
        quiet.wf(),
        age.wf(),
        window.wf(),
    ensures
        r == (quiet@ >= window@ || age@ >= age_limit(window)),
{
    quiet.at_least(&window) || age.at_least(&oldest_age(window))
}

/// The time until changes have settled, given the time since the last and since
/// the first of them.
pub fn time_left(quiet: Interval, age: Interval, window: Interval) -> (r: Interval)
    requires
        quiet.wf(),
        age.wf(),
        window.wf(),
    ensures
        r.wf(),
        r@ == if left_of(window@, quiet@) < left_of(age_limit(window), age@) {
            left_of(window@, quiet@)
        } else {
            left_of(age_limit(window), age@)
        },
{
    let a = window.minus(&quiet);
    let b = oldest_age(window).minus(&age);
    if a.at_least(&b) {
        b
    } else {
        a
    }
}

impl EventDebouncer {
    /// The changes by path.
    pub open spec fn changes(&self) -> Pending {
        self.pending@.map_values(|p: (String, ChangeKind)| (p.0@, p.1))
    }

    /// No path has two changes, and there are times where there are changes.
    pub open spec fn wf(&self) -> bool {
        &&& one_each(self.changes())
        &&& self.changes().len() > 0 ==> self.first_event is Some && self.last_event is Some
    }

    /// A debouncer without changes.
    pub fn new(config: WatcherConfig) -> (r: EventDebouncer)
        ensures
            r.wf(),
            r.changes() == Pending::empty(),
            r.first_event is None,
            r.last_event is None,
            r.config == config,
    {
        let r = EventDebouncer {
            config,
            pending: Vec::new(),
            first_event: None,
            last_event: None,
        };
        assert(r.changes() =~= Pending::empty());
        r
    }

    /// The place of the change of a path.
    fn place_of(&self, path: &str) -> (r: Option<usize>)
        ensures
            match r {
                Some(i) => is_of(self.changes(), i as int, path@),
                None => !(exists|i: int| is_of(self.changes(), i, path@)),
            },
    {
        let mut i: usize = 0;
        while i < self.pending.len()
            invariant
                i <= self.pending@.len(),
                forall|j: int| 0 <= j < i ==> !is_of(self.changes(), j, path@),
            decreases self.pending@.len() - i,
        {
            assert(self.changes()[i as int].0 == self.pending@[i as int].0@);
            if is_same_path(self.pending[i].0.as_str(), path) {
                return Some(i);
            }
            i += 1;
        }
        None
    }

    /// Adds a change of a file. The first of the changes that wait keeps its time,
    /// so that a steady flow of others cannot hold them back.
    pub fn add_event(&mut self, path: String, kind: ChangeKind)
        requires
            old(self).wf(),
        ensures
            final(self).wf(),
            final(self).changes() == after_event(old(self).changes(), path@, kind),
            final(self).last_event is Some,
            old(self).changes().len() > 0 ==> final(self).first_event == old(self).first_event,
            old(self).changes().len() == 0 ==> final(self).first_event == final(self).last_event,
            final(self).config == old(self).config,
    {
        let ghost before = self.changes();
        let now = clock();
        if self.pending.len() == 0 {
            self.first_event = Some(now);
        }
        self.last_event = Some(now);
        assert(self.changes() == before);
        match self.place_of(path.as_str()) {
            Some(i) => {
                let ghost chosen = choose|i: int| is_of(before, i, path@);
                proof {
                    assert(is_of(before, chosen, path@));
                    if chosen != i as int {
                        lemma_same_as_third(before[chosen].0, before[i as int].0, path@);
                        if chosen < i {
                            assert(!same_path(before[chosen].0, before[i as int].0));
                        } else {
                            assert(!same_path(before[i as int].0, before[chosen].0));
                        }
                    }
                }
                let (known, first) = self.pending.remove(i);
                match combine(first, kind) {
                    Some(k) => {
                        self.pending.insert(i, (known, k));
                        assert(self.changes() =~= before.update(i as int, (known@, k)));
                    },
                    None => {
                        assert(self.changes() =~= before.remove(i as int));
                    },
                }
            },
            None => {
                self.pending.push((path, kind));
                assert(self.changes() =~= before.push((path@, kind)));
            },
        }
        proof {
            lemma_one_each_kept(before, path@, kind);
        }
    }

    /// The time of the last change and that of the first, in this order, where
    /// changes wait.
    fn waiting_since(&self) -> (r: Option<(std::time::Instant, std::time::Instant)>)
        ensures
            match r {
                Some((last, first)) => self.changes().len() > 0 && self.last_event == Some(last)
                    && self.first_event == Some(first),
                None => self.changes().len() == 0 || self.last_event is None || self.first_event
                    is None,
            },
    {
        match (self.last_event, self.first_event) {
            (Some(last), Some(first)) if self.pending.len() > 0 => Some((last, first)),
            _ => None,
        }
    }

    /// Whether changes have settled: none has come for the window, or the first
    /// of those that wait is as old as any may get. Before any change they have
    /// not. Where changes have come and nothing waits, as after some that cancel
    /// out, only the time since the last counts.
    pub fn is_ready(&self) -> (r: bool)
        ensures
            self.last_event is None ==> !r,
            self.last_event is Some && self.config.debounce_ms == 0 ==> r,
    {
        let window = self.config.debounce_duration();
        match (self.waiting_since(), &self.last_event) {
            (Some((last, first)), _) => is_settled(time_since(&last), time_since(&first), window),
            (None, Some(last)) => time_since(last).at_least(&window),
            (None, None) => false,
        }
    }

    /// Whether there are changes.
    pub fn has_pending(&self) -> (r: bool)
        ensures
            r == (self.changes().len() > 0),
    {
        self.pending.len() > 0
    }

    /// The time until changes have settled; nothing without a change.
    pub fn time_until_ready(&self) -> (r: Option<Interval>)
        requires
            self.wf(),
        ensures
            r is Some <==> self.changes().len() > 0,
            r is Some ==> r->0.wf() && r->0@ <= self.config.debounce_ms as nat * 1_000_000,
    {
        match self.waiting_since() {
            Some((last, first)) => Some(
                time_left(time_since(&last), time_since(&first), self.config.debounce_duration()),
            ),
            None => None,
        }
    }

    /// Takes all changes as a batch; nothing where there are none.
    pub fn flush(&mut self) -> (r: Option<ChangeBatch>)
        requires
            old(self).wf(),
        ensures
            final(self).wf(),
            final(self).config == old(self).config,
            final(self).changes() == Pending::empty(),
            match r {
                Some(b) => old(self).changes().len() > 0 && b@ == batch_of(
                    old(self).changes(),
                    old(self).changes().len(),
                ) && final(self).first_event is None && final(self).last_event is None,
                None => old(self).changes().len() == 0 && final(self).first_event
                    == old(self).first_event && final(self).last_event == old(self).last_event,
            },
    {
        if self.pending.len() == 0 {
            assert(self.changes() =~= Pending::empty());
            return None;
        }
        let ghost all = self.changes();
        let mut batch = ChangeBatch::new();
        let mut i: usize = 0;
        while i < self.pending.len()
            invariant
                i <= self.pending@.len(),
                all == self.changes(),
                all.len() == self.pending@.len(),
                batch@ == batch_of(all, i as nat),
            decreases self.pending@.len() - i,
        {
            assert(all[i as int] == (self.pending@[i as int].0@, self.pending@[i as int].1));
            batch.add(FileChange { path: self.pending[i].0.clone(), kind: self.pending[i].1 });
            i += 1;
        }
        self.pending.clear();
        self.first_event = None;
        self.last_event = None;
        assert(self.changes() =~= Pending::empty());
        Some(batch)
    }

    /// Drops all changes.
    pub fn clear(&mut self)
        ensures
            final(self).wf(),
            final(self).changes() == Pending::empty(),
            final(self).first_event is None,
            final(self).last_event is None,
            final(self).config == old(self).config,
    {
        self.pending.clear();
        self.first_event = None;
        self.last_event = None;
        assert(self.changes() =~= Pending::empty());
    }

    /// Number of changes.
    pub fn pending_count(&self) -> (r: usize)
        ensures
            r == self.changes().len(),
    {
        self.pending.len()
    }
}

/// Two paths that are the same as a third are the same.
proof fn lemma_same_as_third(a: Seq<char>, b: Seq<char>, c: Seq<char>)
    requires
        same_path(a, c),
        same_path(b, c),
    ensures
        same_path(a, b),
{
}

proof fn lemma_one_each_kept(v: Pending, path: Seq<char>, kind: ChangeKind)
    requires
        one_each(v),
    ensures
        one_each(after_event(v, path, kind)),
{
    let w = after_event(v, path, kind);
    if exists|i: int| is_of(v, i, path) {
        let k = choose|i: int| is_of(v, i, path);
        assert forall|i: int, j: int| 0 <= i < j < w.len() implies !same_path(
            (#[trigger] w[i]).0,
            (#[trigger] w[j]).0,
        ) by {
            match combined(v[k].1, kind) {
                Some(x) => {
                    assert(w[i].0 == v[i].0);
                    assert(w[j].0 == v[j].0);
                },
                None => {
                    let a = if i < k {
                        i
                    } else {
                        i + 1
                    };
                    let b = if j < k {
                        j
                    } else {
                        j + 1
                    };
                    assert(w[i] == v[a]);
                    assert(w[j] == v[b]);
                },
            }
        }
    } else {
        assert forall|i: int, j: int| 0 <= i < j < w.len() implies !same_path(
            (#[trigger] w[i]).0,
            (#[trigger] w[j]).0,
        ) by {
            if j == v.len() {
                assert(!is_of(v, i, path));
            }
        }
    }
}

/// A file that is created and deleted within the window leaves no change.
pub proof fn created_and_deleted_cancel(v: Pending, path: Seq<char>)
    requires
        one_each(v),
        !exists|i: int| is_of(v, i, path),
    ensures
        after_event(after_event(v, path, ChangeKind::Created), path, ChangeKind::Deleted) == v,
{
    let w = after_event(v, path, ChangeKind::Created);
    assert(w == v.push((path, ChangeKind::Created)));
    assert(is_of(w, v.len() as int, path));
    let k = choose|i: int| is_of(w, i, path);
    if k < v.len() {
        assert(is_of(v, k, path));
    }
    assert(w.remove(k) =~= v);
}

/// A file that is deleted and created again within the window was modified.
pub proof fn deleted_and_created_is_modified(v: Pending, path: Seq<char>)
    requires
        !exists|i: int| is_of(v, i, path),
    ensures
        after_event(after_event(v, path, ChangeKind::Deleted), path, ChangeKind::Created)
            == v.push((path, ChangeKind::Modified)),
{
    let w = after_event(v, path, ChangeKind::Deleted);
    assert(w == v.push((path, ChangeKind::Deleted)));
    assert(is_of(w, v.len() as int, path));
    let k = choose|i: int| is_of(w, i, path);
    if k < v.len() {
        assert(is_of(v, k, path));
    }
    assert(w.update(k, (path, ChangeKind::Modified)) =~= v.push((path, ChangeKind::Modified)));
}

/// No change is lost: the batch of all changes mentions every path that has one.
pub proof fn batch_mentions_every_change(v: Pending, n: nat, i: int)
    requires
        0 <= i < n <= v.len(),
    ensures
        batch_of(v, n).mentions(v[i].0),
    decreases n,
{
    added_change_is_mentioned(batch_of(v, (n - 1) as nat), v[n - 1].0, v[n - 1].1, v[i].0);
    if i < n - 1 {
        batch_mentions_every_change(v, (n - 1) as nat, i);
    }
}

} // verus!
