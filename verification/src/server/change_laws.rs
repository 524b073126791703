//! What becomes of the changes of files on their way into an index.
use crate::paths::{components, joined, same_path};
use crate::query::ast::texts;
use crate::server::daemon_core::{after_hints, after_native, hint, NativeEvent, NativeKind};
use crate::server::debouncer::{after_event, age_limit, combined, is_of, left_of, one_each, Pending};
use crate::server::interval::Interval;
use crate::server::pending::{due_roots, fresh, settled, FlushOutcome, Moment, PendingModel, Roots};
use crate::server::watcher::{
    deleted_file_is_only_deleted, lists, with_path, BatchModel, ChangeKind,
};
use vstd::prelude::*;

verus! {

/// Whether a file was there before a change of its kind.
pub open spec fn was_there(kind: ChangeKind) -> bool {
    kind != ChangeKind::Created
}

/// Whether a file is there after a change of its kind.
pub open spec fn is_there(kind: ChangeKind) -> bool {
    kind == ChangeKind::Created || kind == ChangeKind::Modified
}

/// Two changes of a file come to what they do together: the file is there after
/// them as it is after the second, and was there before them as it was before
/// the first. They come to nothing only where it was never there but in between.
/// Of a file that was renamed only the first holds: created and renamed away it
/// counts as deleted, renamed away and created again as created.
pub proof fn two_changes_come_to_their_sum(first: ChangeKind, second: ChangeKind)
    requires
        is_there(first) == was_there(second),
    ensures
        match combined(first, second) {
            Some(kind) => is_there(kind) == is_there(second) && (first != ChangeKind::Renamed
                && second != ChangeKind::Renamed ==> was_there(kind) == was_there(first)),
            None => !was_there(first) && !is_there(second),
        },
        was_there(first) || is_there(second) ==> combined(first, second) is Some,
{
}

/// Whether a change of a kind waits for a path.
pub open spec fn waits_as(v: Pending, path: Seq<char>, kind: ChangeKind) -> bool {
    exists|i: int| #[trigger] is_of(v, i, path) && v[i].1 == kind
}

/// Whether a change waits for a path.
pub open spec fn waits(v: Pending, path: Seq<char>) -> bool {
    exists|i: int| is_of(v, i, path)
}

/// The first change of a path waits as it came.
pub proof fn first_change_waits(v: Pending, path: Seq<char>, kind: ChangeKind)
    requires
        !waits(v, path),
    ensures
        waits_as(after_event(v, path, kind), path, kind),
        after_event(v, path, kind).len() == v.len() + 1,
{
    assert(is_of(after_event(v, path, kind), v.len() as int, path));
}

/// A change leaves the changes of other paths as they are.
pub proof fn other_changes_stay(
    v: Pending,
    path: Seq<char>,
    kind: ChangeKind,
    other: Seq<char>,
    other_kind: ChangeKind,
)
    requires
        one_each(v),
        !same_path(path, other),
    ensures
        waits_as(after_event(v, path, kind), other, other_kind) <==> waits_as(
            v,
            other,
            other_kind,
        ),
{
    let w = after_event(v, path, kind);
    if waits(v, path) {
        let k = choose|i: int| is_of(v, i, path);
        assert(is_of(v, k, path));
        let gone = combined(v[k].1, kind) is None;
        if waits_as(v, other, other_kind) {
            let j = choose|j: int| #[trigger] is_of(v, j, other) && v[j].1 == other_kind;
            assert(j != k);
            if gone && j > k {
                assert(is_of(w, j - 1, other));
            } else {
                assert(is_of(w, j, other));
            }
        }
        if waits_as(w, other, other_kind) {
            let j = choose|j: int| #[trigger] is_of(w, j, other) && w[j].1 == other_kind;
            if gone && j >= k {
                assert(is_of(v, j + 1, other));
            } else {
                assert(is_of(v, j, other));
            }
        }
    } else {
        if waits_as(v, other, other_kind) {
            let j = choose|j: int| #[trigger] is_of(v, j, other) && v[j].1 == other_kind;
            assert(is_of(w, j, other));
        }
        if waits_as(w, other, other_kind) {
            let j = choose|j: int| #[trigger] is_of(w, j, other) && w[j].1 == other_kind;
            assert(is_of(v, j, other));
        }
    }
}

/// A path whose change is joined by a modification still waits, as do all that
/// waited before.
proof fn lemma_modified_waits(v: Pending, path: Seq<char>, other: Seq<char>)
    ensures
        waits(after_event(v, path, ChangeKind::Modified), path),
        waits(v, other) ==> waits(after_event(v, path, ChangeKind::Modified), other),
{
    let w = after_event(v, path, ChangeKind::Modified);
    if waits(v, path) {
        let k = choose|i: int| is_of(v, i, path);
        assert(is_of(v, k, path));
        assert(is_of(w, k, path));
    } else {
        assert(is_of(w, v.len() as int, path));
    }
    if waits(v, other) {
        let j = choose|i: int| is_of(v, i, other);
        assert(is_of(v, j, other));
        assert(is_of(w, j, other));
    }
}

proof fn lemma_hints_wait(
    v: Pending,
    root: Seq<char>,
    paths: Seq<Seq<char>>,
    n: nat,
    k: int,
    other: Seq<char>,
)
    requires
        n <= paths.len(),
    ensures
        0 <= k < n ==> waits(after_hints(v, root, paths, n), hint(root, paths[k])),
        waits(v, other) ==> waits(after_hints(v, root, paths, n), other),
    decreases n,
{
    if n > 0 {
        let m = (n - 1) as nat;
        let before = after_hints(v, root, paths, m);
        lemma_hints_wait(v, root, paths, m, k, other);
        lemma_modified_waits(before, hint(root, paths[n - 1]), other);
        if 0 <= k < n - 1 {
            lemma_modified_waits(before, hint(root, paths[n - 1]), hint(root, paths[k]));
        }
    }
}

/// Every path of an event that says what happened waits, by its name below the
/// root, and no path that waited is forgotten.
pub proof fn paths_of_an_event_wait(
    v: Pending,
    root: Seq<char>,
    event: NativeEvent,
    k: int,
    names: Seq<Seq<char>>,
    other: Seq<char>,
)
    requires
        !event.failed,
        !event.need_rescan,
        event.kind != NativeKind::Access,
        event.kind != NativeKind::Vague,
        0 <= k < event.paths@.len(),
        crate::paths::is_absolute(event.paths@[k]@) == crate::paths::is_absolute(root),
        components(event.paths@[k]@) == components(root) + names,
    ensures
        waits(after_native(v, root, event), joined(names)),
        waits(v, other) ==> waits(after_native(v, root, event), other),
{
    let paths = texts(event.paths@);
    let path = event.paths@[k]@;
    assert(paths[k] == path);
    assert(components(path).take(components(root).len() as int) =~= components(root));
    assert(components(path).skip(components(root).len() as int) =~= names);
    lemma_hints_wait(v, root, paths, event.paths@.len(), k, other);
}

/// An event that is lost, or that does not say what happened, has the whole root
/// compared; that a file was read has nothing compared.
pub proof fn unclear_events_have_the_root_compared(v: Pending, root: Seq<char>, event: NativeEvent)
    ensures
        event.failed || event.need_rescan || (event.kind != NativeKind::Access && (
        event.paths@.len() == 0 || event.kind == NativeKind::Vague)) ==> waits(
            after_native(v, root, event),
            Seq::empty(),
        ),
        !event.failed && !event.need_rescan && event.kind == NativeKind::Access ==> after_native(
            v,
            root,
            event,
        ) == v,
{
    lemma_modified_waits(v, Seq::empty(), Seq::empty());
}

/// Changes wait for a tenth of a second at most, or for the window where that is
/// longer. The time that is left has run out exactly when they have settled.
pub proof fn changes_settle_in_time(quiet: nat, age: nat, window: Interval)
    ensures
        window@ <= 100_000_000 ==> age_limit(window) == 100_000_000,
        window@ >= 100_000_000 ==> age_limit(window) == window@,
        quiet >= window@ <==> left_of(window@, quiet) == 0,
        age >= age_limit(window) <==> left_of(age_limit(window), age) == 0,
        quiet <= window@ ==> quiet + left_of(window@, quiet) == window@,
        age <= age_limit(window) ==> age + left_of(age_limit(window), age) == age_limit(window),
{
}

/// Changes are made visible as soon as they come, whether or not they are
/// written yet.
pub proof fn changes_are_visible_at_once(
    batch: BatchModel,
    came: Moment,
    p: PendingModel,
    now: Moment,
    flush_interval: u64,
    watching: bool,
)
    ensures
        fresh(batch, came).due(now, flush_interval, watching) is Some,
        p.retry_after is None ==> p.joined_by(batch, came).due(now, flush_interval, watching) is Some,
{
}

/// The changes of a watched root are written once a quarter of a second has gone
/// by without another, or ten seconds after the first. Visible changes that are
/// neither quiet nor old are left alone.
pub proof fn watched_changes_are_written_once_quiet_or_old(p: PendingModel, now: Moment)
    requires
        p.retry_after is None || p.retry_after->0 <= now,
        p.first_change <= p.last_change <= now,
    ensures
        p.due(now, 0, true) == Some(true) <==> (now - p.last_change >= 250_000_000 || now
            - p.first_change >= 10_000_000_000),
        p.due(now, 0, true) is None ==> !p.needs_visibility,
        p.due(now, 0, true) == Some(false) ==> p.needs_visibility,
{
}

/// With an interval of their own, changes are written when the first of them has
/// that age, however many follow it.
pub proof fn changes_are_written_at_their_interval(
    p: PendingModel,
    batch: BatchModel,
    came: Moment,
    now: Moment,
    flush_interval: u64,
    watching: bool,
)
    requires
        p.retry_after is None,
        p.first_change <= now,
        flush_interval > 0,
    ensures
        p.due(now, flush_interval, watching) == Some(true) <==> now - p.first_change
            >= flush_interval,
        p.joined_by(batch, came).due(now, flush_interval, watching) == Some(true) <==> now
            - p.first_change >= flush_interval,
{
}

/// Changes that could not be taken in are tried again after a second, and not
/// before.
pub proof fn failed_changes_wait_a_second(
    newer: Option<PendingModel>,
    taken: PendingModel,
    failed: Moment,
    now: Moment,
    flush_interval: u64,
    watching: bool,
)
    requires
        failed + 1_000_000_000 <= u64::MAX,
        taken.needs_visibility,
    ensures
        settled(newer, taken, FlushOutcome::Failed, failed) is Some,
        settled(newer, taken, FlushOutcome::Failed, failed)->0.due(
            now,
            flush_interval,
            watching,
        ) is Some <==> now >= failed + 1_000_000_000,
{
}

/// Once written, changes are done with; once visible, they wait to be written
/// and for nothing else.
pub proof fn done_changes_are_done_with(taken: PendingModel, now: Moment)
    ensures
        settled(None, taken, FlushOutcome::Written, now) is None,
        ({
            let p = settled(None, taken, FlushOutcome::Visible, now);
            p is Some && p->0.batch == taken.batch && p->0.first_change == taken.first_change
                && p->0.last_change == taken.last_change && !p->0.needs_visibility
        }),
{
}

/// Changes that are put back keep their age: beside newer ones the first of all
/// counts, so that newer ones do not put off when they are written.
pub proof fn restored_changes_keep_their_age(
    newer: PendingModel,
    taken: PendingModel,
    outcome: FlushOutcome,
    now: Moment,
)
    requires
        outcome != FlushOutcome::Written,
    ensures
        ({
            let p = settled(Some(newer), taken, outcome, now);
            &&& p is Some
            &&& p->0.first_change <= taken.first_change
            &&& p->0.first_change <= newer.first_change
            &&& p->0.first_change == taken.first_change || p->0.first_change == newer.first_change
            &&& p->0.last_change == newer.last_change
        }),
{
}

/// What is done comes by root: each root with something to be done is named with
/// what it is, and no other.
pub proof fn each_due_root_is_named(
    v: Roots,
    n: nat,
    now: Moment,
    flush_interval: u64,
    watching: bool,
    root: Seq<char>,
    persist: bool,
)
    requires
        n <= v.len(),
    ensures
        due_roots(v, n, now, flush_interval, watching).contains((root, persist)) <==> exists|i: int|
            0 <= i < n && (#[trigger] v[i]).0 == root && v[i].1.due(now, flush_interval, watching)
                == Some(persist),
    decreases n,
{
    if n > 0 {
        let m = (n - 1) as nat;
        each_due_root_is_named(v, m, now, flush_interval, watching, root, persist);
        let before = due_roots(v, m, now, flush_interval, watching);
        let all = due_roots(v, n, now, flush_interval, watching);
        if before.contains((root, persist)) {
            let k = choose|k: int| 0 <= k < before.len() && before[k] == (root, persist);
            assert(all[k] == (root, persist));
        }
        if all.contains((root, persist)) {
            let k = choose|k: int| 0 <= k < all.len() && all[k] == (root, persist);
            if k < before.len() {
                assert(before[k] == (root, persist));
            } else {
                assert(v[n - 1].0 == root);
            }
        }
        if exists|i: int|
            0 <= i < n && (#[trigger] v[i]).0 == root && v[i].1.due(now, flush_interval, watching)
                == Some(persist) {
            let i = choose|i: int|
                0 <= i < n && (#[trigger] v[i]).0 == root && v[i].1.due(
                    now,
                    flush_interval,
                    watching,
                ) == Some(persist);
            if i == n - 1 {
                assert(all[before.len() as int] == (root, persist));
            }
        }
    }
}

proof fn lemma_with_other(v: Seq<Seq<char>>, path: Seq<char>, other: Seq<char>)
    ensures
        lists(with_path(v, path), path),
        !same_path(path, other) ==> (lists(with_path(v, path), other) <==> lists(v, other)),
{
    let w = with_path(v, path);
    if !lists(v, path) {
        assert(w[v.len() as int] == path);
    }
    if lists(v, other) {
        let i = choose|i: int| 0 <= i < v.len() && same_path(#[trigger] v[i], other);
        assert(same_path(w[i], other));
    }
    if !same_path(path, other) && lists(w, other) {
        let i = choose|i: int| 0 <= i < w.len() && same_path(#[trigger] w[i], other);
        if i < v.len() {
            assert(same_path(v[i], other));
        }
    }
}

/// A change is listed by its kind, and a batch lists other files as it did.
pub proof fn changes_are_listed_by_kind(
    b: BatchModel,
    path: Seq<char>,
    kind: ChangeKind,
    other: Seq<char>,
)
    ensures
        kind == ChangeKind::Created ==> lists(b.plus(path, kind).created, path),
        kind == ChangeKind::Modified ==> lists(b.plus(path, kind).created, path) || lists(
            b.plus(path, kind).modified,
            path,
        ),
        !is_there(kind) ==> lists(b.plus(path, kind).deleted, path),
        !same_path(path, other) ==> (lists(b.plus(path, kind).created, other) <==> lists(
            b.created,
            other,
        )) && (lists(b.plus(path, kind).modified, other) <==> lists(b.modified, other)) && (lists(
            b.plus(path, kind).deleted,
            other,
        ) <==> lists(b.deleted, other)),
{
    deleted_file_is_only_deleted(b, path, other);
    lemma_with_other(b.created, path, other);
    lemma_with_other(b.modified, path, other);
    lemma_with_other(b.deleted, path, other);
}

} // verus!
