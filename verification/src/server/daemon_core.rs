//! The rules of the daemon: when an index is compacted, rebuilt or loaded, what
//! notifications of the system stand for, and who is served.
use crate::paths::{below, is_within, joined, relative_to};
use crate::query::ast::texts;
use crate::server::admission::{is_search, overloaded, Admission};
use crate::server::debouncer::{after_event, EventDebouncer, Pending};
use crate::server::interval::Interval;
use crate::server::protocol::{Request, Response, StatusResponse, PROTOCOL_VERSION};
use crate::server::watcher::{ChangeBatch, ChangeKind};
use crate::text::{decimal_text, number_text};
use vstd::prelude::*;

verus! {

/// Most results of a search without a limit.
pub const MAX_RESULTS_CAP: usize = 10_000_000;

/// Most connections at a time.
pub const MAX_CONCURRENT_CONNECTIONS: u64 = 64;

/// Percentage of removed documents beyond which an index is compacted.
pub const COMPACTION_TOMBSTONE_PERCENT: u64 = 15;

/// What is known of an index without loading it.
#[derive(Debug)]
pub struct IndexMeta {
    pub doc_count: u32,
    pub tombstone_count: u32,
    pub delta_segments: Vec<u16>,
    /// Number of delta segments when the index was made or last merged.
    pub delta_baseline: usize,
    /// Time of the last update, in seconds since 1970.
    pub updated_at: u64,
}

impl Default for IndexMeta {
    fn default() -> (r: Self)
        ensures
            r.doc_count == 0 && r.tombstone_count == 0 && r.delta_baseline == 0 && r.updated_at
                == 0,
            r.delta_segments@.len() == 0,
    {
        IndexMeta {
            doc_count: 0,
            tombstone_count: 0,
            delta_segments: Vec::new(),
            delta_baseline: 0,
            updated_at: 0,
        }
    }
}

/// Number of delta segments since the index was made or last merged.
pub open spec fn new_deltas(meta: IndexMeta) -> int {
    if meta.delta_segments@.len() > meta.delta_baseline {
        meta.delta_segments@.len() - meta.delta_baseline
    } else {
        0
    }
}

/// Whether an index is due to be compacted: more than the allowed part of its
/// documents has been removed, or there are enough new delta segments.
pub open spec fn compaction_due(meta: IndexMeta, segment_threshold: usize) -> bool {
    (meta.doc_count > 0 && meta.tombstone_count as int * 100 > meta.doc_count as int
        * COMPACTION_TOMBSTONE_PERCENT) || new_deltas(meta) >= segment_threshold
}

/// Whether an index is due to be compacted.
pub fn should_compact(meta: &IndexMeta, segment_threshold: usize) -> (r: bool)
    ensures
        r == compaction_due(*meta, segment_threshold),
{
    if meta.doc_count > 0 && meta.tombstone_count as u64 * 100 > meta.doc_count as u64
        * COMPACTION_TOMBSTONE_PERCENT {
        return true;
    }
    meta.delta_segments.len().saturating_sub(meta.delta_baseline) >= segment_threshold
}

/// What kind of event the system reports.
#[derive(Debug, Clone, Copy, PartialEq, Eq, Structural)]
pub enum NativeKind {
    /// A file was read.
    Access,
    /// Something happened that is not said.
    Vague,
    /// Something was created, changed, renamed or removed.
    Change,
}

/// An event that the system reports.
#[derive(Debug)]
pub struct NativeEvent {
    /// The notification itself failed.
    pub failed: bool,
    /// Notifications may have been lost.
    pub need_rescan: bool,
    pub kind: NativeKind,
    pub paths: Vec<String>,
}

/// The path, relative to the root, that a notification of a path stands for;
/// the root itself where the path lies elsewhere.
pub open spec fn hint(root: Seq<char>, path: Seq<char>) -> Seq<char> {
    if is_within(path, root) {
        joined(below(path, root)->0)
    } else {
        Seq::empty()
    }
}

/// The changes after notifications of the first `n` paths.
pub open spec fn after_hints(v: Pending, root: Seq<char>, paths: Seq<Seq<char>>, n: nat) -> Pending
    decreases n,
{
    if n == 0 {
        v
    } else {
        after_event(
            after_hints(v, root, paths, (n - 1) as nat),
            hint(root, paths[n - 1]),
            ChangeKind::Modified,
        )
    }
}

/// The changes after an event. Every path counts as modified: what happened to
/// it is seen when it is compared. Where the event does not say enough, the
/// root as a whole is to be compared; that a file was read changes nothing.
pub open spec fn after_native(v: Pending, root: Seq<char>, event: NativeEvent) -> Pending {
    if event.failed || event.need_rescan {
        after_event(v, Seq::empty(), ChangeKind::Modified)
    } else if event.kind == NativeKind::Access {
        v
    } else if event.paths@.len() == 0 || event.kind == NativeKind::Vague {
        after_event(v, Seq::empty(), ChangeKind::Modified)
    } else {
        after_hints(v, root, texts(event.paths@), event.paths@.len())
    }
}

/// Takes an event of the system in.
pub fn accumulate_native_event(root: &str, debouncer: &mut EventDebouncer, event: &NativeEvent)
    requires
        old(debouncer).wf(),
    ensures
        final(debouncer).wf(),
        final(debouncer).changes() == after_native(old(debouncer).changes(), root@, *event),
        final(debouncer).config == old(debouncer).config,
{
    if event.failed || event.need_rescan {
        debouncer.add_event(String::new(), ChangeKind::Modified);
        return;
    }
    if event.kind == NativeKind::Access {
        return;
    }
    if event.paths.len() == 0 || event.kind == NativeKind::Vague {
        debouncer.add_event(String::new(), ChangeKind::Modified);
        return;
    }
    let ghost start = debouncer.changes();
    let ghost config = debouncer.config;
    let mut i: usize = 0;
    while i < event.paths.len()
        invariant
            i <= event.paths@.len(),
            debouncer.wf(),
            debouncer.config == config,
            debouncer.changes() == after_hints(start, root@, texts(event.paths@), i as nat),
        decreases event.paths@.len() - i,
    {
        assert(texts(event.paths@)[i as int] == event.paths@[i as int]@);
        match relative_to(event.paths[i].as_str(), root) {
            Some(path) => debouncer.add_event(path, ChangeKind::Modified),
            None => debouncer.add_event(String::new(), ChangeKind::Modified),
        }
        i += 1;
    }
}

/// The paths of a batch: created, then modified, then deleted files.
pub fn batch_paths(batch: &ChangeBatch) -> (r: Vec<String>)
    ensures
        texts(r@) == batch@.created + batch@.modified + batch@.deleted,
{
    let mut out: Vec<String> = Vec::new();
    append_paths(&mut out, &batch.created);
    append_paths(&mut out, &batch.modified);
    append_paths(&mut out, &batch.deleted);
    assert(texts(out@) =~= batch@.created + batch@.modified + batch@.deleted);
    out
}

fn append_paths(out: &mut Vec<String>, v: &Vec<String>)
    ensures
        texts(final(out)@) == texts(old(out)@) + texts(v@),
{
    let ghost start = texts(out@);
    let mut i: usize = 0;
    assert(start + texts(v@).take(0) =~= start);
    while i < v.len()
        invariant
            i <= v@.len(),
            texts(out@) == start + texts(v@).take(i as int),
        decreases v@.len() - i,
    {
        let ghost was = out@;
        out.push(v[i].clone());
        i += 1;
        assert(texts(out@) =~= texts(was).push(v@[i - 1]@));
        assert(texts(v@).take(i as int) =~= texts(v@).take(i - 1).push(v@[i - 1]@));
        assert(texts(out@) =~= start + texts(v@).take(i as int));
    }
    assert(texts(v@).take(v@.len() as int) =~= texts(v@));
}

/// How a comparison of an index with its files ended.
#[derive(Debug, Clone, Copy, PartialEq, Eq, Structural)]
pub enum Reconciled {
    /// The changes are visible to searches and not written.
    Visible,
    /// There was nothing to change. Whether the loaded index is the one that is
    /// on disk, and whether that one is due to be compacted.
    Unchanged { current: bool, compact: bool },
    /// A new index was written.
    Changed,
    /// A file could not be read.
    SourceUnreadable,
    /// It failed otherwise.
    Failed,
}

/// What is done after a comparison.
#[derive(Debug, Clone, Copy, PartialEq, Eq, Structural)]
pub enum UpdateStep {
    /// Nothing more; the changes wait to be written.
    KeepPending,
    /// Searches go back to the index on disk; the changes are done.
    RestoreDurable,
    /// The index is opened again; the changes are done.
    Reopen,
    /// The error is reported.
    Fail,
    /// The index is rebuilt.
    Rebuild,
}

/// What is done after a comparison.
pub fn after_reconcile(outcome: Reconciled) -> (r: UpdateStep)
    ensures
        r == match outcome {
            Reconciled::Visible => UpdateStep::KeepPending,
            Reconciled::Unchanged { current, compact } => if current && !compact {
                UpdateStep::RestoreDurable
            } else {
                UpdateStep::Reopen
            },
            Reconciled::Changed => UpdateStep::Reopen,
            Reconciled::SourceUnreadable => UpdateStep::Fail,
            Reconciled::Failed => UpdateStep::Rebuild,
        },
{
    match outcome {
        Reconciled::Visible => UpdateStep::KeepPending,
        Reconciled::Unchanged { current, compact } => if current && !compact {
            UpdateStep::RestoreDurable
        } else {
            UpdateStep::Reopen
        },
        Reconciled::Changed => UpdateStep::Reopen,
        Reconciled::SourceUnreadable => UpdateStep::Fail,
        Reconciled::Failed => UpdateStep::Rebuild,
    }
}

/// The state of a root.
#[derive(Debug, Clone, Copy, PartialEq, Eq, Structural)]
pub struct RootState {
    pub loaded: bool,
    pub watching: bool,
}

/// What is done next to have a root loaded and, where that is wanted, watched.
#[derive(Debug, Clone, Copy, PartialEq, Eq, Structural)]
pub enum LoadStep {
    /// Nothing more.
    Ready,
    /// It is refused: the daemon is shutting down.
    Refuse,
    /// The index is opened.
    Open,
    /// The index is compared with its files, and then watched.
    ReconcileAndWatch,
}

/// What is done next: nothing where a root is loaded and, where that is wanted,
/// watched; otherwise it is first loaded and then watched, unless the daemon is
/// shutting down.
pub open spec fn next_load(state: RootState, watch_enabled: bool, shutting_down: bool) -> LoadStep {
    if state.loaded && (!watch_enabled || state.watching) {
        LoadStep::Ready
    } else if shutting_down {
        LoadStep::Refuse
    } else if !state.loaded {
        LoadStep::Open
    } else {
        LoadStep::ReconcileAndWatch
    }
}

/// What is done next to have a root loaded and, where that is wanted, watched.
pub fn ensure_index_loaded(state: RootState, watch_enabled: bool, shutting_down: bool) -> (r:
    LoadStep)
    ensures
        r == next_load(state, watch_enabled, shutting_down),
{
    if state.loaded && (!watch_enabled || state.watching) {
        LoadStep::Ready
    } else if shutting_down {
        LoadStep::Refuse
    } else if !state.loaded {
        LoadStep::Open
    } else {
        LoadStep::ReconcileAndWatch
    }
}

/// The state after a step has been done.
pub open spec fn after_load(state: RootState, step: LoadStep) -> RootState {
    match step {
        LoadStep::Open => RootState { loaded: true, watching: false },
        LoadStep::ReconcileAndWatch => RootState { watching: true, ..state },
        _ => state,
    }
}

/// Two steps are enough: after them a root is loaded and, where that is wanted,
/// watched, unless the daemon is shutting down.
pub proof fn loading_ends(state: RootState, watch_enabled: bool)
    ensures
        ({
            let one = after_load(state, next_load(state, watch_enabled, false));
            let two = after_load(one, next_load(one, watch_enabled, false));
            next_load(two, watch_enabled, false) == LoadStep::Ready && two.loaded && (watch_enabled
                ==> two.watching)
        }),
{
}

/// The root that a request without one is for: the only one that is loaded.
pub fn resolve_loaded_root(roots: &Vec<String>) -> (r: Result<String, String>)
    ensures
        match r {
            Ok(root) => roots@.len() == 1 && root@ == roots@[0]@,
            Err(message) => if roots@.len() == 0 {
                message@ == "No indexes loaded; root_path is required"@
            } else {
                roots@.len() > 1 && message@ == "Ambiguous: "@ + decimal_text(roots@.len())
                    + " indexes loaded; specify root_path. Loaded: "@ + comma_separated(
                    texts(roots@),
                    roots@.len(),
                )
            },
        },
{
    let n = roots.len();
    if n == 0 {
        return Err("No indexes loaded; root_path is required".to_owned());
    }
    if n == 1 {
        return Ok(roots[0].clone());
    }
    let mut message = "Ambiguous: ".to_owned();
    message.append(number_text(n as u64).as_str());
    message.append(" indexes loaded; specify root_path. Loaded: ");
    let ghost start = message@;
    let mut i: usize = 0;
    assert(start + comma_separated(texts(roots@), 0) =~= start);
    while i < n
        invariant
            i <= n == roots@.len(),
            message@ == start + comma_separated(texts(roots@), i as nat),
        decreases n - i,
    {
        assert(texts(roots@)[i as int] == roots@[i as int]@);
        if i > 0 {
            message.append(", ");
        }
        message.append(roots[i].as_str());
        i += 1;
        assert(message@ =~= start + comma_separated(texts(roots@), i as nat));
    }
    Err(message)
}

/// The first `n` texts with commas between.
pub open spec fn comma_separated(v: Seq<Seq<char>>, n: nat) -> Seq<char>
    decreases n,
{
    if n == 0 {
        Seq::empty()
    } else if n == 1 {
        v[0]
    } else {
        comma_separated(v, (n - 1) as nat) + ", "@ + v[n - 1]
    }
}

/// What is to be done for a request.
#[derive(Debug)]
pub enum Handling {
    /// This is the answer.
    Reply(Response),
    /// The request is carried out.
    CarryOut(Request),
}

/// Whether a request is still served while the daemon shuts down.
pub open spec fn served_in_shutdown(request: Request) -> bool {
    request is Shutdown || request is Ping || request is Status
}

/// Decides what is to be done for a request. While the daemon shuts down only
/// requests that do not need an index are served.
pub fn handle_request(request: Request, shutting_down: bool, server_version: &str) -> (r: Handling)
    ensures
        shutting_down && !served_in_shutdown(request) ==> r is Reply && r->Reply_0 is Error
            && r->Reply_0->Error_message@ == "Daemon is shutting down"@,
        !(shutting_down && !served_in_shutdown(request)) ==> match request {
            Request::Ping => r is Reply && r->Reply_0 is Pong,
            Request::Hello { .. } => r is Reply && r->Reply_0 is Hello
                && r->Reply_0->Hello_protocol_version == PROTOCOL_VERSION
                && r->Reply_0->Hello_server_version@ == server_version@,
            _ => r == Handling::CarryOut(request),
        },
{
    let served = matches!(request, Request::Shutdown | Request::Ping | Request::Status);
    if shutting_down && !served {
        return Handling::Reply(
            Response::Error { message: "Daemon is shutting down".to_owned() },
        );
    }
    match request {
        Request::Ping => Handling::Reply(Response::Pong),
        Request::Hello { protocol_version } => Handling::Reply(
            Response::Hello {
                protocol_version: PROTOCOL_VERSION,
                server_version: server_version.to_owned(),
            },
        ),
        other => Handling::CarryOut(other),
    }
}

/// The answer to a request to shut down, once it is known whether all changes
/// were written; not in time where that is not known.
pub fn shutdown_reply(result: Option<Result<(), String>>) -> (r: Response)
    ensures
        match result {
            Some(Ok(_)) => r is ShuttingDown,
            Some(Err(message)) => r is Error && r->Error_message@ == message@,
            None => r is Error && r->Error_message@
                == "Shutdown persistence did not complete before the deadline"@,
        },
{
    match result {
        Some(Ok(_)) => Response::ShuttingDown,
        Some(Err(message)) => Response::Error { message },
        None => Response::Error {
            message: "Shutdown persistence did not complete before the deadline".to_owned(),
        },
    }
}

/// Whether all changes were written before the end.
pub fn shutdown_result(nothing_pending: bool) -> (r: Result<(), String>)
    ensures
        nothing_pending ==> r is Ok,
        !nothing_pending ==> r is Err && r->Err_0@
            == "Shutdown could not persist all pending updates; restart with --watch to reconcile, or resolve writer contention/read errors"@,
{
    if nothing_pending {
        Ok(())
    } else {
        Err(
            "Shutdown could not persist all pending updates; restart with --watch to reconcile, or resolve writer contention/read errors".to_owned(),
        )
    }
}

/// What is done to load an index again.
#[derive(Debug, Clone, Copy, PartialEq, Eq, Structural)]
pub enum ReloadStep {
    /// It is loaded for the first time.
    Load,
    /// It takes the place of what searches see.
    Replace,
    /// Searches go on with what they see, which has changes that are not
    /// written, until these are made visible on top of it.
    ReplaceBase,
}

/// What is done to load an index again: pending changes that searches see are
/// not hidden by it.
pub fn handle_reload(loaded: bool, pending: bool) -> (r: ReloadStep)
    ensures
        r == if !loaded {
            ReloadStep::Load
        } else if pending {
            ReloadStep::ReplaceBase
        } else {
            ReloadStep::Replace
        },
{
    if !loaded {
        ReloadStep::Load
    } else if pending {
        ReloadStep::ReplaceBase
    } else {
        ReloadStep::Replace
    }
}

/// The answer to a request to load an index again.
pub fn reload_reply(result: Result<(), String>, root: String) -> (r: Response)
    ensures
        r is Reloaded,
        r->Reloaded_success == (result is Ok),
        r->Reloaded_message@ == match result {
            Ok(_) => "Reloaded current generation"@,
            Err(e) => "Failed to reload: "@ + e@,
        },
        r->Reloaded_resolved_root == Some(root),
{
    match result {
        Ok(_) => Response::Reloaded {
            success: true,
            message: "Reloaded current generation".to_owned(),
            resolved_root: Some(root),
        },
        Err(error) => {
            let mut message = "Failed to reload: ".to_owned();
            message.append(error.as_str());
            Response::Reloaded { success: false, message, resolved_root: Some(root) }
        },
    }
}

/// Whether a reload with changes pending has made them visible: none of them
/// waits to be made visible, and searches see another state than before.
pub fn reload_is_visible(still_dirty: bool, same_reader: bool) -> (r: Result<(), String>)
    ensures
        r is Ok <==> !still_dirty && !same_reader,
        r is Err ==> r->Err_0@
            == "Durable generation reloaded, but pending changes are not visible yet; resolve writer contention or source read errors and retry reload"@,
{
    if !still_dirty && !same_reader {
        Ok(())
    } else {
        Err(
            "Durable generation reloaded, but pending changes are not visible yet; resolve writer contention or source read errors and retry reload".to_owned(),
        )
    }
}

/// The answer to a request to remove an index.
pub fn remove_reply(result: Result<(), String>, root: String) -> (r: Response)
    ensures
        match result {
            Ok(_) => r is Reloaded && r->Reloaded_success && r->Reloaded_message@
                == "Removed index and unloaded daemon reader"@ && r->Reloaded_resolved_root
                == Some(root),
            Err(e) => r is Error && r->Error_message@ == e@,
        },
{
    match result {
        Ok(_) => Response::Reloaded {
            success: true,
            message: "Removed index and unloaded daemon reader".to_owned(),
            resolved_root: Some(root),
        },
        Err(message) => Response::Error { message },
    }
}

/// The answer to whether a root is watched: with the number of its pending
/// changes, which are none where it is not.
pub fn watch_status_reply(watching: bool, pending: usize, root: String) -> (r: Response)
    ensures
        r is WatchStatus,
        r->WatchStatus_watching == watching,
        r->WatchStatus_pending_changes == if watching {
            pending
        } else {
            0
        },
        r->WatchStatus_resolved_root == Some(root),
{
    let pending_changes = if watching {
        pending
    } else {
        0
    };
    Response::WatchStatus { watching, pending_changes, resolved_root: Some(root) }
}

/// What a loaded index adds to the status.
#[derive(Debug)]
pub struct LoadedIndex {
    pub root: String,
    /// Number of valid documents.
    pub live_docs: u64,
    /// Number of documents, removed ones included.
    pub doc_count: u32,
    pub watching: bool,
}

/// Number of valid documents of the first `n` indexes, within 32 bits.
pub open spec fn live_docs(v: Seq<LoadedIndex>, n: nat) -> nat
    decreases n,
{
    if n == 0 {
        0
    } else {
        let sum = live_docs(v, (n - 1) as nat) + v[n - 1].live_docs;
        if sum > u32::MAX {
            u32::MAX as nat
        } else {
            sum as nat
        }
    }
}

/// A rough guess of the memory of the first `n` indexes, within 64 bits.
pub open spec fn memory_guess(v: Seq<LoadedIndex>, n: nat) -> nat
    decreases n,
{
    if n == 0 {
        0
    } else {
        let sum = memory_guess(v, (n - 1) as nat) + v[n - 1].doc_count * 100 + 1048576;
        if sum > u64::MAX {
            u64::MAX as nat
        } else {
            sum as nat
        }
    }
}

/// The roots of indexes.
pub open spec fn roots_of(v: Seq<LoadedIndex>) -> Seq<Seq<char>> {
    v.map_values(|i: LoadedIndex| i.root@)
}

/// The roots of the watched ones of the first `n` indexes.
pub open spec fn watched_of(v: Seq<LoadedIndex>, n: nat) -> Seq<Seq<char>>
    decreases n,
{
    if n == 0 {
        Seq::empty()
    } else if v[n - 1].watching {
        watched_of(v, (n - 1) as nat).push(v[n - 1].root@)
    } else {
        watched_of(v, (n - 1) as nat)
    }
}

/// How the server is.
pub fn handle_status(
    indexes: &Vec<LoadedIndex>,
    uptime_secs: u64,
    queries_served: u64,
    watch_enabled: bool,
    server_version: &str,
) -> (r: StatusResponse)
    ensures
        r.uptime_secs == uptime_secs,
        r.indexes_loaded == indexes@.len(),
        r.total_docs == live_docs(indexes@, indexes@.len()),
        r.queries_served == queries_served,
        r.memory_bytes == memory_guess(indexes@, indexes@.len()),
        texts(r.loaded_roots@) == roots_of(indexes@),
        r.protocol_version == PROTOCOL_VERSION,
        r.server_version@ == server_version@,
        r.watch_enabled == watch_enabled,
        texts(r.watched_roots@) == watched_of(indexes@, indexes@.len()),
{
    let mut total_docs: u32 = 0;
    let mut memory_bytes: u64 = 0;
    let mut loaded_roots: Vec<String> = Vec::new();
    let mut watched_roots: Vec<String> = Vec::new();
    let mut i: usize = 0;
    assert(texts(loaded_roots@) =~= roots_of(indexes@).take(0));
    assert(texts(watched_roots@) =~= Seq::<Seq<char>>::empty());
    while i < indexes.len()
        invariant
            i <= indexes@.len(),
            total_docs == live_docs(indexes@, i as nat),
            memory_bytes == memory_guess(indexes@, i as nat),
            texts(loaded_roots@) == roots_of(indexes@).take(i as int),
            texts(watched_roots@) == watched_of(indexes@, i as nat),
        decreases indexes@.len() - i,
    {
        let index = &indexes[i];
        let live: u32 = if index.live_docs > u32::MAX as u64 {
            u32::MAX
        } else {
            index.live_docs as u32
        };
        total_docs = total_docs.saturating_add(live);
        memory_bytes = memory_bytes.saturating_add(index.doc_count as u64 * 100 + 1048576);
        let ghost was = loaded_roots@;
        let ghost watched = watched_roots@;
        loaded_roots.push(index.root.clone());
        if index.watching {
            watched_roots.push(index.root.clone());
            assert(texts(watched_roots@) =~= texts(watched).push(index.root@));
        }
        i += 1;
        assert(texts(loaded_roots@) =~= texts(was).push(index.root@));
        assert(roots_of(indexes@).take(i as int) =~= roots_of(indexes@).take(i - 1).push(
            index.root@,
        ));
    }
    assert(roots_of(indexes@).take(indexes@.len() as int) =~= roots_of(indexes@));
    StatusResponse {
        uptime_secs,
        indexes_loaded: indexes.len(),
        total_docs,
        queries_served,
        memory_bytes,
        loaded_roots,
        protocol_version: PROTOCOL_VERSION,
        server_version: server_version.to_owned(),
        watch_enabled,
        watched_roots,
    }
}

/// The room that is left on a connection: for searches of all connections, for
/// searches of this one, and for its other requests.
#[derive(Debug)]
pub struct Rooms {
    pub searches: Admission,
    pub per_connection: Admission,
    pub controls: Admission,
}

impl Rooms {
    /// None of the rooms is overfull.
    pub open spec fn wf(&self) -> bool {
        self.searches.wf() && self.per_connection.wf() && self.controls.wf()
    }

    /// Whether there is room for a search, or for another request.
    pub open spec fn has_room(&self, search: bool) -> bool {
        if search {
            self.searches.active < self.searches.limit && self.per_connection.active
                < self.per_connection.limit
        } else {
            self.controls.active < self.controls.limit
        }
    }

    /// Lets a request in, or says what it is answered. Other requests do not
    /// take the room of searches, nor searches theirs.
    pub fn let_in(&mut self, request: &Request) -> (r: Result<(), Response>)
        requires
            old(self).wf(),
        ensures
            final(self).wf(),
            ({
                let search = request is Search || request is ContentSearch;
                let taken = if r is Ok {
                    1int
                } else {
                    0
                };
                &&& r is Ok <==> old(self).has_room(search)
                &&& final(self).searches.limit == old(self).searches.limit
                &&& final(self).per_connection.limit == old(self).per_connection.limit
                &&& final(self).controls.limit == old(self).controls.limit
                &&& search ==> final(self).searches.active == old(self).searches.active + taken
                    && final(self).per_connection.active == old(self).per_connection.active + taken
                    && final(self).controls.active == old(self).controls.active
                &&& !search ==> final(self).searches.active == old(self).searches.active
                    && final(self).per_connection.active == old(self).per_connection.active
                    && final(self).controls.active == old(self).controls.active + taken
                &&& r is Err ==> r->Err_0 is Error
                &&& r is Err && !search ==> r->Err_0->Error_message@
                    == "Too many concurrent control requests"@
                &&& r is Err && search ==> r->Err_0->Error_message@
                    == crate::server::protocol::SEARCH_OVERLOADED_PREFIX@
                    + "Daemon search capacity exhausted; retry after an active search finishes (FXI_MAX_ACTIVE_SEARCHES)."@
            }),
    {
        if is_search(request) {
            if !self.searches.try_acquire() {
                return Err(overloaded());
            }
            if !self.per_connection.try_acquire() {
                self.searches.release();
                return Err(overloaded());
            }
            Ok(())
        } else if self.controls.try_acquire() {
            Ok(())
        } else {
            Err(Response::Error { message: "Too many concurrent control requests".to_owned() })
        }
    }

    /// Gives back the room of a request that was let in, once it is answered.
    pub fn leave(&mut self, search: bool)
        requires
            old(self).wf(),
            search ==> old(self).searches.active > 0 && old(self).per_connection.active > 0,
            !search ==> old(self).controls.active > 0,
        ensures
            final(self).wf(),
            final(self).has_room(search),
            search ==> {
                &&& final(self).searches.active == old(self).searches.active - 1
                &&& final(self).per_connection.active == old(self).per_connection.active - 1
                &&& final(self).controls == old(self).controls
            },
            !search ==> {
                &&& final(self).controls.active == old(self).controls.active - 1
                &&& final(self).searches == old(self).searches
                &&& final(self).per_connection == old(self).per_connection
            },
    {
        if search {
            self.searches.release();
            self.per_connection.release();
        } else {
            self.controls.release();
        }
    }
}

/// Whether another connection is accepted.
pub fn accepts_connection(active: u64) -> (r: bool)
    ensures
        r == (active < MAX_CONCURRENT_CONNECTIONS),
{
    active < MAX_CONCURRENT_CONNECTIONS
}

/// Most milliseconds that a watcher waits for a notification at a time.
pub const POLL_MS: u64 = 100;

/// Seconds after which a watcher asks for a full comparison, so that lost
/// notifications are made up for.
pub const RECONCILE_SECS: u64 = 300;

/// How long a watcher waits for the next notification: until its changes have
/// settled, but not longer than it takes to notice that it is to stop.
pub fn poll_timeout(until_ready: Option<Interval>) -> (r: Interval)
    requires
        until_ready is Some ==> until_ready->0.wf(),
    ensures
        r.wf(),
        r@ == match until_ready {
            Some(t) if t@ < POLL_MS * 1_000_000 => t@,
            _ => (POLL_MS * 1_000_000) as nat,
        },
{
    let most = Interval::from_millis(POLL_MS);
    match until_ready {
        Some(t) => if t.at_least(&most) {
            most
        } else {
            t
        },
        None => most,
    }
}

/// Whether a watcher is to ask for a full comparison, some time after the last.
pub fn reconcile_is_due(since_last: Interval) -> (r: bool)
    requires
        since_last.wf(),
    ensures
        r == (since_last@ >= RECONCILE_SECS * 1_000_000_000),
{
    since_last.at_least(&Interval::from_secs(RECONCILE_SECS))
}

} // verus!
