//! Changes of files, gathered in batches, and the settings for it.
use crate::paths::{is_same_path, same_path};
use crate::query::ast::{text_option, texts};
use crate::server::interval::Interval;
use crate::text::{chars_of, parse_unsigned, unsigned};
use vstd::prelude::*;

verus! {

/// Default debounce window in milliseconds.
pub const DEFAULT_DEBOUNCE_MS: u64 = 1;

/// Default interval, in seconds, for writing gathered changes to delta segments;
/// zero writes them once they are quiet.
pub const DEFAULT_DELTA_FLUSH_INTERVAL_SECS: u64 = 0;

/// Default number of delta segments that triggers a merge.
pub const DEFAULT_MERGE_SEGMENT_THRESHOLD: usize = 15;

/// Default percentage of changed documents that triggers a rebuild.
pub const DEFAULT_REBUILD_THRESHOLD_PERCENT: usize = 30;

/// Kind of change of a file.
#[derive(Debug, Clone, Copy, PartialEq, Eq, Hash, Structural)]
pub enum ChangeKind {
    Created,
    Modified,
    Deleted,
    /// Renamed away: the new path comes as a change of its own.
    Renamed,
}

/// A change of one file.
#[derive(Debug)]
pub struct FileChange {
    /// Path relative to the root.
    pub path: String,
    pub kind: ChangeKind,
}

/// Changes to be processed together.
#[derive(Debug)]
pub struct ChangeBatch {
    pub created: Vec<String>,
    pub modified: Vec<String>,
    pub deleted: Vec<String>,
}

/// The mathematical content of a [`ChangeBatch`].
pub struct BatchModel {
    pub created: Seq<Seq<char>>,
    pub modified: Seq<Seq<char>>,
    pub deleted: Seq<Seq<char>>,
}

impl View for ChangeBatch {
    type V = BatchModel;

    open spec fn view(&self) -> BatchModel {
        BatchModel {
            created: texts(self.created@),
            modified: texts(self.modified@),
            deleted: texts(self.deleted@),
        }
    }
}

/// Whether a list of paths holds a path.
pub open spec fn lists(v: Seq<Seq<char>>, path: Seq<char>) -> bool {
    exists|i: int| 0 <= i < v.len() && same_path(#[trigger] v[i], path)
}

/// A list with a path at its end, unless it holds it.
pub open spec fn with_path(v: Seq<Seq<char>>, path: Seq<char>) -> Seq<Seq<char>> {
    if lists(v, path) {
        v
    } else {
        v.push(path)
    }
}

/// A list without a path.
pub open spec fn without_path(v: Seq<Seq<char>>, path: Seq<char>) -> Seq<Seq<char>>
    decreases v.len(),
{
    if v.len() == 0 {
        v
    } else if same_path(v.last(), path) {
        without_path(v.drop_last(), path)
    } else {
        without_path(v.drop_last(), path).push(v.last())
    }
}

/// No changes.
pub open spec fn no_changes() -> BatchModel {
    BatchModel { created: Seq::empty(), modified: Seq::empty(), deleted: Seq::empty() }
}

impl BatchModel {
    /// The batch with one more change. A created file that is modified stays
    /// created; a deleted file is no longer created or modified.
    pub open spec fn plus(self, path: Seq<char>, kind: ChangeKind) -> BatchModel {
        match kind {
            ChangeKind::Created => BatchModel { created: with_path(self.created, path), ..self },
            ChangeKind::Modified => if lists(self.created, path) {
                self
            } else {
                BatchModel { modified: with_path(self.modified, path), ..self }
            },
            ChangeKind::Deleted => BatchModel {
                created: without_path(self.created, path),
                modified: without_path(self.modified, path),
                deleted: with_path(self.deleted, path),
            },
            ChangeKind::Renamed => BatchModel { deleted: with_path(self.deleted, path), ..self },
        }
    }

    /// The batch with a change of one kind for each of the first `n` paths.
    pub open spec fn plus_all(self, v: Seq<Seq<char>>, n: nat, kind: ChangeKind) -> BatchModel
        decreases n,
    {
        if n == 0 {
            self
        } else {
            self.plus_all(v, (n - 1) as nat, kind).plus(v[n - 1], kind)
        }
    }

    /// The batch with the changes of another after its own.
    pub open spec fn merged_with(self, other: BatchModel) -> BatchModel {
        self.plus_all(other.created, other.created.len(), ChangeKind::Created).plus_all(
            other.modified,
            other.modified.len(),
            ChangeKind::Modified,
        ).plus_all(other.deleted, other.deleted.len(), ChangeKind::Deleted)
    }

    /// Number of changes.
    pub open spec fn total(self) -> nat {
        self.created.len() + self.modified.len() + self.deleted.len()
    }

    /// Whether the batch holds a change of a path.
    pub open spec fn mentions(self, path: Seq<char>) -> bool {
        lists(self.created, path) || lists(self.modified, path) || lists(self.deleted, path)
    }
}

/// Whether a list of paths holds a path.
fn holds_path(v: &Vec<String>, path: &str) -> (r: bool)
    ensures
        r == lists(texts(v@), path@),
{
    let ghost m = texts(v@);
    let mut i: usize = 0;
    while i < v.len()
        invariant
            i <= v@.len(),
            m == texts(v@),
            forall|j: int| 0 <= j < i ==> !same_path(#[trigger] m[j], path@),
        decreases v@.len() - i,
    {
        assert(m[i as int] == v@[i as int]@);
        if is_same_path(v[i].as_str(), path) {
            assert(same_path(m[i as int], path@));
            return true;
        }
        i += 1;
    }
    false
}

/// Adds a path at the end of a list, unless it holds it.
fn add_path(v: &mut Vec<String>, path: String)
    ensures
        texts(final(v)@) == with_path(texts(old(v)@), path@),
{
    if !holds_path(v, path.as_str()) {
        v.push(path);
        assert(texts(v@) =~= texts(old(v)@).push(path@));
    }
}

/// A list without a path.
fn drop_path(v: &Vec<String>, path: &str) -> (r: Vec<String>)
    ensures
        texts(r@) == without_path(texts(v@), path@),
{
    let ghost all = texts(v@);
    let mut out: Vec<String> = Vec::new();
    let mut i: usize = 0;
    assert(texts(out@) =~= without_path(all.take(0), path@));
    while i < v.len()
        invariant
            i <= v@.len(),
            all == texts(v@),
            texts(out@) == without_path(all.take(i as int), path@),
        decreases v@.len() - i,
    {
        let ghost was = out@;
        assert(all.take(i + 1).drop_last() =~= all.take(i as int));
        assert(all.take(i + 1).last() == v@[i as int]@);
        if !is_same_path(v[i].as_str(), path) {
            out.push(v[i].clone());
            assert(texts(out@) =~= texts(was).push(v@[i as int]@));
        }
        i += 1;
    }
    assert(all.take(all.len() as int) =~= all);
    out
}

impl Default for ChangeBatch {
    fn default() -> (r: Self)
        ensures
            r@ == no_changes(),
    {
        ChangeBatch::new()
    }
}

impl ChangeBatch {
    /// An empty batch.
    pub fn new() -> (r: ChangeBatch)
        ensures
            r@ == no_changes(),
    {
        let r = ChangeBatch { created: Vec::new(), modified: Vec::new(), deleted: Vec::new() };
        assert(r@.created =~= Seq::<Seq<char>>::empty());
        assert(r@.modified =~= Seq::<Seq<char>>::empty());
        assert(r@.deleted =~= Seq::<Seq<char>>::empty());
        r
    }

    /// Whether there are no changes.
    pub fn is_empty(&self) -> (r: bool)
        ensures
            r == (self@.total() == 0),
    {
        self.created.len() == 0 && self.modified.len() == 0 && self.deleted.len() == 0
    }

    /// Number of changes, within the range of machine sizes.
    pub fn total_changes(&self) -> (r: usize)
        ensures
            self@.total() <= usize::MAX ==> r == self@.total(),
            self@.total() > usize::MAX ==> r == usize::MAX,
    {
        self.created.len().saturating_add(self.modified.len()).saturating_add(self.deleted.len())
    }

    /// Adds a change.
    pub fn add(&mut self, change: FileChange)
        ensures
            final(self)@ == old(self)@.plus(change.path@, change.kind),
    {
        match change.kind {
            ChangeKind::Created => add_path(&mut self.created, change.path),
            ChangeKind::Modified => {
                if !holds_path(&self.created, change.path.as_str()) {
                    add_path(&mut self.modified, change.path);
                }
            },
            ChangeKind::Deleted => {
                self.created = drop_path(&self.created, change.path.as_str());
                self.modified = drop_path(&self.modified, change.path.as_str());
                add_path(&mut self.deleted, change.path);
            },
            ChangeKind::Renamed => add_path(&mut self.deleted, change.path),
        }
    }

    /// Adds a change of one kind for each path.
    fn add_each(&mut self, v: &Vec<String>, kind: ChangeKind)
        ensures
            final(self)@ == old(self)@.plus_all(texts(v@), v@.len(), kind),
    {
        let ghost start = self@;
        let mut i: usize = 0;
        while i < v.len()
            invariant
                i <= v@.len(),
                self@ == start.plus_all(texts(v@), i as nat, kind),
            decreases v@.len() - i,
        {
            assert(texts(v@)[i as int] == v@[i as int]@);
            self.add(FileChange { path: v[i].clone(), kind });
            i += 1;
        }
    }

    /// Adds the changes of another batch.
    pub fn merge(&mut self, other: ChangeBatch)
        ensures
            final(self)@ == old(self)@.merged_with(other@),
    {
        assert(other@.created.len() == other.created@.len());
        assert(other@.modified.len() == other.modified@.len());
        assert(other@.deleted.len() == other.deleted@.len());
        self.add_each(&other.created, ChangeKind::Created);
        self.add_each(&other.modified, ChangeKind::Modified);
        self.add_each(&other.deleted, ChangeKind::Deleted);
    }

    /// Removes all changes.
    pub fn clear(&mut self)
        ensures
            final(self)@ == no_changes(),
    {
        self.created.clear();
        self.modified.clear();
        self.deleted.clear();
        assert(self@.created =~= Seq::<Seq<char>>::empty());
        assert(self@.modified =~= Seq::<Seq<char>>::empty());
        assert(self@.deleted =~= Seq::<Seq<char>>::empty());
    }
}

/// The settings file.
#[derive(Debug)]
pub struct ConfigFile {
    pub watcher: WatcherConfigFile,
}

/// The part of the settings file for the watcher.
#[derive(Debug, Clone, Copy, PartialEq, Eq, Structural)]
pub struct WatcherConfigFile {
    /// Debounce window in milliseconds.
    pub debounce_ms: Option<u64>,
    /// Interval in seconds for writing gathered changes to delta segments.
    pub delta_flush_interval_secs: Option<u64>,
    /// Number of delta segments that triggers a merge.
    pub merge_segment_threshold: Option<usize>,
    /// Percentage of changed documents that triggers a rebuild.
    pub rebuild_threshold_percent: Option<usize>,
}

impl Default for WatcherConfigFile {
    fn default() -> (r: Self)
        ensures
            r == (WatcherConfigFile {
                debounce_ms: None,
                delta_flush_interval_secs: None,
                merge_segment_threshold: None,
                rebuild_threshold_percent: None,
            }),
    {
        WatcherConfigFile {
            debounce_ms: None,
            delta_flush_interval_secs: None,
            merge_segment_threshold: None,
            rebuild_threshold_percent: None,
        }
    }
}

/// The values of environment variables that override settings.
#[derive(Debug)]
pub struct Overrides {
    /// `FXI_DEBOUNCE_MS`.
    pub debounce_ms: Option<String>,
    /// `FXI_DELTA_FLUSH_SECS`.
    pub delta_flush_secs: Option<String>,
    /// `FXI_MERGE_SEGMENTS`.
    pub merge_segments: Option<String>,
    /// `FXI_REBUILD_THRESHOLD`.
    pub rebuild_threshold: Option<String>,
}

/// Settings for the watcher.
#[derive(Debug, Clone, Copy, PartialEq, Eq, Structural)]
pub struct WatcherConfig {
    /// Changes within this many milliseconds go into one batch.
    pub debounce_ms: u64,
    /// Interval in seconds for writing gathered changes to delta segments.
    pub delta_flush_interval_secs: u64,
    /// Number of delta segments that triggers a merge.
    pub merge_segment_threshold: usize,
    /// Percentage of changed documents that triggers a rebuild.
    pub rebuild_threshold_percent: usize,
}

/// The settings where nothing is set.
pub open spec fn default_config() -> WatcherConfig {
    WatcherConfig {
        debounce_ms: DEFAULT_DEBOUNCE_MS,
        delta_flush_interval_secs: DEFAULT_DELTA_FLUSH_INTERVAL_SECS,
        merge_segment_threshold: DEFAULT_MERGE_SEGMENT_THRESHOLD,
        rebuild_threshold_percent: DEFAULT_REBUILD_THRESHOLD_PERCENT,
    }
}

/// A setting: the variable where it spells a number, else the file's value,
/// else the default.
pub open spec fn setting(var: Option<Seq<char>>, file: Option<nat>, default: nat, max: nat) -> nat {
    match var {
        Some(text) if unsigned(text, max) is Some => unsigned(text, max)->0,
        _ => match file {
            Some(n) => n,
            None => default,
        },
    }
}

/// An optional machine number as a number.
pub open spec fn size_option(n: Option<usize>) -> Option<nat> {
    match n {
        Some(x) => Some(x as nat),
        None => None,
    }
}

/// An optional machine number as a number.
pub open spec fn long_option(n: Option<u64>) -> Option<nat> {
    match n {
        Some(x) => Some(x as nat),
        None => None,
    }
}

/// The number that a text spells.
fn number_in(text: &Option<String>, max: u64) -> (r: Option<u64>)
    ensures
        match r {
            Some(n) => text is Some && unsigned(text->0@, max as nat) == Some(n as nat),
            None => text is Some ==> unsigned(text->0@, max as nat) is None,
        },
{
    match text {
        Some(t) => {
            let chars = chars_of(t.as_str());
            assert(chars@.subrange(0, chars@.len() as int) =~= chars@);
            parse_unsigned(&chars, 0, chars.len(), max)
        },
        None => None,
    }
}

impl Default for WatcherConfig {
    fn default() -> (r: Self)
        ensures
            r == default_config(),
    {
        WatcherConfig {
            debounce_ms: DEFAULT_DEBOUNCE_MS,
            delta_flush_interval_secs: DEFAULT_DELTA_FLUSH_INTERVAL_SECS,
            merge_segment_threshold: DEFAULT_MERGE_SEGMENT_THRESHOLD,
            rebuild_threshold_percent: DEFAULT_REBUILD_THRESHOLD_PERCENT,
        }
    }
}

impl WatcherConfig {
    /// The debounce window.
    pub fn debounce_duration(&self) -> (r: Interval)
        ensures
            r.wf(),
            r@ == self.debounce_ms as nat * 1_000_000,
    {
        Interval::from_millis(self.debounce_ms)
    }

    /// The interval for writing gathered changes.
    pub fn delta_flush_duration(&self) -> (r: Interval)
        ensures
            r.wf(),
            r@ == self.delta_flush_interval_secs as nat * 1_000_000_000,
    {
        Interval::from_secs(self.delta_flush_interval_secs)
    }

    /// The settings: environment variables before the file before defaults. A
    /// variable that is not a number is as if it were not set.
    pub fn load(file: Option<ConfigFile>, env: &Overrides) -> (r: WatcherConfig)
        ensures
            ({
                let f = match file {
                    Some(c) => c.watcher,
                    None => WatcherConfigFile {
                        debounce_ms: None,
                        delta_flush_interval_secs: None,
                        merge_segment_threshold: None,
                        rebuild_threshold_percent: None,
                    },
                };
                &&& r.debounce_ms == setting(
                    text_option(env.debounce_ms),
                    long_option(f.debounce_ms),
                    DEFAULT_DEBOUNCE_MS as nat,
                    u64::MAX as nat,
                )
                &&& r.delta_flush_interval_secs == setting(
                    text_option(env.delta_flush_secs),
                    long_option(f.delta_flush_interval_secs),
                    DEFAULT_DELTA_FLUSH_INTERVAL_SECS as nat,
                    u64::MAX as nat,
                )
                &&& r.merge_segment_threshold == setting(
                    text_option(env.merge_segments),
                    size_option(f.merge_segment_threshold),
                    DEFAULT_MERGE_SEGMENT_THRESHOLD as nat,
                    usize::MAX as nat,
                )
                &&& r.rebuild_threshold_percent == setting(
                    text_option(env.rebuild_threshold),
                    size_option(f.rebuild_threshold_percent),
                    DEFAULT_REBUILD_THRESHOLD_PERCENT as nat,
                    usize::MAX as nat,
                )
            }),
    {
        let mut config = WatcherConfig::default();
        let watcher = match file {
            Some(c) => c.watcher,
            None => WatcherConfigFile::default(),
        };
        if let Some(v) = watcher.debounce_ms {
            config.debounce_ms = v;
        }
        if let Some(v) = watcher.delta_flush_interval_secs {
            config.delta_flush_interval_secs = v;
        }
        if let Some(v) = watcher.merge_segment_threshold {
            config.merge_segment_threshold = v;
        }
        if let Some(v) = watcher.rebuild_threshold_percent {
            config.rebuild_threshold_percent = v;
        }
        if let Some(ms) = number_in(&env.debounce_ms, u64::MAX) {
            config.debounce_ms = ms;
        }
        if let Some(secs) = number_in(&env.delta_flush_secs, u64::MAX) {
            config.delta_flush_interval_secs = secs;
        }
        if let Some(count) = number_in(&env.merge_segments, usize::MAX as u64) {
            config.merge_segment_threshold = count as usize;
        }
        if let Some(percent) = number_in(&env.rebuild_threshold, usize::MAX as u64) {
            config.rebuild_threshold_percent = percent as usize;
        }
        config
    }

    /// The settings from environment variables, with defaults.
    pub fn from_env(env: &Overrides) -> (r: WatcherConfig)
        ensures
            r.debounce_ms == setting(
                text_option(env.debounce_ms),
                None,
                DEFAULT_DEBOUNCE_MS as nat,
                u64::MAX as nat,
            ),
            r.delta_flush_interval_secs == setting(
                text_option(env.delta_flush_secs),
                None,
                DEFAULT_DELTA_FLUSH_INTERVAL_SECS as nat,
                u64::MAX as nat,
            ),
            r.merge_segment_threshold == setting(
                text_option(env.merge_segments),
                None,
                DEFAULT_MERGE_SEGMENT_THRESHOLD as nat,
                usize::MAX as nat,
            ),
            r.rebuild_threshold_percent == setting(
                text_option(env.rebuild_threshold),
                None,
                DEFAULT_REBUILD_THRESHOLD_PERCENT as nat,
                usize::MAX as nat,
            ),
    {
        Self::load(None, env)
    }
}

/// Messages from a watcher to the server.
#[derive(Debug)]
pub enum WatcherMessage {
    /// Changes are ready to be processed.
    ChangesReady { root_path: String, batch: ChangeBatch },
    /// The index should be rebuilt.
    RequestRebuild { root_path: String, reason: String },
    /// The watcher failed.
    Error { root_path: String, message: String },
}

/// A created file that is then modified is just created.
pub proof fn created_then_modified_is_created(b: BatchModel, path: Seq<char>)
    ensures
        b.plus(path, ChangeKind::Created).plus(path, ChangeKind::Modified) == b.plus(
            path,
            ChangeKind::Created,
        ),
{
    if !lists(b.created, path) {
        assert(b.created.push(path)[b.created.len() as int] == path);
    }
}

proof fn lemma_without(v: Seq<Seq<char>>, path: Seq<char>, other: Seq<char>)
    ensures
        !lists(without_path(v, path), path),
        !same_path(path, other) ==> (lists(without_path(v, path), other) <==> lists(v, other)),
    decreases v.len(),
{
    if v.len() > 0 {
        let front = v.drop_last();
        lemma_without(front, path, other);
        let kept = without_path(front, path);
        let all = without_path(v, path);
        if lists(all, path) {
            let i = choose|i: int| 0 <= i < all.len() && same_path(#[trigger] all[i], path);
            if i < kept.len() {
                assert(same_path(kept[i], path));
            }
        }
        if !same_path(path, other) {
            if lists(all, other) {
                let i = choose|i: int| 0 <= i < all.len() && same_path(#[trigger] all[i], other);
                if i < kept.len() {
                    assert(same_path(kept[i], other));
                    let k = choose|k: int|
                        0 <= k < front.len() && same_path(#[trigger] front[k], other);
                    assert(same_path(v[k], other));
                } else {
                    assert(same_path(v[v.len() - 1], other));
                }
            }
            if lists(v, other) {
                let i = choose|i: int| 0 <= i < v.len() && same_path(#[trigger] v[i], other);
                if i < front.len() {
                    assert(same_path(front[i], other));
                    let k = choose|k: int|
                        0 <= k < kept.len() && same_path(#[trigger] kept[k], other);
                    assert(same_path(all[k], other));
                } else {
                    assert(same_path(all[all.len() - 1], other));
                }
            }
        }
    }
}

/// A file that is deleted is neither created nor modified any more, whatever
/// came before; it is listed as deleted. Other files stay as they were.
pub proof fn deleted_file_is_only_deleted(b: BatchModel, path: Seq<char>, other: Seq<char>)
    ensures
        !lists(b.plus(path, ChangeKind::Deleted).created, path),
        !lists(b.plus(path, ChangeKind::Deleted).modified, path),
        lists(b.plus(path, ChangeKind::Deleted).deleted, path),
        !same_path(path, other) ==> (lists(b.plus(path, ChangeKind::Deleted).created, other)
            <==> lists(b.created, other)) && (lists(
            b.plus(path, ChangeKind::Deleted).modified,
            other,
        ) <==> lists(b.modified, other)),
{
    lemma_without(b.created, path, other);
    lemma_without(b.modified, path, other);
    if !lists(b.deleted, path) {
        assert(b.deleted.push(path)[b.deleted.len() as int] == path);
    }
}

/// No change is lost: whatever its kind, a batch mentions the file of a change
/// that was added, and every file that it mentioned before.
pub proof fn added_change_is_mentioned(
    b: BatchModel,
    path: Seq<char>,
    kind: ChangeKind,
    other: Seq<char>,
)
    ensures
        b.plus(path, kind).mentions(path),
        b.mentions(other) ==> b.plus(path, kind).mentions(other),
        b.plus(path, kind).total() > 0,
{
    let after = b.plus(path, kind);
    lemma_without(b.created, path, other);
    lemma_without(b.modified, path, other);
    lemma_with(b.created, path, other);
    lemma_with(b.modified, path, other);
    lemma_with(b.deleted, path, other);
    if same_path(path, other) && lists(after.deleted, path) {
        let i = choose|i: int|
            0 <= i < after.deleted.len() && same_path(#[trigger] after.deleted[i], path);
        assert(same_path(after.deleted[i], other));
    }
}

proof fn lemma_with(v: Seq<Seq<char>>, path: Seq<char>, other: Seq<char>)
    ensures
        lists(with_path(v, path), path),
        lists(v, other) ==> lists(with_path(v, path), other),
{
    let w = with_path(v, path);
    if !lists(v, path) {
        assert(w[v.len() as int] == path);
    }
    if lists(v, other) {
        let i = choose|i: int| 0 <= i < v.len() && same_path(#[trigger] v[i], other);
        assert(same_path(w[i], other));
    }
}

/// Merging an empty batch changes nothing.
pub proof fn merging_nothing_changes_nothing(b: BatchModel)
    ensures
        b.merged_with(no_changes()) == b,
{
}

} // verus!
