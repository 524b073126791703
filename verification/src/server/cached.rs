//! The two states of an index that a server holds: the one that searches see,
//! and the one that was last written. Readers of states are known by numbers.
use crate::server::daemon_core::{ReloadStep, UpdateStep};
use crate::server::pending::FlushOutcome;
use vstd::prelude::*;

verus! {

/// The readers of a loaded index.
#[derive(Debug, Clone, Copy, PartialEq, Eq, Structural)]
pub struct CachedIndex {
    /// What searches see.
    pub live: u64,
    /// What was last written: the base of every later update, never a state
    /// that is in memory alone.
    pub durable: u64,
}

/// What an update leads to, once its outcome is known.
#[derive(Debug, Clone, Copy, PartialEq, Eq, Structural)]
pub enum Update {
    /// A state in memory, with the changes, is ready to be seen.
    Preview(u64),
    /// There is nothing to change.
    Unchanged,
    /// A new state was written.
    Published(u64),
    /// Neither.
    Failed,
}

impl CachedIndex {
    /// The readers after an update: one in memory is only seen, one that was
    /// written takes both places, and where nothing is to change an earlier one
    /// in memory is dropped.
    pub open spec fn updated(self, update: Update) -> CachedIndex {
        match update {
            Update::Preview(reader) => CachedIndex { live: reader, ..self },
            Update::Unchanged => CachedIndex { live: self.durable, ..self },
            Update::Published(reader) => CachedIndex { live: reader, durable: reader },
            Update::Failed => self,
        }
    }

    /// The readers after several updates.
    pub open spec fn updated_by(self, updates: Seq<Update>) -> CachedIndex
        decreases updates.len(),
    {
        if updates.len() == 0 {
            self
        } else {
            self.updated_by(updates.drop_last()).updated(updates.last())
        }
    }

    /// An index of which nothing waits to be written.
    pub fn new(reader: u64) -> (r: CachedIndex)
        ensures
            r == (CachedIndex { live: reader, durable: reader }),
    {
        CachedIndex { live: reader, durable: reader }
    }

    /// Has searches see a state in memory.
    pub fn set_live_reader(&mut self, reader: u64)
        ensures
            *final(self) == old(self).updated(Update::Preview(reader)),
    {
        self.live = reader;
    }

    /// Takes over a state that was written.
    pub fn set_pending_reader(&mut self, reader: u64)
        ensures
            *final(self) == old(self).updated(Update::Published(reader)),
    {
        self.durable = reader;
        self.live = reader;
    }

    /// Does what follows a comparison with the files, and says what becomes of
    /// the changes. `reader` is the reader of the new state where there is one:
    /// in memory, or opened again; where it could not be had, the update failed.
    pub fn apply_update(&mut self, step: UpdateStep, reader: Option<u64>) -> (r: FlushOutcome)
        ensures
            ({
                let update = match (step, reader) {
                    (UpdateStep::KeepPending, Some(n)) => Update::Preview(n),
                    (UpdateStep::RestoreDurable, _) => Update::Unchanged,
                    (UpdateStep::Reopen, Some(n)) => Update::Published(n),
                    (UpdateStep::Rebuild, Some(n)) => Update::Published(n),
                    _ => Update::Failed,
                };
                &&& *final(self) == old(self).updated(update)
                &&& r == match update {
                    Update::Preview(_) => FlushOutcome::Visible,
                    Update::Unchanged => FlushOutcome::Written,
                    Update::Published(_) => FlushOutcome::Written,
                    Update::Failed => FlushOutcome::Failed,
                }
            }),
    {
        match (step, reader) {
            (UpdateStep::KeepPending, Some(n)) => {
                self.set_live_reader(n);
                FlushOutcome::Visible
            },
            (UpdateStep::RestoreDurable, _) => {
                self.live = self.durable;
                FlushOutcome::Written
            },
            (UpdateStep::Reopen, Some(n)) => {
                self.set_pending_reader(n);
                FlushOutcome::Written
            },
            (UpdateStep::Rebuild, Some(n)) => {
                self.set_pending_reader(n);
                FlushOutcome::Written
            },
            _ => FlushOutcome::Failed,
        }
    }

    /// Takes over a state that was loaded again. Where changes wait to be
    /// written, searches go on with what they see.
    pub fn reload(&mut self, step: ReloadStep, reader: u64)
        ensures
            final(self).durable == reader,
            final(self).live == if step == ReloadStep::ReplaceBase {
                old(self).live
            } else {
                reader
            },
    {
        if step == ReloadStep::ReplaceBase {
            self.durable = reader;
        } else {
            self.set_pending_reader(reader);
        }
    }
}

/// Updates of which none was written, failed ones among them, do not change the
/// base of later updates.
pub proof fn base_stays_what_was_written(index: CachedIndex, updates: Seq<Update>)
    requires
        forall|i: int| 0 <= i < updates.len() ==> !(#[trigger] updates[i] is Published),
    ensures
        index.updated_by(updates).durable == index.durable,
    decreases updates.len(),
{
    if updates.len() > 0 {
        let front = updates.drop_last();
        assert(!(updates[updates.len() - 1] is Published));
        assert forall|i: int| 0 <= i < front.len() implies !(#[trigger] front[i] is Published) by {
            assert(!(updates[i] is Published));
        }
        base_stays_what_was_written(index, front);
    }
}

/// Once an update finds nothing to change, or is written, searches see what is
/// written, whatever was shown before.
pub proof fn written_state_is_seen(index: CachedIndex, updates: Seq<Update>)
    requires
        updates.len() > 0,
        updates.last() is Unchanged || updates.last() is Published,
    ensures
        index.updated_by(updates).live == index.updated_by(updates).durable,
{
}

/// A failed update leaves searches with what they see.
pub proof fn failure_shows_nothing_else(index: CachedIndex, updates: Seq<Update>)
    ensures
        index.updated_by(updates.push(Update::Failed)) == index.updated_by(updates),
{
    assert(updates.push(Update::Failed).drop_last() =~= updates);
}

} // verus!
