//! Decisions of the farm maintenance loop.
//!
//! Farms are added to and removed from plotted pieces one operation at a
//! time, in the order the operations were queued. The loop that runs them
//! (network, plotted pieces, timers) hands the events to
//! [`FarmsMaintenance`] and runs the operations it hands out.
use crate::farms::{expired_entries, unexpired_entries, KnownFarm, KnownFarms};
use crate::ids::{FarmId, FarmIndex, SectorIndex};
use futures::channel::oneshot::Receiver;
use std::collections::VecDeque;
use vstd::prelude::*;

verus! {

/// An operation on plotted pieces.
pub enum FarmOperation {
    /// Delete the farm at `farm_index` from plotted pieces; `known_farm_id` is
    /// known when the farm expired or was replaced.
    Delete { farm_index: FarmIndex, known_farm_id: Option<FarmId> },
    /// Initialize the farm and add its plotted sectors at `farm_index`;
    /// `remove` tells that it replaces a previous incarnation.
    Add {
        farm_index: FarmIndex,
        farm_id: FarmId,
        total_sectors_count: SectorIndex,
        remove: bool,
        expired_receiver: Receiver<()>,
    },
}

/// Queues the removal of farm `farm_id` at `farm_index` from plotted pieces.
pub fn remove_farm(farm_id: FarmId, farm_index: FarmIndex, farms_to_add_remove: &mut VecDeque<FarmOperation>)
    ensures
        final(farms_to_add_remove)@ == old(farms_to_add_remove)@.push(
            FarmOperation::Delete { farm_index, known_farm_id: Some(farm_id) },
        ),
{
    farms_to_add_remove.push_back(FarmOperation::Delete { farm_index, known_farm_id: Some(farm_id) });
}

/// Queues the initialization of farm `farm_id` at `farm_index`.
pub fn add_farm(
    farm_id: FarmId,
    farm_index: FarmIndex,
    total_sectors_count: SectorIndex,
    remove: bool,
    expired_receiver: Receiver<()>,
    farms_to_add_remove: &mut VecDeque<FarmOperation>,
)
    ensures
        final(farms_to_add_remove)@ == old(farms_to_add_remove)@.push(
            FarmOperation::Add { farm_index, farm_id, total_sectors_count, remove, expired_receiver },
        ),
{
    farms_to_add_remove.push_back(
        FarmOperation::Add { farm_index, farm_id, total_sectors_count, remove, expired_receiver },
    );
}

/// Delete operations for the expired farms, in order.
pub open spec fn expiry_deletions(removed: Seq<(FarmIndex, KnownFarm)>) -> Seq<FarmOperation> {
    removed.map_values(
        |e: (FarmIndex, KnownFarm)| FarmOperation::Delete { farm_index: e.0, known_farm_id: Some(e.1.farm_id) },
    )
}

/// The operation that starts next: the oldest queued one, unless one runs.
pub open spec fn next_operation_of(pending: Seq<FarmOperation>, in_progress: bool) -> Option<FarmOperation> {
    if in_progress || pending.len() == 0 {
        None
    } else {
        Some(pending[0])
    }
}

/// Only one operation runs at a time: while one runs, none starts.
pub proof fn lemma_one_operation_at_a_time(pending: Seq<FarmOperation>)
    ensures
        next_operation_of(pending, true) is None,
{
}

/// Oldest first: operations queued later neither start before the queued
/// ones nor change their order.
pub proof fn lemma_oldest_operation_first(pending: Seq<FarmOperation>, later: Seq<FarmOperation>)
    requires
        pending.len() > 0,
    ensures
        next_operation_of(pending + later, false) == next_operation_of(pending, false),
        (pending + later).drop_first() == pending.drop_first() + later,
{
    assert((pending + later)[0] == pending[0]);
    assert((pending + later).drop_first() =~= pending.drop_first() + later);
}

/// State of the farm maintenance loop.
pub struct FarmsMaintenance {
    known_farms: KnownFarms,
    farms_to_add_remove: VecDeque<FarmOperation>,
    operation_in_progress: bool,
}

impl FarmsMaintenance {
    pub closed spec fn farms(&self) -> KnownFarms {
        self.known_farms
    }

    /// Operations waiting to run, first to run first.
    pub closed spec fn pending(&self) -> Seq<FarmOperation> {
        self.farms_to_add_remove@
    }

    /// Whether an operation is running.
    pub closed spec fn in_progress(&self) -> bool {
        self.operation_in_progress
    }

    pub open spec fn wf(&self) -> bool {
        self.farms().wf()
    }

    /// No farms and nothing queued; the loop starts with an operation that
    /// finishes at once without effect.
    pub fn new() -> (r: Self)
        ensures
            r.wf(),
            r.farms().farmers().len() == 0,
            r.farms().farms().entries().len() == 0,
            r.pending().len() == 0,
            r.in_progress(),
    {
        FarmsMaintenance {
            known_farms: KnownFarms::new(),
            farms_to_add_remove: VecDeque::new(),
            operation_in_progress: true,
        }
    }

    /// The known farms.
    pub fn known_farms(&self) -> (r: &KnownFarms)
        ensures
            *r == self.farms(),
    {
        &self.known_farms
    }

    /// Whether an operation is running.
    pub fn operation_in_progress(&self) -> (r: bool)
        ensures
            r == self.in_progress(),
    {
        self.operation_in_progress
    }

    /// Number of operations waiting.
    pub fn pending_len(&self) -> (r: usize)
        ensures
            r == self.pending().len(),
    {
        self.farms_to_add_remove.len()
    }

    /// The next operation to run, when none is running: the oldest one
    /// queued, which is then running.
    pub fn next_operation(&mut self) -> (r: Option<FarmOperation>)
        ensures
            final(self).farms() == old(self).farms(),
            r == next_operation_of(old(self).pending(), old(self).in_progress()),
            if old(self).in_progress() || old(self).pending().len() == 0 {
                &&& r is None
                &&& final(self).pending() == old(self).pending()
                &&& final(self).in_progress() == old(self).in_progress()
            } else {
                &&& r == Some(old(self).pending()[0])
                &&& final(self).pending() == old(self).pending().drop_first()
                &&& final(self).in_progress()
            },
    {
        if self.operation_in_progress {
            return None;
        }
        let next = self.farms_to_add_remove.pop_front();
        if next.is_some() {
            self.operation_in_progress = true;
        }
        proof {
            if next.is_some() {
                assert(self.pending() =~= old(self).pending().drop_first());
            }
        }
        next
    }

    /// The running operation finished.
    pub fn operation_finished(&mut self)
        ensures
            final(self).farms() == old(self).farms(),
            final(self).pending() == old(self).pending(),
            !final(self).in_progress(),
    {
        self.operation_in_progress = false;
    }

    /// The farm at `farm_index` stopped: it is forgotten and deleted from
    /// plotted pieces.
    pub fn farm_exited(&mut self, farm_index: FarmIndex)
        requires
            old(self).wf(),
        ensures
            final(self).wf(),
            final(self).farms().farmers() == old(self).farms().farmers(),
            final(self).farms().farms()@ == old(self).farms().farms()@.remove(farm_index),
            final(self).pending() == old(self).pending().push(FarmOperation::Delete { farm_index, known_farm_id: None }),
            final(self).in_progress() == old(self).in_progress(),
    {
        self.known_farms.remove(farm_index);
        self.farms_to_add_remove.push_back(FarmOperation::Delete { farm_index, known_farm_id: None });
    }

    /// Pruning: farms last identified more than twice
    /// `identification_interval` before `now` are forgotten and deleted
    /// from plotted pieces, in order; they are handed back so that each can
    /// be told it expired.
    pub fn prune(&mut self, now: u64, identification_interval: u64) -> (removed: Vec<(FarmIndex, KnownFarm)>)
        requires
            old(self).wf(),
            2 * identification_interval <= u64::MAX,
        ensures
            final(self).wf(),
            final(self).farms().farmers() == old(self).farms().farmers(),
            final(self).farms().farms().entries() == unexpired_entries(
                old(self).farms().farms().entries(),
                now,
                identification_interval,
            ),
            removed@ == expired_entries(old(self).farms().farms().entries(), now, identification_interval),
            final(self).pending() == old(self).pending() + expiry_deletions(removed@),
            final(self).in_progress() == old(self).in_progress(),
    {
        let removed = self.known_farms.remove_expired(now, identification_interval);
        let ghost start = self.farms_to_add_remove@;
        let ghost farms = self.known_farms;
        let ghost running = self.operation_in_progress;
        let mut i: usize = 0;
        while i < removed.len()
            invariant
                i <= removed@.len(),
                self.known_farms == farms,
                self.operation_in_progress == running,
                self.farms_to_add_remove@ == start + expiry_deletions(removed@.take(i as int)),
            decreases removed@.len() - i,
        {
            let farm_index = removed[i].0;
            let farm_id = removed[i].1.farm_id;
            remove_farm(farm_id, farm_index, &mut self.farms_to_add_remove);
            proof {
                assert(expiry_deletions(removed@.take(i as int + 1)) =~= expiry_deletions(removed@.take(i as int)).push(
                    FarmOperation::Delete { farm_index, known_farm_id: Some(farm_id) },
                ));
            }
            i = i + 1;
        }
        proof {
            assert(removed@.take(removed@.len() as int) =~= removed@);
        }
        removed
    }
}


/// A change to the plotted pieces of one farm.
pub enum SectorChange<S> {
    Delete(S),
    Add(S),
}

/// Changes for one sector plotted while the farm's plotted sectors were
/// being read: the sector it replaced, if any, is deleted; the sector itself
/// is deleted, so that it is not added twice, and then added.
pub open spec fn sector_update_changes<S>(plotted: S, replaced: Option<S>) -> Seq<SectorChange<S>> {
    match replaced {
        Some(old) => seq![SectorChange::Delete(old), SectorChange::Delete(plotted), SectorChange::Add(plotted)],
        None => seq![SectorChange::Delete(plotted), SectorChange::Add(plotted)],
    }
}

/// Changes for all buffered sectors, in the order they were plotted.
pub open spec fn buffered_changes<S>(buffer: Seq<(S, Option<S>)>) -> Seq<SectorChange<S>>
    decreases buffer.len(),
{
    if buffer.len() == 0 {
        Seq::empty()
    } else {
        buffered_changes(buffer.drop_last()) + sector_update_changes(buffer.last().0, buffer.last().1)
    }
}

/// The changes to apply for sectors plotted while a farm was being added:
/// `buffer` holds, in order, each plotted sector with the sector it
/// replaced.
pub fn buffered_sector_changes<S: Copy>(buffer: &Vec<(S, Option<S>)>) -> (r: Vec<SectorChange<S>>)
    ensures
        r@ == buffered_changes(buffer@),
{
    let mut changes: Vec<SectorChange<S>> = Vec::new();
    let mut i: usize = 0;
    while i < buffer.len()
        invariant
            i <= buffer@.len(),
            changes@ == buffered_changes(buffer@.take(i as int)),
        decreases buffer@.len() - i,
    {
        let plotted = buffer[i].0;
        let replaced = buffer[i].1;
        let ghost before = changes@;
        match replaced {
            Some(old) => changes.push(SectorChange::Delete(old)),
            None => {},
        }
        changes.push(SectorChange::Delete(plotted));
        changes.push(SectorChange::Add(plotted));
        proof {
            assert(buffer@.take(i as int + 1).drop_last() =~= buffer@.take(i as int));
            assert(changes@ =~= before + sector_update_changes(plotted, replaced));
        }
        i = i + 1;
    }
    proof {
        assert(buffer@.take(buffer@.len() as int) =~= buffer@);
    }
    changes
}

/// The changes for one buffered sector: the sector it replaced, if any, is
/// deleted, then the sector itself is deleted and added.
pub proof fn lemma_buffered_changes_of_one<S>(plotted: S, replaced: Option<S>)
    ensures
        buffered_changes(seq![(plotted, replaced)]) == match replaced {
            Some(old) => seq![SectorChange::Delete(old), SectorChange::Delete(plotted), SectorChange::Add(plotted)],
            None => seq![SectorChange::Delete(plotted), SectorChange::Add(plotted)],
        },
{
    let b = seq![(plotted, replaced)];
    assert(b.drop_last() =~= Seq::<(S, Option<S>)>::empty());
    assert(b.last() == (plotted, replaced));
    assert(buffered_changes(b.drop_last()) == Seq::<SectorChange<S>>::empty());
    assert(buffered_changes(b) == buffered_changes(b.drop_last()) + sector_update_changes(plotted, replaced));
    assert(Seq::<SectorChange<S>>::empty() + sector_update_changes(plotted, replaced) =~= sector_update_changes(plotted, replaced));
}

/// The changes for two buffers one after the other are those of the first
/// followed by those of the second: every buffered sector contributes its
/// changes, in the order it was plotted, however long the buffer.
pub proof fn lemma_buffered_changes_concat<S>(a: Seq<(S, Option<S>)>, b: Seq<(S, Option<S>)>)
    ensures
        buffered_changes(a + b) == buffered_changes(a) + buffered_changes(b),
    decreases b.len(),
{
    if b.len() == 0 {
        assert(a + b =~= a);
        assert(buffered_changes(a) + Seq::<SectorChange<S>>::empty() =~= buffered_changes(a));
    } else {
        lemma_buffered_changes_concat(a, b.drop_last());
        assert((a + b).drop_last() =~= a + b.drop_last());
        assert((a + b).last() == b.last());
        let x = sector_update_changes(b.last().0, b.last().1);
        assert(buffered_changes(a) + buffered_changes(b.drop_last()) + x =~= buffered_changes(a) + (buffered_changes(b.drop_last()) + x));
    }
}

} // verus!
