//! Tracks the background upload tasks by the epoch they are attached to.

use vstd::prelude::*;
use crate::memtable::HummockEpoch;
use crate::seq_util::{
    lemma_filter_all, lemma_filter_empty, lemma_filter_none, lemma_filter_nonempty,
    lemma_filter_step,
};

verus! {

/// Names one background upload task.
pub type TaskId = u64;

/// One upload task and the epoch it is attached to.
#[derive(Clone, Copy, Debug, PartialEq, Eq, Structural)]
pub struct UploadHandle {
    pub epoch: HummockEpoch,
    pub task_id: TaskId,
}

/// The epochs above `after`, where there is one, and up to `up_to`.
#[derive(Clone, Copy, Debug, PartialEq, Eq, Structural)]
pub struct EpochRange {
    pub after: Option<HummockEpoch>,
    pub up_to: HummockEpoch,
}

impl EpochRange {
    pub open spec fn spec_contains(&self, epoch: HummockEpoch) -> bool {
        &&& self.after matches Some(low) ==> low < epoch
        &&& epoch <= self.up_to
    }

    /// Every epoch.
    pub open spec fn spec_all() -> EpochRange {
        EpochRange { after: None, up_to: u64::MAX }
    }

    #[verifier::when_used_as_spec(spec_all)]
    pub fn all() -> (range: EpochRange)
        ensures
            range == EpochRange::spec_all(),
            forall|epoch: HummockEpoch| range.spec_contains(epoch),
    {
        EpochRange { after: None, up_to: u64::MAX }
    }

    #[verifier::when_used_as_spec(spec_contains)]
    pub fn contains(&self, epoch: HummockEpoch) -> (inside: bool)
        ensures
            inside == self.spec_contains(epoch),
    {
        let above = match self.after {
            Some(low) => low < epoch,
            None => true,
        };
        above && epoch <= self.up_to
    }
}

/// The handles of `handles` whose epoch lies in `range`, in order.
pub open spec fn handles_in(handles: Seq<UploadHandle>, range: EpochRange) -> Seq<UploadHandle> {
    handles.filter(|handle: UploadHandle| range.spec_contains(handle.epoch))
}

/// The handles of `handles` whose epoch lies outside `range`, in order.
pub open spec fn handles_outside(
    handles: Seq<UploadHandle>,
    range: EpochRange,
) -> Seq<UploadHandle> {
    handles.filter(|handle: UploadHandle| !range.spec_contains(handle.epoch))
}

/// The tasks of `handles`, in order.
pub open spec fn tasks_of(handles: Seq<UploadHandle>) -> Seq<TaskId> {
    handles.map_values(|handle: UploadHandle| handle.task_id)
}

/// `tasks`, each attached to `epoch`.
pub open spec fn attached(epoch: HummockEpoch, tasks: Seq<TaskId>) -> Seq<UploadHandle> {
    tasks.map_values(|task_id: TaskId| UploadHandle { epoch, task_id })
}

/// Some handle of `handles` is attached to `epoch`.
pub open spec fn has_epoch(handles: Seq<UploadHandle>, epoch: HummockEpoch) -> bool {
    exists|i: int| 0 <= i < handles.len() && (#[trigger] handles[i]).epoch == epoch
}

/// Some handle of `handles` is for the task `task_id`.
pub open spec fn has_task(handles: Seq<UploadHandle>, task_id: TaskId) -> bool {
    exists|i: int| 0 <= i < handles.len() && (#[trigger] handles[i]).task_id == task_id
}

/// The first handle for `task_id` stands at `index`.
pub open spec fn is_first_of_task(handles: Seq<UploadHandle>, task_id: TaskId, index: int) -> bool {
    &&& 0 <= index < handles.len()
    &&& handles[index].task_id == task_id
    &&& forall|i: int| 0 <= i < index ==> (#[trigger] handles[i]).task_id != task_id
}

/// Where the first handle for `task_id` stands.
pub open spec fn task_position(handles: Seq<UploadHandle>, task_id: TaskId) -> int {
    choose|index: int| is_first_of_task(handles, task_id, index)
}

/// The handles after the task `task_id` has ended: without its first
/// handle.
pub open spec fn handles_after(handles: Seq<UploadHandle>, task_id: TaskId) -> Seq<UploadHandle> {
    if has_task(handles, task_id) {
        handles.remove(task_position(handles, task_id))
    } else {
        handles
    }
}

/// The epoch that is finished when the task `task_id` ends: that of its
/// handle, if no other handle is attached to it.
pub open spec fn finished_epoch(
    handles: Seq<UploadHandle>,
    task_id: TaskId,
) -> Option<HummockEpoch> {
    if has_task(handles, task_id) && !has_epoch(
        handles_after(handles, task_id),
        handles[task_position(handles, task_id)].epoch,
    ) {
        Some(handles[task_position(handles, task_id)].epoch)
    } else {
        None
    }
}

/// The first handle of a task stands at one position only.
pub proof fn lemma_task_position(handles: Seq<UploadHandle>, task_id: TaskId, index: int)
    requires
        is_first_of_task(handles, task_id, index),
    ensures
        has_task(handles, task_id),
        task_position(handles, task_id) == index,
{
    let p = task_position(handles, task_id);
    assert(is_first_of_task(handles, task_id, p));
}

/// Draining every epoch takes every handle.
pub proof fn lemma_drain_all(handles: Seq<UploadHandle>)
    ensures
        handles_in(handles, EpochRange::spec_all()) == handles,
        handles_outside(handles, EpochRange::spec_all()) == Seq::<UploadHandle>::empty(),
{
    let range = EpochRange::spec_all();
    lemma_filter_all(handles, |handle: UploadHandle| range.spec_contains(handle.epoch));
    lemma_filter_none(handles, |handle: UploadHandle| !range.spec_contains(handle.epoch));
}

pub struct UploadHandleManager {
    pub handles: Vec<UploadHandle>,
}

impl View for UploadHandleManager {
    type V = Seq<UploadHandle>;

    open spec fn view(&self) -> Seq<UploadHandle> {
        self.handles@
    }
}

impl UploadHandleManager {
    pub fn new() -> (manager: UploadHandleManager)
        ensures
            manager@ == Seq::<UploadHandle>::empty(),
    {
        UploadHandleManager { handles: Vec::new() }
    }

    /// Attaches `tasks` to `epoch`.
    pub fn add_epoch_handle(&mut self, epoch: HummockEpoch, tasks: Vec<TaskId>)
        ensures
            final(self)@ == old(self)@ + attached(epoch, tasks@),
    {
        let mut i: usize = 0;
        while i < tasks.len()
            invariant
                i <= tasks.len(),
                self@ == old(self)@ + attached(epoch, tasks@.take(i as int)),
            decreases tasks.len() - i,
        {
            self.handles.push(UploadHandle { epoch, task_id: tasks[i] });
            i = i + 1;
            assert(self@ =~= old(self)@ + attached(epoch, tasks@.take(i as int)));
        }
        assert(tasks@.take(tasks.len() as int) =~= tasks@);
    }

    /// Removes the handles of the epochs in `range` and returns their tasks.
    pub fn drain_epoch_handle(&mut self, range: EpochRange) -> (drained: Vec<TaskId>)
        ensures
            drained@ == tasks_of(handles_in(old(self)@, range)),
            final(self)@ == handles_outside(old(self)@, range),
    {
        let ghost inside = |handle: UploadHandle| range.spec_contains(handle.epoch);
        let ghost outside = |handle: UploadHandle| !range.spec_contains(handle.epoch);
        let mut drained: Vec<TaskId> = Vec::new();
        let mut kept: Vec<UploadHandle> = Vec::new();
        let mut i: usize = 0;
        proof {
            lemma_filter_empty(self@.take(0), inside);
            lemma_filter_empty(self@.take(0), outside);
        }
        while i < self.handles.len()
            invariant
                i <= self.handles.len(),
                self@ == old(self)@,
                inside == |handle: UploadHandle| range.spec_contains(handle.epoch),
                outside == |handle: UploadHandle| !range.spec_contains(handle.epoch),
                drained@ == tasks_of(self@.take(i as int).filter(inside)),
                kept@ == self@.take(i as int).filter(outside),
            decreases self.handles.len() - i,
        {
            proof {
                lemma_filter_step(self@, i as int, inside);
                lemma_filter_step(self@, i as int, outside);
            }
            let handle = self.handles[i];
            if range.contains(handle.epoch) {
                drained.push(handle.task_id);
                assert(drained@ =~= tasks_of(self@.take(i + 1).filter(inside)));
            } else {
                kept.push(handle);
            }
            i = i + 1;
        }
        assert(self@.take(self.handles.len() as int) =~= self@);
        self.handles = kept;
        drained
    }

    /// Takes note that the task `task_id` has finished. Its handle leaves;
    /// if it was the last handle of its epoch, that epoch is returned.
    pub fn finish_handle(&mut self, task_id: TaskId) -> (finished: Option<HummockEpoch>)
        ensures
            final(self)@ == handles_after(old(self)@, task_id),
            finished == finished_epoch(old(self)@, task_id),
            finished matches Some(epoch) ==> !has_epoch(final(self)@, epoch),
    {
        let mut i: usize = 0;
        while i < self.handles.len()
            invariant
                i <= self.handles.len(),
                self@ == old(self)@,
                forall|j: int| 0 <= j < i ==> (#[trigger] self@[j]).task_id != task_id,
            decreases self.handles.len() - i,
        {
            if self.handles[i].task_id == task_id {
                proof {
                    assert(is_first_of_task(old(self)@, task_id, i as int));
                    lemma_task_position(old(self)@, task_id, i as int);
                }
                let handle = self.handles.remove(i);
                return if self.has_epoch(handle.epoch) {
                    None
                } else {
                    Some(handle.epoch)
                };
            }
            i = i + 1;
        }
        None
    }

    /// Whether a handle is attached to `epoch`.
    pub fn has_epoch(&self, epoch: HummockEpoch) -> (found: bool)
        ensures
            found == has_epoch(self@, epoch),
    {
        let mut i: usize = 0;
        while i < self.handles.len()
            invariant
                i <= self.handles.len(),
                forall|j: int| 0 <= j < i ==> (#[trigger] self@[j]).epoch != epoch,
            decreases self.handles.len() - i,
        {
            if self.handles[i].epoch == epoch {
                return true;
            }
            i = i + 1;
        }
        false
    }

    /// Whether a handle is attached to an epoch in `range`.
    pub fn has_handle_in(&self, range: EpochRange) -> (found: bool)
        ensures
            found == (handles_in(self@, range).len() > 0),
    {
        let ghost inside = |handle: UploadHandle| range.spec_contains(handle.epoch);
        let mut i: usize = 0;
        while i < self.handles.len()
            invariant
                i <= self.handles.len(),
                inside == |handle: UploadHandle| range.spec_contains(handle.epoch),
                forall|j: int| 0 <= j < i ==> !inside(#[trigger] self@[j]),
            decreases self.handles.len() - i,
        {
            if range.contains(self.handles[i].epoch) {
                proof {
                    assert(inside(self@[i as int]));
                    lemma_filter_nonempty(self@, inside);
                }
                return true;
            }
            i = i + 1;
        }
        proof {
            lemma_filter_nonempty(self@, inside);
        }
        false
    }

    pub fn is_empty(&self) -> (empty: bool)
        ensures
            empty == (self@.len() == 0),
    {
        self.handles.len() == 0
    }
}

} // verus!
