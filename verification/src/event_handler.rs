//! The event handler: the one place where the shared buffer, the uploads,
//! the pending syncs and the readers' versions change.

use vstd::prelude::*;
use itertools::Itertools;
use std::sync::Arc;
use crate::buffer_tracker::{BufferTracker, StorageConfig};
use crate::memory::MemoryLimiter;
use crate::error::HummockError;
use crate::event::{
    action_views, ActionView, HandlerAction, HandlerFault, HandlerInput, HandlerOutput,
    HummockEvent, InstanceId, SenderId, SyncResult, SyncResultView,
};
use crate::local_version::{
    evicted_bytes, evicted_uploading_bytes, has_record, idle_count, lemma_clear_bytes,
    lemma_commit_bytes, lemma_idle_count_le, lemma_next_flush, lemma_seal_bytes,
    lemma_settle_bytes,
    lemma_start_sync_bytes, lemma_uploading_bounds, lemma_write_bytes,
    prev_max_sync_epoch, produced_view, record_position, LocalVersion, LocalVersionView,
    SyncStage,
};
use crate::memtable::{batch_map, HummockEpoch, HummockValue, ImmutableMemtable, TableId};
use crate::read_version::{
    pairs_ascend, pairs_hold, HummockReadVersion, ReadOptions, ReadVersionView, ScanRange,
    StagingData, VersionUpdate, WriteOptions,
};
use crate::state_store::{batch_exceeds, ingest_batch};
use crate::shared::share;
use crate::upload_handle_manager::{
    attached, finished_epoch, handles_after, handles_in, handles_outside, lemma_drain_all,
    tasks_of, EpochRange, TaskId, UploadHandle, UploadHandleManager,
};
use crate::version::{
    check_payload, payload_result, LocalSstableInfo, Payload, PayloadCheck, PinnedVersion,
    VersionView,
};

verus! {

/// What a write leaves behind: the memtable it made, and what the caller
/// has to do for the flushes that followed it.
#[derive(Debug)]
pub struct IngestOutput {
    pub imm: Arc<ImmutableMemtable>,
    pub actions: Vec<HandlerAction>,
}

/// How a run of the event loop over given inputs has ended.
pub struct WorkerRun {
    /// The handler after the run.
    pub handler: HummockEventHandler,
    /// What the handler has asked for, in order.
    pub actions: Vec<HandlerAction>,
    /// How many of the inputs were taken.
    pub handled: usize,
    /// What has stopped the loop, if it was a fault.
    pub fault: Option<HandlerFault>,
}

/// A sync request that waits for its result.
#[derive(Clone, Copy, Debug, PartialEq, Eq, Structural)]
pub struct PendingSync {
    pub epoch: HummockEpoch,
    pub sender: SenderId,
}

/// The read version of one registered instance.
#[derive(Debug)]
pub struct ReadVersionEntry {
    pub table_id: TableId,
    pub instance_id: InstanceId,
    pub read_version: HummockReadVersion,
}

/// A registered instance as a mathematical object.
pub struct ReaderView {
    pub table_id: TableId,
    pub instance_id: InstanceId,
    pub read_version: ReadVersionView,
}

impl View for ReadVersionEntry {
    type V = ReaderView;

    open spec fn view(&self) -> ReaderView {
        ReaderView {
            table_id: self.table_id,
            instance_id: self.instance_id,
            read_version: self.read_version@,
        }
    }
}

/// The views of `entries`, in order.
pub open spec fn reader_views(entries: Seq<ReadVersionEntry>) -> Seq<ReaderView> {
    entries.map_values(|entry: ReadVersionEntry| entry@)
}

/// A request for the epoch `epoch` is pending.
pub open spec fn has_pending(pending: Seq<PendingSync>, epoch: HummockEpoch) -> bool {
    exists|i: int| 0 <= i < pending.len() && (#[trigger] pending[i]).epoch == epoch
}

/// The position of the pending request for `epoch`.
pub open spec fn pending_position(pending: Seq<PendingSync>, epoch: HummockEpoch) -> int {
    choose|i: int| 0 <= i < pending.len() && (#[trigger] pending[i]).epoch == epoch
}

/// No two pending requests are for the same epoch.
pub open spec fn pending_distinct(pending: Seq<PendingSync>) -> bool {
    forall|i: int, j: int|
        0 <= i < j < pending.len() ==> (#[trigger] pending[i]).epoch != (#[trigger] pending[j]).epoch
}

/// The instance `instance_id` of the table `table_id` is registered.
pub open spec fn has_reader(
    readers: Seq<ReaderView>,
    table_id: TableId,
    instance_id: InstanceId,
) -> bool {
    exists|i: int| is_reader_at(readers, table_id, instance_id, i)
}

/// The instance `instance_id` of the table `table_id` stands at `index`.
pub open spec fn is_reader_at(
    readers: Seq<ReaderView>,
    table_id: TableId,
    instance_id: InstanceId,
    index: int,
) -> bool {
    &&& 0 <= index < readers.len()
    &&& readers[index].table_id == table_id
    &&& readers[index].instance_id == instance_id
}

/// The position of the instance `instance_id` of the table `table_id`.
pub open spec fn reader_position(
    readers: Seq<ReaderView>,
    table_id: TableId,
    instance_id: InstanceId,
) -> int {
    choose|i: int| is_reader_at(readers, table_id, instance_id, i)
}

/// No instance is registered twice.
pub open spec fn readers_distinct(readers: Seq<ReaderView>) -> bool {
    forall|i: int, j: int|
        0 <= i < j < readers.len() ==> !((#[trigger] readers[i]).table_id == (#[trigger] readers[j]).table_id
            && readers[i].instance_id == readers[j].instance_id)
}

pub struct HummockEventHandler {
    pub buffer_tracker: BufferTracker,
    pub upload_handle_manager: UploadHandleManager,
    pub pending_sync_requests: Vec<PendingSync>,
    pub read_version_mapping: Vec<ReadVersionEntry>,
    /// The committed epoch that the version watchers have been told.
    pub version_update_notifier_tx: HummockEpoch,
    pub seal_epoch: HummockEpoch,
    pub pinned_version: PinnedVersion,
    pub write_conflict_detection_enabled: bool,
    pub local_version: LocalVersion,
    /// The id that the next upload task gets.
    pub next_task_id: TaskId,
}

/// The handler as a mathematical object.
pub struct HandlerView {
    pub buffer_tracker: BufferTracker,
    pub handles: Seq<UploadHandle>,
    pub pending: Seq<PendingSync>,
    pub readers: Seq<ReaderView>,
    pub notified_epoch: HummockEpoch,
    pub seal_epoch: HummockEpoch,
    pub pinned_version: VersionView,
    pub conflict_detection: bool,
    pub local: LocalVersionView,
    pub next_task_id: TaskId,
}

impl View for HummockEventHandler {
    type V = HandlerView;

    open spec fn view(&self) -> HandlerView {
        HandlerView {
            buffer_tracker: self.buffer_tracker,
            handles: self.upload_handle_manager@,
            pending: self.pending_sync_requests@,
            readers: reader_views(self.read_version_mapping@),
            notified_epoch: self.version_update_notifier_tx,
            seal_epoch: self.seal_epoch,
            pinned_version: self.pinned_version@,
            conflict_detection: self.write_conflict_detection_enabled,
            local: self.local_version@,
            next_task_id: self.next_task_id,
        }
    }
}

/// A state of the handler with the actions that led to it.
pub struct Step {
    pub state: HandlerView,
    pub actions: Seq<ActionView>,
}

impl HandlerView {
    /// The shared buffer is consistent and accounted for: the limiter covers
    /// every memtable in it, and the bytes in flight are those that uploads
    /// carry. At most one sync request is pending per epoch, no instance is
    /// registered twice, and every reader, the shared buffer and the version
    /// watchers are at the pinned version.
    pub open spec fn wf(self) -> bool {
        &&& self.local.wf()
        &&& self.buffer_tracker.global_buffer.wf()
        &&& self.buffer_tracker.global_buffer.capacity <= usize::MAX
        &&& self.local.buffer_bytes() <= self.buffer_tracker.global_buffer.usage
        &&& self.buffer_tracker.global_upload_task_size == self.local.uploading_bytes()
        &&& pending_distinct(self.pending)
        &&& readers_distinct(self.readers)
        &&& forall|i: int|
            0 <= i < self.readers.len() ==> {
                &&& (#[trigger] self.readers[i]).read_version.wf()
                &&& self.readers[i].read_version.committed == self.pinned_version
                &&& self.readers[i].read_version.staged_above_committed()
            }
        &&& self.local.pinned_version == self.pinned_version
        &&& self.notified_epoch == self.pinned_version.max_committed_epoch
    }

    /// The bytes that were reserved for memtables which the buffer does not
    /// hold yet.
    pub open spec fn reserved_bytes(self) -> int {
        self.buffer_tracker.global_buffer.usage - self.local.buffer_bytes()
    }

    /// After a memtable has arrived for upload.
    pub open spec fn imm_to_uploader(self, imm: Arc<ImmutableMemtable>) -> Step {
        Step { state: HandlerView { local: self.local.write(imm), ..self }, actions: Seq::empty() }
    }

    /// After `epoch`, which is above the largest sync epoch, was sealed.
    pub open spec fn seal(self, epoch: HummockEpoch, is_checkpoint: bool) -> Step {
        Step {
            state: HandlerView {
                local: self.local.seal(epoch, is_checkpoint),
                seal_epoch: epoch,
                ..self
            },
            actions: Seq::empty(),
        }
    }

    /// After an instance was registered: it reads the pinned version, with
    /// nothing staged. An instance of the same name is replaced.
    pub open spec fn register(
        self,
        table_id: TableId,
        instance_id: InstanceId,
        sender: SenderId,
    ) -> Step {
        let reader = ReaderView {
            table_id,
            instance_id,
            read_version: ReadVersionView {
                imm: Seq::empty(),
                sst: Seq::empty(),
                committed: self.pinned_version,
            },
        };
        Step {
            state: HandlerView {
                readers: if has_reader(self.readers, table_id, instance_id) {
                    self.readers.update(reader_position(self.readers, table_id, instance_id), reader)
                } else {
                    self.readers.push(reader)
                },
                ..self
            },
            actions: seq![ActionView::InstanceRegistered { table_id, instance_id, sender }],
        }
    }

    /// After a registered instance was destroyed.
    pub open spec fn destroy(self, table_id: TableId, instance_id: InstanceId) -> Step {
        Step {
            state: HandlerView {
                readers: self.readers.remove(reader_position(self.readers, table_id, instance_id)),
                ..self
            },
            actions: Seq::empty(),
        }
    }

    /// After the pending request for `epoch` got `result`.
    pub open spec fn send_sync_result(
        self,
        epoch: HummockEpoch,
        result: Result<SyncResultView, HummockError>,
    ) -> Step {
        let position = pending_position(self.pending, epoch);
        Step {
            state: HandlerView { pending: self.pending.remove(position), ..self },
            actions: seq![
                ActionView::SendSyncResult { sender: self.pending[position].sender, result },
            ],
        }
    }

    /// Where the oldest unsynced memtable that no upload carries stands.
    pub open spec fn next_flush(self) -> int {
        choose|index: int| self.local.is_next_flush(index)
    }

    /// After the flush of the oldest unsynced memtable that no upload
    /// carries was started as a new upload task, attached to the epoch of
    /// the memtable.
    pub open spec fn spawn_flush(self) -> Step {
        let index = self.next_flush();
        let task = self.next_task_id;
        let imm = self.local.unsynced[index].imm;
        Step {
            state: HandlerView {
                local: self.local.start_flush(index, task),
                buffer_tracker: BufferTracker {
                    global_upload_task_size: (self.buffer_tracker.global_upload_task_size
                        + imm.spec_size()) as usize,
                    ..self.buffer_tracker
                },
                handles: self.handles.push(UploadHandle { epoch: imm.spec_epoch(), task_id: task }),
                next_task_id: (task + 1) as TaskId,
                ..self
            },
            actions: seq![
                ActionView::SpawnFlushTask { task_id: task, epoch: imm.spec_epoch(), payload: imm },
            ],
        }
    }

    /// After up to `limit` flushes, each started while more flushing is
    /// needed and something is left to flush.
    pub open spec fn flush_up_to(self, limit: nat) -> Step
        decreases limit,
    {
        if limit == 0 || !self.buffer_tracker.spec_need_more_flush() || !self.local.has_flushable() {
            Step { state: self, actions: Seq::empty() }
        } else {
            let first = self.spawn_flush();
            let rest = first.state.flush_up_to((limit - 1) as nat);
            Step { state: rest.state, actions: first.actions + rest.actions }
        }
    }

    /// After the buffer was flushed as far as needed: flushes are started,
    /// oldest memtable first, until the bytes that no upload carries are
    /// down to the threshold or nothing is left to flush.
    pub open spec fn flush(self) -> Step {
        self.flush_up_to(self.local.unsynced.len())
    }

    /// There are task ids for a flush of every unsynced memtable.
    pub open spec fn can_flush(self) -> bool {
        self.next_task_id + self.local.unsynced.len() <= u64::MAX
    }

    /// After the sync of `epoch` was started as a new upload task.
    pub open spec fn spawn_sync(self, epoch: HummockEpoch) -> Step {
        let task = self.next_task_id;
        let bytes = self.local.sync_bytes(epoch);
        Step {
            state: HandlerView {
                local: self.local.start_sync(epoch, task),
                buffer_tracker: BufferTracker {
                    global_upload_task_size: (self.buffer_tracker.global_upload_task_size
                        + bytes) as usize,
                    ..self.buffer_tracker
                },
                handles: self.handles.push(UploadHandle { epoch, task_id: task }),
                next_task_id: (task + 1) as TaskId,
                ..self
            },
            actions: seq![
                ActionView::SpawnSyncTask {
                    task_id: task,
                    epoch,
                    payload: self.local.sync_payload(epoch),
                    pinned_version: self.local.pinned_version,
                    sync_size: bytes as usize,
                },
            ],
        }
    }

    /// The sync of `epoch` can be started: a task id is left, and the record
    /// of the epoch is there and sealed.
    pub open spec fn can_spawn_sync(self, epoch: HummockEpoch) -> bool {
        &&& self.next_task_id < u64::MAX
        &&& has_record(self.local.syncing, epoch)
        &&& self.local.syncing[record_position(self.local.syncing, epoch)].stage == SyncStage::Sealed
    }

    /// The state in which a sync request for `epoch` goes on: where the
    /// epoch has no record and is above the largest sync epoch, the request
    /// seals it as a checkpoint.
    pub open spec fn implicitly_sealed(self, epoch: HummockEpoch) -> HandlerView {
        if !has_record(self.local.syncing, epoch) && epoch > self.local.max_sync_epoch {
            self.seal(epoch, true).state
        } else {
            self
        }
    }

    /// The last upload attached to `epoch` has ended, and the handler can go
    /// on: the epoch is above every sync epoch, or its record is there and
    /// not syncing, with a task id left where the sync is to start and a
    /// pending request where a result is to be sent.
    pub open spec fn can_finish_epoch(self, epoch: HummockEpoch) -> bool {
        epoch <= self.local.max_sync_epoch ==> {
            &&& has_record(self.local.syncing, epoch)
            &&& match self.local.syncing[record_position(self.local.syncing, epoch)].stage {
                SyncStage::Sealed => self.next_task_id < u64::MAX,
                SyncStage::Syncing(_) => false,
                SyncStage::Synced => has_pending(self.pending, epoch),
                SyncStage::Failed => has_pending(self.pending, epoch),
            }
        }
    }

    /// After the last upload attached to `epoch` has ended. An epoch above
    /// every sync epoch was a flush of unsealed data: nothing follows. Else
    /// the record decides: sealed, its sync starts; failed or synced, the
    /// pending request gets the error or the files.
    pub open spec fn epoch_finished(self, epoch: HummockEpoch) -> Step {
        if epoch > self.local.max_sync_epoch {
            Step { state: self, actions: Seq::empty() }
        } else {
            let record = self.local.syncing[record_position(self.local.syncing, epoch)];
            match record.stage {
                SyncStage::Sealed => self.spawn_sync(epoch),
                SyncStage::Syncing(_) => Step { state: self, actions: Seq::empty() },
                SyncStage::Failed => self.send_sync_result(epoch, Err(HummockError::SyncTaskFailed)),
                SyncStage::Synced => self.send_sync_result(
                    epoch,
                    Ok(SyncResultView { sync_size: record.sync_size, uncommitted_ssts: record.ssts }),
                ),
            }
        }
    }

    /// After a sync request for `epoch` was put down. A request that was
    /// pending for the same epoch is told that it was overwritten.
    pub open spec fn insert_pending(self, epoch: HummockEpoch, sender: SenderId) -> Step {
        if has_pending(self.pending, epoch) {
            let position = pending_position(self.pending, epoch);
            Step {
                state: HandlerView {
                    pending: self.pending.update(position, PendingSync { epoch, sender }),
                    ..self
                },
                actions: seq![
                    ActionView::SendSyncResult {
                        sender: self.pending[position].sender,
                        result: Err(HummockError::SyncOverwritten),
                    },
                ],
            }
        } else {
            Step {
                state: HandlerView { pending: self.pending.push(PendingSync { epoch, sender }), ..self },
                actions: Seq::empty(),
            }
        }
    }

    /// The epochs whose uploads the sync of `epoch` waits for: those above
    /// `prev` and up to `epoch`.
    pub open spec fn sync_range(prev: HummockEpoch, epoch: HummockEpoch) -> EpochRange {
        EpochRange { after: Some(prev), up_to: epoch }
    }

    /// The sync request for `epoch` can be handled: where it is not stale
    /// and no upload is in its way, the sync can be started.
    pub open spec fn can_sync_epoch(self, epoch: HummockEpoch) -> bool {
        match prev_max_sync_epoch(self.local, epoch) {
            None => true,
            Some(prev) => handles_in(self.handles, Self::sync_range(prev, epoch)).len() == 0
                ==> self.implicitly_sealed(epoch).can_spawn_sync(epoch),
        }
    }

    /// After a sync request for `epoch`. The request is put down. If the
    /// epoch is not above the committed epoch, it is answered as stale at
    /// once. Else the epoch is sealed as a checkpoint, if it has no record
    /// and is above the largest sync epoch, and the uploads of the epochs
    /// since the sync epoch before are attached to `epoch`; where there are
    /// none, the sync starts.
    pub open spec fn sync_epoch(self, epoch: HummockEpoch, sender: SenderId) -> Step {
        let registered = self.insert_pending(epoch, sender);
        match prev_max_sync_epoch(self.local, epoch) {
            None => {
                let replied = registered.state.send_sync_result(epoch, Err(HummockError::SyncStale));
                Step { state: replied.state, actions: registered.actions + replied.actions }
            },
            Some(prev) => {
                let range = Self::sync_range(prev, epoch);
                let drained = handles_in(self.handles, range);
                let rest = HandlerView {
                    handles: handles_outside(self.handles, range),
                    ..registered.state.implicitly_sealed(epoch)
                };
                if drained.len() == 0 {
                    let spawned = rest.spawn_sync(epoch);
                    Step { state: spawned.state, actions: registered.actions + spawned.actions }
                } else {
                    Step {
                        state: HandlerView {
                            handles: rest.handles + attached(epoch, tasks_of(drained)),
                            ..rest
                        },
                        actions: registered.actions,
                    }
                }
            },
        }
    }

    /// After the outcome of the upload `task` was noted: the shared buffer
    /// has settled it, its bytes are in flight no longer, and, if it
    /// succeeded, the limiter has them back.
    pub open spec fn upload_settled(
        self,
        task: TaskId,
        produced: Option<Seq<LocalSstableInfo>>,
    ) -> HandlerView {
        let carried = self.local.carried_bytes(task);
        let released = if produced is Some {
            carried
        } else {
            0
        };
        HandlerView {
            local: self.local.settle(task, produced),
            buffer_tracker: BufferTracker {
                global_upload_task_size: (self.buffer_tracker.global_upload_task_size
                    - carried) as usize,
                global_buffer: MemoryLimiter {
                    usage: (self.buffer_tracker.global_buffer.usage - released) as u64,
                    ..self.buffer_tracker.global_buffer
                },
                ..self.buffer_tracker
            },
            ..self
        }
    }

    /// After the handle of the ended upload `task` has left.
    pub open spec fn handle_left(self, task: TaskId) -> HandlerView {
        HandlerView { handles: handles_after(self.handles, task), ..self }
    }

    /// The end of the upload `task` can be handled: where it finishes an
    /// epoch, the handler can go on with that epoch.
    pub open spec fn can_finish_upload(
        self,
        task: TaskId,
        produced: Option<Seq<LocalSstableInfo>>,
    ) -> bool {
        finished_epoch(self.handles, task) matches Some(epoch) ==> self.upload_settled(
            task,
            produced,
        ).handle_left(task).can_finish_epoch(epoch)
    }

    /// After the upload `task` has ended, with the files `produced` or, if
    /// it failed, with none: its outcome is noted, its handle leaves, and
    /// where it was the last upload attached to its epoch, the handler goes
    /// on with that epoch.
    pub open spec fn upload_finished(
        self,
        task: TaskId,
        produced: Option<Seq<LocalSstableInfo>>,
    ) -> Step {
        let settled = self.upload_settled(task, produced).handle_left(task);
        match finished_epoch(self.handles, task) {
            Some(epoch) => settled.epoch_finished(epoch),
            None => Step { state: settled, actions: Seq::empty() },
        }
    }

    /// What tells the pending requests that the buffer was cleared.
    pub open spec fn cleared_replies(pending: Seq<PendingSync>) -> Seq<ActionView> {
        pending.map_values(
            |request: PendingSync|
                ActionView::SendSyncResult {
                    sender: request.sender,
                    result: Err(HummockError::SyncCleared),
                },
        )
    }

    /// After a clear: every upload handle is drained and to be awaited,
    /// every pending request is told so, the shared buffer is empty and its
    /// bytes are back with the limiter.
    pub open spec fn clear(self, notifier: SenderId) -> Step {
        Step {
            state: HandlerView {
                handles: Seq::empty(),
                pending: Seq::empty(),
                local: self.local.clear(),
                buffer_tracker: BufferTracker {
                    global_upload_task_size: 0,
                    global_buffer: MemoryLimiter {
                        usage: (self.buffer_tracker.global_buffer.usage
                            - self.local.buffer_bytes()) as u64,
                        ..self.buffer_tracker.global_buffer
                    },
                    ..self.buffer_tracker
                },
                ..self
            },
            actions: seq![ActionView::AwaitUploads { tasks: tasks_of(self.handles) }]
                + Self::cleared_replies(self.pending) + seq![
                ActionView::RemoveWatermarkSstId { epoch: u64::MAX },
                ActionView::NotifyCleared { notifier },
            ],
        }
    }

    /// The readers after the commit of `version`.
    pub open spec fn readers_committed(
        readers: Seq<ReaderView>,
        version: VersionView,
    ) -> Seq<ReaderView> {
        readers.map_values(
            |reader: ReaderView|
                ReaderView { read_version: reader.read_version.commit(version), ..reader },
        )
    }

    /// After a version update. The payload gives the new pinned version,
    /// which every reader gets. If the committed epoch has grown, the
    /// watchers are told, and the sync records up to it leave the shared
    /// buffer, their bytes going back to the limiter.
    pub open spec fn version_update(self, payload: Payload) -> Step {
        let version = payload_result(self.pinned_version, payload);
        let epoch = version.max_committed_epoch;
        let grown = epoch > self.pinned_version.max_committed_epoch;
        Step {
            state: HandlerView {
                pinned_version: version,
                readers: Self::readers_committed(self.readers, version),
                notified_epoch: epoch,
                local: if grown {
                    self.local.commit(version)
                } else {
                    LocalVersionView { pinned_version: version, ..self.local }
                },
                buffer_tracker: if grown {
                    BufferTracker {
                        global_upload_task_size: (self.buffer_tracker.global_upload_task_size
                            - evicted_uploading_bytes(self.local.syncing, epoch)) as usize,
                        global_buffer: MemoryLimiter {
                            usage: (self.buffer_tracker.global_buffer.usage - evicted_bytes(
                                self.local.syncing,
                                epoch,
                            )) as u64,
                            ..self.buffer_tracker.global_buffer
                        },
                        ..self.buffer_tracker
                    }
                } else {
                    self.buffer_tracker
                },
                ..self
            },
            actions: (if grown {
                seq![ActionView::NotifyVersionUpdate { max_committed_epoch: epoch }]
            } else {
                Seq::empty()
            }) + (if self.conflict_detection {
                seq![ActionView::SetConflictWatermark { epoch }]
            } else {
                Seq::empty()
            }) + seq![ActionView::RemoveWatermarkSstId { epoch }],
        }
    }

    /// A write at `epoch` comes too late: the epoch is sealed for sync or
    /// committed already.
    pub open spec fn write_is_stale(self, epoch: HummockEpoch) -> bool {
        epoch <= self.local.max_sync_epoch || epoch <= self.pinned_version.max_committed_epoch
    }

    /// After the instance at `position` has staged the memtable `imm`: its
    /// read version is `staged` now, and the limiter has reserved the bytes
    /// of the memtable, which is on its way to the shared buffer.
    pub open spec fn staged(
        self,
        position: int,
        imm: Arc<ImmutableMemtable>,
        staged: ReadVersionView,
    ) -> HandlerView {
        HandlerView {
            readers: self.readers.update(
                position,
                ReaderView { read_version: staged, ..self.readers[position] },
            ),
            buffer_tracker: BufferTracker {
                global_buffer: MemoryLimiter {
                    usage: (self.buffer_tracker.global_buffer.usage + imm.spec_size()) as u64,
                    ..self.buffer_tracker.global_buffer
                },
                ..self.buffer_tracker
            },
            ..self
        }
    }

    /// After the instance at `position` has written the memtable `imm`:
    /// its read version has staged it and is `staged` now, the limiter has
    /// reserved its bytes, and it is in the shared buffer.
    pub open spec fn ingested(
        self,
        position: int,
        imm: Arc<ImmutableMemtable>,
        staged: ReadVersionView,
    ) -> HandlerView {
        HandlerView {
            readers: self.readers.update(
                position,
                ReaderView { read_version: staged, ..self.readers[position] },
            ),
            buffer_tracker: BufferTracker {
                global_buffer: MemoryLimiter {
                    usage: (self.buffer_tracker.global_buffer.usage + imm.spec_size()) as u64,
                    ..self.buffer_tracker.global_buffer
                },
                ..self.buffer_tracker
            },
            local: self.local.write(imm),
            ..self
        }
    }

    /// After a write, the buffer is flushed as far as needed, if there are
    /// task ids for it.
    pub open spec fn flush_if_possible(self) -> Step {
        if self.can_flush() {
            self.flush()
        } else {
            Step { state: self, actions: Seq::empty() }
        }
    }

    /// What keeps the sync of `epoch` from starting, if anything.
    pub open spec fn spawn_sync_fault(self, epoch: HummockEpoch) -> Option<HandlerFault> {
        if self.next_task_id == u64::MAX {
            Some(HandlerFault::TaskIdsExhausted)
        } else if has_record(self.local.syncing, epoch) {
            if self.local.syncing[record_position(self.local.syncing, epoch)].stage == SyncStage::Sealed {
                None
            } else {
                Some(HandlerFault::SyncNotSealed)
            }
        } else {
            Some(HandlerFault::SyncRecordMissing)
        }
    }

    /// What keeps the handler from going on after the uploads of `epoch`
    /// have ended, if anything.
    pub open spec fn finish_epoch_fault(self, epoch: HummockEpoch) -> Option<HandlerFault> {
        if epoch > self.local.max_sync_epoch {
            None
        } else if !has_record(self.local.syncing, epoch) {
            Some(HandlerFault::SyncRecordMissing)
        } else {
            match self.local.syncing[record_position(self.local.syncing, epoch)].stage {
                SyncStage::Sealed => if self.next_task_id == u64::MAX {
                    Some(HandlerFault::TaskIdsExhausted)
                } else {
                    None
                },
                SyncStage::Syncing(_) => Some(HandlerFault::SyncStillRunning),
                _ => if has_pending(self.pending, epoch) {
                    None
                } else {
                    Some(HandlerFault::NoPendingSyncRequest)
                },
            }
        }
    }

    /// What keeps a sync request for `epoch` from being handled, if
    /// anything.
    pub open spec fn sync_epoch_fault(self, epoch: HummockEpoch) -> Option<HandlerFault> {
        match prev_max_sync_epoch(self.local, epoch) {
            None => None,
            Some(prev) => if handles_in(self.handles, Self::sync_range(prev, epoch)).len() == 0 {
                self.implicitly_sealed(epoch).spawn_sync_fault(epoch)
            } else {
                None
            },
        }
    }

    /// What keeps `event` from being handled, if anything.
    pub open spec fn event_fault(self, event: HummockEvent) -> Option<HandlerFault> {
        match event {
            HummockEvent::BufferMayFlush => if self.can_flush() {
                None
            } else {
                Some(HandlerFault::TaskIdsExhausted)
            },
            HummockEvent::SyncEpoch { new_sync_epoch, sync_result_sender } => self.sync_epoch_fault(
                new_sync_epoch,
            ),
            HummockEvent::Clear(_) => None,
            HummockEvent::Shutdown => None,
            HummockEvent::VersionUpdate(payload) => match check_payload(self.pinned_version, payload) {
                PayloadCheck::Applies => None,
                PayloadCheck::DeltaMismatch => Some(
                    HandlerFault::Storage(HummockError::VersionDeltaMismatch),
                ),
                PayloadCheck::KeyRangeMissing => Some(HandlerFault::Storage(HummockError::KeyRangeInvalid)),
            },
            HummockEvent::ImmToUploader(imm) => if imm.spec_size() <= self.reserved_bytes() {
                None
            } else {
                Some(HandlerFault::MemoryNotReserved)
            },
            HummockEvent::SealEpoch { epoch, is_checkpoint } => if epoch
                <= self.local.max_sync_epoch {
                Some(HandlerFault::SealEpochNotAdvancing)
            } else {
                None
            },
            HummockEvent::RegisterHummockInstance { table_id, instance_id, sync_result_sender } => None,
            HummockEvent::DestroyHummockInstance { table_id, instance_id } => if has_reader(
                self.readers,
                table_id,
                instance_id,
            ) {
                None
            } else {
                Some(HandlerFault::InstanceNotRegistered)
            },
        }
    }

    /// After `event` was handled.
    pub open spec fn handle_event(self, event: HummockEvent) -> Step {
        match event {
            HummockEvent::BufferMayFlush => self.flush(),
            HummockEvent::SyncEpoch { new_sync_epoch, sync_result_sender } => self.sync_epoch(
                new_sync_epoch,
                sync_result_sender,
            ),
            HummockEvent::Clear(notifier) => self.clear(notifier),
            HummockEvent::Shutdown => Step { state: self, actions: Seq::empty() },
            HummockEvent::VersionUpdate(payload) => self.version_update(payload),
            HummockEvent::ImmToUploader(imm) => self.imm_to_uploader(imm),
            HummockEvent::SealEpoch { epoch, is_checkpoint } => self.seal(epoch, is_checkpoint),
            HummockEvent::RegisterHummockInstance { table_id, instance_id, sync_result_sender } => {
                self.register(table_id, instance_id, sync_result_sender)
            },
            HummockEvent::DestroyHummockInstance { table_id, instance_id } => self.destroy(
                table_id,
                instance_id,
            ),
        }
    }

    /// What keeps the end of the upload `task` from being handled, if
    /// anything.
    pub open spec fn upload_fault(
        self,
        task: TaskId,
        produced: Option<Seq<LocalSstableInfo>>,
    ) -> Option<HandlerFault> {
        match finished_epoch(self.handles, task) {
            Some(epoch) => self.upload_settled(task, produced).handle_left(task).finish_epoch_fault(
                epoch,
            ),
            None => None,
        }
    }

    /// What keeps `input` from being handled, if anything.
    pub open spec fn input_fault(self, input: HandlerInput) -> Option<HandlerFault> {
        match input {
            HandlerInput::UploadFinished { task_id, produced } => self.upload_fault(
                task_id,
                produced_view(produced),
            ),
            HandlerInput::Event(event) => self.event_fault(event),
            HandlerInput::ChannelClosed => None,
        }
    }

    /// The state after `input`, with the actions that it asks for. Where
    /// something keeps an event from being handled, nothing changes; where
    /// it keeps the end of an upload from being handled, the outcome of the
    /// upload is noted and its handle has left all the same.
    pub open spec fn step(self, input: HandlerInput) -> Step {
        match input {
            HandlerInput::UploadFinished { task_id, produced } => if self.input_fault(input) is Some {
                Step {
                    state: self.upload_settled(task_id, produced_view(produced)).handle_left(task_id),
                    actions: Seq::empty(),
                }
            } else {
                self.upload_finished(task_id, produced_view(produced))
            },
            HandlerInput::Event(event) => if self.input_fault(input) is Some {
                Step { state: self, actions: Seq::empty() }
            } else {
                self.handle_event(event)
            },
            HandlerInput::ChannelClosed => Step { state: self, actions: Seq::empty() },
        }
    }

    /// Whether the event loop ends with `input`.
    pub open spec fn ends_with(input: HandlerInput) -> bool {
        match input {
            HandlerInput::Event(HummockEvent::Shutdown) => true,
            HandlerInput::ChannelClosed => true,
            _ => false,
        }
    }
}

/// The state after the handler has taken `inputs`, one after the other.
pub open spec fn run(v: HandlerView, inputs: Seq<HandlerInput>) -> HandlerView
    decreases inputs.len(),
{
    if inputs.len() == 0 {
        v
    } else {
        run(v, inputs.drop_last()).step(inputs.last()).state
    }
}

/// What the handler asks for while it takes `inputs`, one after the other.
pub open spec fn run_actions(v: HandlerView, inputs: Seq<HandlerInput>) -> Seq<ActionView>
    decreases inputs.len(),
{
    if inputs.len() == 0 {
        Seq::empty()
    } else {
        run_actions(v, inputs.drop_last()) + run(v, inputs.drop_last()).step(inputs.last()).actions
    }
}

/// The event loop has to stop when it has taken `inputs`: the last of them
/// ends it, or cannot be handled.
pub open spec fn run_stops(v: HandlerView, inputs: Seq<HandlerInput>) -> bool {
    inputs.len() > 0 && (HandlerView::ends_with(inputs.last()) || run(
        v,
        inputs.drop_last(),
    ).input_fault(inputs.last()) is Some)
}

/// Flushing touches the shared buffer, the bytes in flight, the upload
/// handles and the task ids, and nothing else.
pub proof fn lemma_flush_keeps(v: HandlerView, limit: nat)
    ensures
        v.flush_up_to(limit).state.readers == v.readers,
        v.flush_up_to(limit).state.pending == v.pending,
        v.flush_up_to(limit).state.pinned_version == v.pinned_version,
        v.flush_up_to(limit).state.notified_epoch == v.notified_epoch,
        v.flush_up_to(limit).state.seal_epoch == v.seal_epoch,
        v.flush_up_to(limit).state.conflict_detection == v.conflict_detection,
        v.flush_up_to(limit).state.buffer_tracker.global_buffer == v.buffer_tracker.global_buffer,
        v.flush_up_to(limit).state.buffer_tracker.flush_threshold == v.buffer_tracker.flush_threshold,
        v.flush_up_to(limit).state.local.syncing == v.local.syncing,
        v.flush_up_to(limit).state.local.max_sync_epoch == v.local.max_sync_epoch,
        v.flush_up_to(limit).state.local.pinned_version == v.local.pinned_version,
    decreases limit,
{
    if !(limit == 0 || !v.buffer_tracker.spec_need_more_flush() || !v.local.has_flushable()) {
        lemma_flush_keeps(v.spawn_flush().state, (limit - 1) as nat);
    }
}

/// Among distinct pending requests an epoch stands at one position only.
pub proof fn lemma_pending_position(pending: Seq<PendingSync>, i: int)
    requires
        pending_distinct(pending),
        0 <= i < pending.len(),
    ensures
        has_pending(pending, pending[i].epoch),
        pending_position(pending, pending[i].epoch) == i,
{
    let p = pending_position(pending, pending[i].epoch);
    if p < i {
        assert(pending[p].epoch != pending[i].epoch);
    } else if i < p {
        assert(pending[i].epoch != pending[p].epoch);
    }
}

/// Among distinct readers an instance stands at one position only.
pub proof fn lemma_reader_position(readers: Seq<ReaderView>, i: int)
    requires
        readers_distinct(readers),
        0 <= i < readers.len(),
    ensures
        has_reader(readers, readers[i].table_id, readers[i].instance_id),
        reader_position(readers, readers[i].table_id, readers[i].instance_id) == i,
{
    assert(is_reader_at(readers, readers[i].table_id, readers[i].instance_id, i));
    let p = reader_position(readers, readers[i].table_id, readers[i].instance_id);
    if p < i {
        assert(!(readers[p].table_id == readers[i].table_id && readers[p].instance_id
            == readers[i].instance_id));
    } else if i < p {
        assert(!(readers[i].table_id == readers[p].table_id && readers[i].instance_id
            == readers[p].instance_id));
    }
}

impl HummockEventHandler {
    /// A handler on top of the version `pinned_version`, with an empty
    /// shared buffer that `buffer_tracker` accounts.
    pub fn new(
        buffer_tracker: BufferTracker,
        pinned_version: PinnedVersion,
        config: &StorageConfig,
    ) -> (handler: HummockEventHandler)
        requires
            buffer_tracker.wf(),
            buffer_tracker.global_upload_task_size == 0,
        ensures
            handler@.wf(),
            handler@.buffer_tracker == buffer_tracker,
            handler@.handles.len() == 0,
            handler@.pending.len() == 0,
            handler@.readers.len() == 0,
            handler@.notified_epoch == pinned_version@.max_committed_epoch,
            handler@.seal_epoch == pinned_version@.max_committed_epoch,
            handler@.pinned_version == pinned_version@,
            handler@.conflict_detection == config.write_conflict_detection_enabled,
            handler@.local.unsynced.len() == 0,
            handler@.local.syncing.len() == 0,
            handler@.local.unsynced_ssts.len() == 0,
            handler@.local.max_sync_epoch == pinned_version@.max_committed_epoch,
            handler@.next_task_id == 0,
    {
        let epoch = pinned_version.max_committed_epoch();
        HummockEventHandler {
            buffer_tracker,
            upload_handle_manager: UploadHandleManager::new(),
            pending_sync_requests: Vec::new(),
            read_version_mapping: Vec::new(),
            version_update_notifier_tx: epoch,
            seal_epoch: epoch,
            local_version: LocalVersion::new(pinned_version.share()),
            pinned_version,
            write_conflict_detection_enabled: config.write_conflict_detection_enabled,
            next_task_id: 0,
        }
    }

    pub fn sealed_epoch(&self) -> (epoch: HummockEpoch)
        ensures
            epoch == self@.seal_epoch,
    {
        self.seal_epoch
    }

    /// The committed epoch that the version watchers have been told.
    pub fn version_update_notifier_tx(&self) -> (epoch: HummockEpoch)
        ensures
            epoch == self@.notified_epoch,
    {
        self.version_update_notifier_tx
    }

    pub fn read_version_mapping(&self) -> (mapping: &Vec<ReadVersionEntry>)
        ensures
            reader_views(mapping@) == self@.readers,
    {
        &self.read_version_mapping
    }

    pub fn buffer_tracker(&self) -> (tracker: &BufferTracker)
        ensures
            *tracker == self@.buffer_tracker,
    {
        &self.buffer_tracker
    }

    pub fn pinned_version(&self) -> (pinned: PinnedVersion)
        ensures
            pinned@ == self@.pinned_version,
            pinned == self.pinned_version,
    {
        self.pinned_version.share()
    }

    /// Where the pending request for `epoch` stands, if there is one.
    pub fn pending_index(&self, epoch: HummockEpoch) -> (found: Option<usize>)
        requires
            pending_distinct(self@.pending),
        ensures
            match found {
                Some(index) => has_pending(self@.pending, epoch) && index == pending_position(
                    self@.pending,
                    epoch,
                ) && index < self@.pending.len(),
                None => !has_pending(self@.pending, epoch),
            },
    {
        let mut i: usize = 0;
        while i < self.pending_sync_requests.len()
            invariant
                i <= self.pending_sync_requests.len(),
                pending_distinct(self@.pending),
                forall|j: int| 0 <= j < i ==> (#[trigger] self@.pending[j]).epoch != epoch,
            decreases self.pending_sync_requests.len() - i,
        {
            if self.pending_sync_requests[i].epoch == epoch {
                proof {
                    lemma_pending_position(self@.pending, i as int);
                }
                return Some(i);
            }
            i = i + 1;
        }
        None
    }

    /// Where the instance `instance_id` of the table `table_id` stands, if
    /// it is registered.
    pub fn reader_index(&self, table_id: TableId, instance_id: InstanceId) -> (found: Option<usize>)
        requires
            readers_distinct(self@.readers),
        ensures
            match found {
                Some(index) => has_reader(self@.readers, table_id, instance_id) && index
                    == reader_position(self@.readers, table_id, instance_id) && index
                    < self@.readers.len(),
                None => !has_reader(self@.readers, table_id, instance_id),
            },
    {
        let mut i: usize = 0;
        while i < self.read_version_mapping.len()
            invariant
                i <= self.read_version_mapping.len(),
                readers_distinct(self@.readers),
                forall|j: int| 0 <= j < i ==> !is_reader_at(self@.readers, table_id, instance_id, j),
            decreases self.read_version_mapping.len() - i,
        {
            if self.read_version_mapping[i].table_id.table_id == table_id.table_id
                && self.read_version_mapping[i].instance_id == instance_id {
                proof {
                    assert(self@.readers[i as int] == self.read_version_mapping@[i as int]@);
                    lemma_reader_position(self@.readers, i as int);
                }
                return Some(i);
            }
            proof {
                assert(self@.readers[i as int] == self.read_version_mapping@[i as int]@);
            }
            i = i + 1;
        }
        None
    }

    /// Sends `result` to the pending request for `epoch`, which is pending
    /// no longer.
    pub fn send_sync_result(
        &mut self,
        epoch: HummockEpoch,
        result: Result<SyncResult, HummockError>,
    ) -> (action: HandlerAction)
        requires
            old(self)@.wf(),
            has_pending(old(self)@.pending, epoch),
        ensures
            final(self)@ == old(self)@.send_sync_result(epoch, result_view(result)).state,
            seq![action@] == old(self)@.send_sync_result(epoch, result_view(result)).actions,
            final(self)@.wf(),
    {
        let found = self.pending_index(epoch);
        let index = found.unwrap();
        let request = self.pending_sync_requests.remove(index);
        HandlerAction::SendSyncResult { sender: request.sender, result }
    }

    /// Keep issuing new flush tasks until flush is not needed or we can
    /// issue no more task.
    pub fn try_flush_shared_buffer(&mut self) -> (actions: Vec<HandlerAction>)
        requires
            old(self)@.wf(),
            old(self)@.can_flush(),
        ensures
            final(self)@ == old(self)@.flush().state,
            action_views(actions@) == old(self)@.flush().actions,
            final(self)@.wf(),
            !final(self)@.buffer_tracker.spec_need_more_flush() || !final(self)@.local.has_flushable(),
    {
        let mut actions: Vec<HandlerAction> = Vec::new();
        let ghost mut limit: nat = self@.local.unsynced.len();
        proof {
            lemma_idle_count_le(self@.local.unsynced);
            assert(action_views(actions@) =~= Seq::<ActionView>::empty());
            assert(action_views(actions@) + self@.flush_up_to(limit).actions
                =~= self@.flush_up_to(limit).actions);
        }
        loop
            invariant_except_break
                self@.wf(),
                idle_count(self@.local.unsynced) <= limit,
                self.next_task_id + limit <= u64::MAX,
                old(self)@.flush().state == self@.flush_up_to(limit).state,
                old(self)@.flush().actions == action_views(actions@) + self@.flush_up_to(limit).actions,
            ensures
                self@.wf(),
                old(self)@.flush().state == self@,
                old(self)@.flush().actions == action_views(actions@),
                !self@.buffer_tracker.spec_need_more_flush() || !self@.local.has_flushable(),
            decreases limit,
        {
            if !self.buffer_tracker.need_more_flush() {
                proof {
                    assert(action_views(actions@) + Seq::<ActionView>::empty() =~= action_views(
                        actions@,
                    ));
                }
                break ;
            }
            let ghost before = self@;
            let ghost done = action_views(actions@);
            let task = self.next_task_id;
            match self.local_version.flush_shared_buffer(task) {
                Some((epoch, imm)) => {
                    proof {
                        let index = choose|index: int|
                            {
                                &&& before.local.is_next_flush(index)
                                &&& self@.local == before.local.start_flush(index, task)
                                &&& imm == before.local.unsynced[index].imm
                            };
                        lemma_next_flush(before.local, index, before.next_flush(), task);
                        lemma_uploading_bounds(self@.local);
                        assert(limit > 0) by {
                            assert(idle_count(self@.local.unsynced) + 1 == idle_count(
                                before.local.unsynced,
                            ));
                        }
                    }
                    self.buffer_tracker.global_upload_task_size =
                        self.buffer_tracker.global_upload_task_size + imm.size();
                    let mut tasks: Vec<TaskId> = Vec::new();
                    tasks.push(task);
                    self.upload_handle_manager.add_epoch_handle(epoch, tasks);
                    self.next_task_id = task + 1;
                    let action = HandlerAction::SpawnFlushTask { task_id: task, epoch, payload: imm };
                    actions.push(action);
                    proof {
                        assert(attached(epoch, seq![task]) =~= seq![UploadHandle { epoch, task_id: task }]);
                        assert(self@.handles =~= before.handles.push(
                            UploadHandle { epoch, task_id: task },
                        ));
                        assert(self@ == before.spawn_flush().state);
                        assert(action_views(actions@) =~= done + before.spawn_flush().actions);
                        let rest = self@.flush_up_to((limit - 1) as nat);
                        assert(before.flush_up_to(limit).actions == before.spawn_flush().actions
                            + rest.actions);
                        assert(done + (before.spawn_flush().actions + rest.actions) =~= (done
                            + before.spawn_flush().actions) + rest.actions);
                        limit = (limit - 1) as nat;
                    }
                },
                None => {
                    proof {
                        assert(action_views(actions@) + Seq::<ActionView>::empty() =~= action_views(
                            actions@,
                        ));
                    }
                    break ;
                },
            }
        }
        actions
    }

    /// Starts the sync of `epoch` as a new upload task, attached to `epoch`.
    pub fn spawn_sync_task(&mut self, epoch: HummockEpoch) -> (action: HandlerAction)
        requires
            old(self)@.wf(),
            old(self)@.can_spawn_sync(epoch),
        ensures
            final(self)@ == old(self)@.spawn_sync(epoch).state,
            seq![action@] == old(self)@.spawn_sync(epoch).actions,
            final(self)@.wf(),
    {
        proof {
            lemma_start_sync_bytes(self@.local, epoch, self.next_task_id);
            lemma_uploading_bounds(self@.local.start_sync(epoch, self.next_task_id));
        }
        let task = self.next_task_id;
        let pinned_version = self.local_version.pinned_version().share();
        let (payload, sync_size) = self.local_version.start_syncing(epoch, task);
        self.buffer_tracker.global_upload_task_size = self.buffer_tracker.global_upload_task_size
            + sync_size;
        let mut tasks: Vec<TaskId> = Vec::new();
        tasks.push(task);
        self.upload_handle_manager.add_epoch_handle(epoch, tasks);
        self.next_task_id = task + 1;
        proof {
            assert(attached(epoch, seq![task]) =~= seq![UploadHandle { epoch, task_id: task }]);
            assert(self@.handles =~= old(self)@.handles.push(UploadHandle { epoch, task_id: task }));
        }
        HandlerAction::SpawnSyncTask { task_id: task, epoch, payload, pinned_version, sync_size }
    }

    /// Goes on after the last upload attached to `epoch` has ended.
    pub fn handle_epoch_finished(&mut self, epoch: HummockEpoch) -> (actions: Vec<HandlerAction>)
        requires
            old(self)@.wf(),
            old(self)@.can_finish_epoch(epoch),
        ensures
            final(self)@ == old(self)@.epoch_finished(epoch).state,
            action_views(actions@) == old(self)@.epoch_finished(epoch).actions,
            final(self)@.wf(),
    {
        let mut actions: Vec<HandlerAction> = Vec::new();
        if epoch > self.local_version.get_max_sync_epoch() {
            assert(action_views(actions@) =~= Seq::<ActionView>::empty());
            return actions;
        }
        let found = self.local_version.record_index(epoch);
        let index = found.unwrap();
        assert(self@.local.syncing[index as int] == self.local_version.syncing@[index as int]@);
        let action = match self.local_version.syncing[index].stage {
            SyncStage::Sealed => self.spawn_sync_task(epoch),
            SyncStage::Syncing(_) => {
                assert(false);
                return actions;
            },
            SyncStage::Failed => self.send_sync_result(epoch, Err(HummockError::SyncTaskFailed)),
            SyncStage::Synced => {
                let (uncommitted_ssts, sync_size) = self.local_version.sync_result(index);
                self.send_sync_result(epoch, Ok(SyncResult { sync_size, uncommitted_ssts }))
            },
        };
        actions.push(action);
        assert(action_views(actions@) =~= seq![action@]);
        actions
    }

    /// Puts down the sync request of `sender` for `epoch`, in place of the
    /// request that was pending for the epoch, if there was one.
    pub fn insert_pending(
        &mut self,
        epoch: HummockEpoch,
        sender: SenderId,
    ) -> (overwritten: Option<HandlerAction>)
        requires
            old(self)@.wf(),
        ensures
            final(self)@ == old(self)@.insert_pending(epoch, sender).state,
            match overwritten {
                Some(action) => seq![action@] == old(self)@.insert_pending(epoch, sender).actions,
                None => old(self)@.insert_pending(epoch, sender).actions == Seq::<ActionView>::empty(),
            },
            final(self)@.wf(),
            has_pending(final(self)@.pending, epoch),
            final(self)@.pending[pending_position(final(self)@.pending, epoch)] == (PendingSync {
                epoch,
                sender,
            }),
            overwritten is Some <==> has_pending(old(self)@.pending, epoch),
    {
        let ghost before = self@.pending;
        match self.pending_index(epoch) {
            Some(index) => {
                let old_sender = self.pending_sync_requests[index].sender;
                self.pending_sync_requests.set(index, PendingSync { epoch, sender });
                proof {
                    assert forall|i: int, j: int| 0 <= i < j < self@.pending.len() implies (
                    #[trigger] self@.pending[i]).epoch != (#[trigger] self@.pending[j]).epoch by {
                        assert(before[i].epoch != before[j].epoch);
                    }
                    assert(self@.pending[index as int].epoch == epoch);
                    lemma_pending_position(self@.pending, index as int);
                }
                Some(
                    HandlerAction::SendSyncResult {
                        sender: old_sender,
                        result: Err(HummockError::SyncOverwritten),
                    },
                )
            },
            None => {
                self.pending_sync_requests.push(PendingSync { epoch, sender });
                proof {
                    assert forall|i: int, j: int| 0 <= i < j < self@.pending.len() implies (
                    #[trigger] self@.pending[i]).epoch != (#[trigger] self@.pending[j]).epoch by {
                        if j < before.len() {
                            assert(before[i].epoch != before[j].epoch);
                        } else {
                            assert(before[i].epoch != epoch);
                        }
                    }
                    assert(self@.pending[before.len() as int].epoch == epoch);
                    lemma_pending_position(self@.pending, before.len() as int);
                }
                None
            },
        }
    }

    /// Handles a sync request for `epoch`, whose result goes to `sender`.
    pub fn handle_sync_epoch(
        &mut self,
        new_sync_epoch: HummockEpoch,
        sync_result_sender: SenderId,
    ) -> (actions: Vec<HandlerAction>)
        requires
            old(self)@.wf(),
            old(self)@.can_sync_epoch(new_sync_epoch),
        ensures
            final(self)@ == old(self)@.sync_epoch(new_sync_epoch, sync_result_sender).state,
            action_views(actions@) == old(self)@.sync_epoch(new_sync_epoch, sync_result_sender).actions,
            final(self)@.wf(),
            // A request that was pending for the epoch is told first that
            // it was overwritten.
            has_pending(old(self)@.pending, new_sync_epoch) ==> actions@.len() > 0 && actions@[0]@ == (
            ActionView::SendSyncResult {
                sender: old(self)@.pending[pending_position(old(self)@.pending, new_sync_epoch)].sender,
                result: Err(HummockError::SyncOverwritten),
            }),
            // A request that is not stale takes the place for its epoch and
            // gets nothing yet; nobody else is sent a sync result.
            new_sync_epoch > old(self)@.pinned_version.max_committed_epoch ==> {
                &&& has_pending(final(self)@.pending, new_sync_epoch)
                &&& final(self)@.pending[pending_position(final(self)@.pending, new_sync_epoch)].sender
                    == sync_result_sender
                &&& forall|i: int|
                    0 <= i < actions@.len() && (#[trigger] actions@[i]@ is SendSyncResult) ==> i == 0
                        && has_pending(old(self)@.pending, new_sync_epoch)
            },
            // A stale request is answered at once, and is pending no longer.
            new_sync_epoch <= old(self)@.pinned_version.max_committed_epoch ==> {
                &&& !has_pending(final(self)@.pending, new_sync_epoch)
                &&& actions@.len() > 0
                &&& actions@[actions@.len() - 1]@ == (ActionView::SendSyncResult {
                    sender: sync_result_sender,
                    result: Err(HummockError::SyncStale),
                })
            },
    {
        let mut actions: Vec<HandlerAction> = Vec::new();
        assert(action_views(actions@) =~= Seq::<ActionView>::empty());
        match self.insert_pending(new_sync_epoch, sync_result_sender) {
            Some(action) => {
                actions.push(action);
                assert(action_views(actions@) =~= seq![action@]);
            },
            None => {},
        }
        let ghost registered = action_views(actions@);
        let ghost waiting = self@.pending;
        proof {
            if registered.len() > 0 {
                assert(registered[0] == actions@[0]@);
            }
        }
        let prev_max_sync_epoch = match self.local_version.get_prev_max_sync_epoch(new_sync_epoch) {
            Some(epoch) => epoch,
            None => {
                let action = self.send_sync_result(new_sync_epoch, Err(HummockError::SyncStale));
                actions.push(action);
                proof {
                    assert(action_views(actions@) =~= registered + seq![action@]);
                    assert(action_views(actions@)[0] == actions@[0]@);
                    assert(action_views(actions@)[actions@.len() - 1] == action@);
                    let position = pending_position(waiting, new_sync_epoch);
                    assert forall|i: int| 0 <= i < self@.pending.len() implies (#[trigger] self@.pending[i]).epoch
                        != new_sync_epoch by {
                        if i < position {
                            assert(waiting[i].epoch != waiting[position].epoch);
                        } else {
                            assert(waiting[position].epoch != waiting[i + 1].epoch);
                        }
                    }
                }
                return actions;
            },
        };
        if new_sync_epoch > self.local_version.get_max_sync_epoch()
            && self.local_version.record_index(new_sync_epoch).is_none() {
            // The epoch was not sealed: the request seals it.
            proof {
                lemma_seal_bytes(self@.local, new_sync_epoch, true);
            }
            self.handle_seal_epoch(new_sync_epoch, true);
        }
        let range = EpochRange { after: Some(prev_max_sync_epoch), up_to: new_sync_epoch };
        let flush_join_handles = self.upload_handle_manager.drain_epoch_handle(range);
        if flush_join_handles.len() == 0 {
            // no pending flush to wait. Start syncing
            let action = self.spawn_sync_task(new_sync_epoch);
            actions.push(action);
            assert(action_views(actions@) =~= registered + seq![action@]);
            assert(action_views(actions@)[actions@.len() - 1] == action@);
        } else {
            // some pending flush task. waiting for flush to finish.
            // Note: the flush join handle of some previous epoch is now attached to
            // the new sync epoch
            self.upload_handle_manager.add_epoch_handle(new_sync_epoch, flush_join_handles);
        }
        proof {
            assert(self@.pending == waiting);
            if actions@.len() > 0 {
                assert(action_views(actions@)[0] == actions@[0]@);
            }
        }
        actions
    }

    /// Takes note of the outcome of the upload `task`: the files `produced`,
    /// or none if it failed.
    pub fn record_upload_outcome(&mut self, task: TaskId, produced: Option<Vec<LocalSstableInfo>>)
        requires
            old(self)@.wf(),
        ensures
            final(self)@ == old(self)@.upload_settled(task, produced_view(produced)),
            final(self)@.wf(),
    {
        proof {
            lemma_settle_bytes(self@.local, task, produced_view(produced));
        }
        let bytes = self.local_version.finish_upload(task, produced);
        self.buffer_tracker.global_upload_task_size = self.buffer_tracker.global_upload_task_size
            - bytes.carried;
        self.buffer_tracker.global_buffer.release(bytes.released as u64);
    }

    /// Handles the end of the upload `task`, with the files `produced` or,
    /// if it failed, with none.
    pub fn handle_upload_finished(
        &mut self,
        task: TaskId,
        produced: Option<Vec<LocalSstableInfo>>,
    ) -> (actions: Vec<HandlerAction>)
        requires
            old(self)@.wf(),
            old(self)@.can_finish_upload(task, produced_view(produced)),
        ensures
            final(self)@ == old(self)@.upload_finished(task, produced_view(produced)).state,
            action_views(actions@) == old(self)@.upload_finished(task, produced_view(produced)).actions,
            final(self)@.wf(),
    {
        self.record_upload_outcome(task, produced);
        match self.upload_handle_manager.finish_handle(task) {
            Some(epoch) => self.handle_epoch_finished(epoch),
            None => {
                let actions: Vec<HandlerAction> = Vec::new();
                assert(action_views(actions@) =~= Seq::<ActionView>::empty());
                actions
            },
        }
    }

    /// Clears the shared buffer and resets all states.
    pub fn handle_clear(&mut self, notifier: SenderId) -> (actions: Vec<HandlerAction>)
        requires
            old(self)@.wf(),
        ensures
            final(self)@ == old(self)@.clear(notifier).state,
            action_views(actions@) == old(self)@.clear(notifier).actions,
            final(self)@.wf(),
            final(self)@.buffer_tracker.global_buffer.usage == old(self)@.reserved_bytes(),
    {
        proof {
            lemma_drain_all(self@.handles);
            lemma_clear_bytes(self@.local);
        }
        // Wait for all ongoing flush to finish.
        let ongoing_flush_handles = self.upload_handle_manager.drain_epoch_handle(EpochRange::all());
        let mut actions: Vec<HandlerAction> = Vec::new();
        actions.push(HandlerAction::AwaitUploads { tasks: ongoing_flush_handles });
        let ghost first = action_views(actions@);
        proof {
            assert(first =~= seq![ActionView::AwaitUploads { tasks: tasks_of(old(self)@.handles) }]);
            assert(self@.pending.skip(0) =~= self@.pending);
            assert(HandlerView::cleared_replies(self@.pending.take(0)) =~= Seq::<ActionView>::empty());
            assert(first + Seq::<ActionView>::empty() =~= first);
        }

        // There cannot be any pending write requests since we should only clear
        // shared buffer after all actors stop processing data.
        let pending_epochs = pending_epochs(&self.pending_sync_requests);
        let ghost pending = self@.pending;
        let mut i: usize = 0;
        while i < pending_epochs.len()
            invariant
                i <= pending_epochs.len(),
                pending_epochs@ == pending.map_values(|request: PendingSync| request.epoch),
                pending == old(self)@.pending,
                self@.wf(),
                self@ == (HandlerView {
                    pending: pending.skip(i as int),
                    handles: Seq::empty(),
                    ..old(self)@
                }),
                action_views(actions@) == first + HandlerView::cleared_replies(pending.take(i as int)),
            decreases pending_epochs.len() - i,
        {
            let ghost done = action_views(actions@);
            proof {
                assert(self@.pending[0] == pending[i as int]);
                lemma_pending_position(self@.pending, 0);
            }
            let action = self.send_sync_result(pending_epochs[i], Err(HummockError::SyncCleared));
            actions.push(action);
            proof {
                assert(self@.pending =~= pending.skip(i + 1));
                assert(action_views(actions@) =~= done + seq![action@]);
                assert(HandlerView::cleared_replies(pending.take(i + 1)) =~= HandlerView::cleared_replies(
                    pending.take(i as int),
                ) + seq![action@]);
                assert(first + (HandlerView::cleared_replies(pending.take(i as int)) + seq![action@])
                    =~= (first + HandlerView::cleared_replies(pending.take(i as int))) + seq![action@]);
            }
            i = i + 1;
        }
        proof {
            assert(pending.take(pending.len() as int) =~= pending);
            assert(pending.skip(pending.len() as int) =~= Seq::<PendingSync>::empty());
        }
        let ghost replied = action_views(actions@);

        // Clear shared buffer
        let released = self.local_version.buffer_size();
        self.local_version.clear_shared_buffer();
        self.buffer_tracker.global_buffer.release(released as u64);
        self.buffer_tracker.global_upload_task_size = 0;
        actions.push(HandlerAction::RemoveWatermarkSstId { epoch: u64::MAX });

        // Notify completion of the Clear event.
        actions.push(HandlerAction::NotifyCleared { notifier });
        proof {
            assert(action_views(actions@) =~= replied + seq![
                ActionView::RemoveWatermarkSstId { epoch: u64::MAX },
                ActionView::NotifyCleared { notifier },
            ]);
        }
        actions
    }

    /// Applies a version update of the metadata service.
    pub fn handle_version_update(
        &mut self,
        version_payload: Payload,
    ) -> (actions: Vec<HandlerAction>)
        requires
            old(self)@.wf(),
            check_payload(old(self)@.pinned_version, version_payload) == PayloadCheck::Applies,
        ensures
            final(self)@ == old(self)@.version_update(version_payload).state,
            action_views(actions@) == old(self)@.version_update(version_payload).actions,
            final(self)@.wf(),
            // The pinned version is replaced by a newer one, and no committed
            // epoch that anybody can observe goes back.
            final(self)@.pinned_version.id > old(self)@.pinned_version.id,
            final(self)@.pinned_version.max_committed_epoch
                >= old(self)@.pinned_version.max_committed_epoch,
            final(self)@.notified_epoch == if final(self)@.pinned_version.max_committed_epoch
                > old(self)@.notified_epoch {
                final(self)@.pinned_version.max_committed_epoch
            } else {
                old(self)@.notified_epoch
            },
            final(self)@.readers.len() == old(self)@.readers.len(),
            forall|i: int|
                0 <= i < final(self)@.readers.len() ==> (#[trigger] final(self)@.readers[i]).read_version.committed.max_committed_epoch
                    >= old(self)@.readers[i].read_version.committed.max_committed_epoch,
    {
        let prev_max_committed_epoch = self.pinned_version.max_committed_epoch();
        let (_, newly_pinned_version) = self.pinned_version.resolve(&version_payload);
        self.pinned_version = self.pinned_version.new_pin_version(newly_pinned_version);
        let pinned = self.pinned_version.share();
        let ghost version = pinned@;
        let ghost before = old(self)@.readers;
        let mut mapping: Vec<ReadVersionEntry> = Vec::new();
        std::mem::swap(&mut mapping, &mut self.read_version_mapping);
        let mut updated: Vec<ReadVersionEntry> = Vec::new();
        let ghost mut done: int = 0;
        proof {
            assert(before.skip(0) =~= before);
            assert(reader_views(updated@) =~= HandlerView::readers_committed(before.take(0), version));
        }
        while mapping.len() > 0
            invariant
                0 <= done <= before.len(),
                version == pinned@,
                forall|i: int| 0 <= i < before.len() ==> (#[trigger] before[i]).read_version.wf(),
                reader_views(mapping@) == before.skip(done),
                reader_views(updated@) == HandlerView::readers_committed(before.take(done), version),
            decreases mapping.len(),
        {
            let ghost rest = mapping@;
            let ghost finished = reader_views(updated@);
            let mut entry = mapping.remove(0);
            proof {
                assert(reader_views(rest).len() == rest.len());
                assert(before.skip(done).len() == before.len() - done);
                assert(before.skip(done)[0] == before[done]);
                assert(reader_views(rest)[0] == rest[0]@);
                assert(entry@ == before[done]);
                assert(mapping@ =~= rest.remove(0));
                assert forall|j: int| 0 <= j < mapping@.len() implies #[trigger] reader_views(mapping@)[j]
                    == before.skip(done + 1)[j] by {
                    assert(mapping@[j] == rest[j + 1]);
                    assert(reader_views(rest)[j + 1] == rest[j + 1]@);
                    assert(before.skip(done)[j + 1] == before[done + j + 1]);
                }
                assert(reader_views(mapping@) =~= before.skip(done + 1));
            }
            entry.read_version.update(VersionUpdate::CommittedSnapshot(pinned.share()));
            updated.push(entry);
            proof {
                assert(reader_views(updated@) =~= finished.push(entry@));
                assert(before.take(done + 1) =~= before.take(done).push(before[done]));
                assert(HandlerView::readers_committed(before.take(done + 1), version)
                    =~= HandlerView::readers_committed(before.take(done), version).push(entry@));
                done = done + 1;
            }
        }
        proof {
            assert(before.take(done) =~= before);
        }
        self.read_version_mapping = updated;

        let max_committed_epoch = self.pinned_version.max_committed_epoch();
        let mut actions: Vec<HandlerAction> = Vec::new();
        let grown = max_committed_epoch > prev_max_committed_epoch;

        // only notify local_version_manager when MCE change
        if grown {
            self.version_update_notifier_tx = max_committed_epoch;
            actions.push(HandlerAction::NotifyVersionUpdate { max_committed_epoch });
        }
        let ghost notified = action_views(actions@);
        assert(notified =~= if grown {
            seq![ActionView::NotifyVersionUpdate { max_committed_epoch }]
        } else {
            Seq::empty()
        });
        if self.write_conflict_detection_enabled {
            actions.push(HandlerAction::SetConflictWatermark { epoch: max_committed_epoch });
        }
        let ghost watermarked = action_views(actions@);
        assert(watermarked =~= notified + (if self.write_conflict_detection_enabled {
            seq![ActionView::SetConflictWatermark { epoch: max_committed_epoch }]
        } else {
            Seq::empty()
        }));
        actions.push(HandlerAction::RemoveWatermarkSstId { epoch: max_committed_epoch });
        proof {
            assert(action_views(actions@) =~= watermarked + seq![
                ActionView::RemoveWatermarkSstId { epoch: max_committed_epoch },
            ]);
        }

        // this is only for clear the committed data in local version
        if grown {
            proof {
                lemma_commit_bytes(old(self)@.local, version);
                lemma_uploading_bounds(old(self)@.local);
                lemma_uploading_bounds(old(self)@.local.commit(version));
            }
            let bytes = self.local_version.apply_committed(self.pinned_version.share());
            self.buffer_tracker.global_upload_task_size = self.buffer_tracker.global_upload_task_size
                - bytes.carried;
            self.buffer_tracker.global_buffer.release(bytes.released as u64);
        } else {
            self.local_version.pinned_version = self.pinned_version.share();
        }
        proof {
            let after = self@.readers;
            assert forall|i: int, j: int| 0 <= i < j < after.len() implies !((#[trigger] after[i]).table_id == (
            #[trigger] after[j]).table_id && after[i].instance_id == after[j].instance_id) by {
                assert(!(before[i].table_id == before[j].table_id && before[i].instance_id
                    == before[j].instance_id));
            }
            assert forall|i: int| 0 <= i < after.len() implies {
                &&& (#[trigger] after[i]).read_version.wf()
                &&& after[i].read_version.committed == self@.pinned_version
            } by {
                assert(before[i].read_version.wf());
                crate::read_version::lemma_commit_wf(before[i].read_version, version);
            }
        }
        actions
    }

    /// What keeps the sync of `epoch` from starting, if anything.
    pub fn check_spawn_sync(&self, epoch: HummockEpoch) -> (fault: Option<HandlerFault>)
        requires
            self@.wf(),
        ensures
            fault == self@.spawn_sync_fault(epoch),
            fault is None <==> self@.can_spawn_sync(epoch),
    {
        if self.next_task_id == u64::MAX {
            return Some(HandlerFault::TaskIdsExhausted);
        }
        match self.local_version.stage(epoch) {
            Some(SyncStage::Sealed) => None,
            Some(_) => Some(HandlerFault::SyncNotSealed),
            None => Some(HandlerFault::SyncRecordMissing),
        }
    }

    /// What keeps the handler from going on after the uploads of `epoch`
    /// have ended, if anything.
    pub fn check_finish_epoch(&self, epoch: HummockEpoch) -> (fault: Option<HandlerFault>)
        requires
            self@.wf(),
        ensures
            fault == self@.finish_epoch_fault(epoch),
            fault is None <==> self@.can_finish_epoch(epoch),
    {
        if epoch > self.local_version.get_max_sync_epoch() {
            return None;
        }
        match self.local_version.stage(epoch) {
            None => Some(HandlerFault::SyncRecordMissing),
            Some(SyncStage::Sealed) => if self.next_task_id == u64::MAX {
                Some(HandlerFault::TaskIdsExhausted)
            } else {
                None
            },
            Some(SyncStage::Syncing(_)) => Some(HandlerFault::SyncStillRunning),
            Some(_) => if self.pending_index(epoch).is_some() {
                None
            } else {
                Some(HandlerFault::NoPendingSyncRequest)
            },
        }
    }

    /// What keeps a sync request for `epoch` from being handled, if
    /// anything.
    pub fn check_sync_epoch(&self, epoch: HummockEpoch) -> (fault: Option<HandlerFault>)
        requires
            self@.wf(),
        ensures
            fault == self@.sync_epoch_fault(epoch),
            fault is None <==> self@.can_sync_epoch(epoch),
    {
        match self.local_version.get_prev_max_sync_epoch(epoch) {
            None => None,
            Some(prev) => {
                let range = EpochRange { after: Some(prev), up_to: epoch };
                if self.upload_handle_manager.has_handle_in(range) {
                    None
                } else if self.next_task_id == u64::MAX {
                    Some(HandlerFault::TaskIdsExhausted)
                } else {
                    proof {
                        if epoch > self@.local.max_sync_epoch {
                            lemma_seal_bytes(self@.local, epoch, true);
                        }
                    }
                    match self.local_version.stage(epoch) {
                        Some(SyncStage::Sealed) => None,
                        Some(_) => Some(HandlerFault::SyncNotSealed),
                        None => if epoch > self.local_version.get_max_sync_epoch() {
                            None
                        } else {
                            Some(HandlerFault::SyncRecordMissing)
                        },
                    }
                }
            },
        }
    }

    /// What keeps `event` from being handled, if anything.
    pub fn check_event(&self, event: &HummockEvent) -> (fault: Option<HandlerFault>)
        requires
            self@.wf(),
        ensures
            fault == self@.event_fault(*event),
    {
        match event {
            HummockEvent::BufferMayFlush => if self.local_version.unsynced.len() as u64 <= u64::MAX
                - self.next_task_id {
                None
            } else {
                Some(HandlerFault::TaskIdsExhausted)
            },
            HummockEvent::SyncEpoch { new_sync_epoch, sync_result_sender } => self.check_sync_epoch(
                *new_sync_epoch,
            ),
            HummockEvent::Clear(_) => None,
            HummockEvent::Shutdown => None,
            HummockEvent::VersionUpdate(payload) => match self.pinned_version.resolve(payload).0 {
                PayloadCheck::Applies => None,
                PayloadCheck::DeltaMismatch => Some(
                    HandlerFault::Storage(HummockError::VersionDeltaMismatch),
                ),
                PayloadCheck::KeyRangeMissing => Some(HandlerFault::Storage(HummockError::KeyRangeInvalid)),
            },
            HummockEvent::ImmToUploader(imm) => {
                let buffered = self.local_version.buffer_size();
                if imm.size() as u64 <= self.buffer_tracker.global_buffer.get_memory_usage()
                    - buffered as u64 {
                    None
                } else {
                    Some(HandlerFault::MemoryNotReserved)
                }
            },
            HummockEvent::SealEpoch { epoch, is_checkpoint } => if *epoch
                <= self.local_version.get_max_sync_epoch() {
                Some(HandlerFault::SealEpochNotAdvancing)
            } else {
                None
            },
            HummockEvent::RegisterHummockInstance { table_id, instance_id, sync_result_sender } => None,
            HummockEvent::DestroyHummockInstance { table_id, instance_id } => if self.reader_index(
                *table_id,
                *instance_id,
            ).is_some() {
                None
            } else {
                Some(HandlerFault::InstanceNotRegistered)
            },
        }
    }

    /// Handles one event. Where something keeps the event from being
    /// handled, nothing changes and the fault is returned.
    pub fn handle_event(
        &mut self,
        event: HummockEvent,
    ) -> (handled: Result<HandlerOutput, HandlerFault>)
        requires
            old(self)@.wf(),
        ensures
            final(self)@.wf(),
            match handled {
                Ok(output) => {
                    &&& old(self)@.event_fault(event) is None
                    &&& final(self)@ == old(self)@.handle_event(event).state
                    &&& action_views(output.actions@) == old(self)@.handle_event(event).actions
                    &&& output.shutdown == (event is Shutdown)
                },
                Err(fault) => old(self)@.event_fault(event) == Some(fault) && final(self)@ == old(self)@,
            },
    {
        match self.check_event(&event) {
            Some(fault) => {
                return Err(fault);
            },
            None => {},
        }
        let mut shutdown = false;
        let actions = match event {
            HummockEvent::BufferMayFlush => {
                // Only check and flush shared buffer after batch has been added to shared
                // buffer.
                self.try_flush_shared_buffer()
            },
            HummockEvent::SyncEpoch { new_sync_epoch, sync_result_sender } => self.handle_sync_epoch(
                new_sync_epoch,
                sync_result_sender,
            ),
            HummockEvent::Clear(notifier) => self.handle_clear(notifier),
            HummockEvent::Shutdown => {
                shutdown = true;
                let actions: Vec<HandlerAction> = Vec::new();
                assert(action_views(actions@) =~= Seq::<ActionView>::empty());
                actions
            },
            HummockEvent::VersionUpdate(version_payload) => self.handle_version_update(version_payload),
            HummockEvent::ImmToUploader(imm) => {
                self.handle_imm_to_uploader(imm);
                let actions: Vec<HandlerAction> = Vec::new();
                assert(action_views(actions@) =~= Seq::<ActionView>::empty());
                actions
            },
            HummockEvent::SealEpoch { epoch, is_checkpoint } => {
                self.handle_seal_epoch(epoch, is_checkpoint);
                let actions: Vec<HandlerAction> = Vec::new();
                assert(action_views(actions@) =~= Seq::<ActionView>::empty());
                actions
            },
            HummockEvent::RegisterHummockInstance { table_id, instance_id, sync_result_sender } => {
                let action = self.handle_register_instance(table_id, instance_id, sync_result_sender);
                let mut actions: Vec<HandlerAction> = Vec::new();
                actions.push(action);
                assert(action_views(actions@) =~= seq![action@]);
                actions
            },
            HummockEvent::DestroyHummockInstance { table_id, instance_id } => {
                self.handle_destroy_instance(table_id, instance_id);
                let actions: Vec<HandlerAction> = Vec::new();
                assert(action_views(actions@) =~= Seq::<ActionView>::empty());
                actions
            },
        };
        Ok(HandlerOutput { actions, shutdown })
    }

    /// Handles one input of the event loop: the end of an upload, an event,
    /// or the end of the channel.
    pub fn step(&mut self, input: HandlerInput) -> (handled: Result<HandlerOutput, HandlerFault>)
        requires
            old(self)@.wf(),
        ensures
            final(self)@.wf(),
            final(self)@ == old(self)@.step(input).state,
            match handled {
                Ok(output) => {
                    &&& old(self)@.input_fault(input) is None
                    &&& action_views(output.actions@) == old(self)@.step(input).actions
                    &&& output.shutdown == HandlerView::ends_with(input)
                },
                Err(fault) => old(self)@.input_fault(input) == Some(fault),
            },
    {
        match input {
            HandlerInput::UploadFinished { task_id, produced } => {
                self.record_upload_outcome(task_id, produced);
                match self.upload_handle_manager.finish_handle(task_id) {
                    Some(epoch) => match self.check_finish_epoch(epoch) {
                        Some(fault) => Err(fault),
                        None => Ok(
                            HandlerOutput { actions: self.handle_epoch_finished(epoch), shutdown: false },
                        ),
                    },
                    None => {
                        let actions: Vec<HandlerAction> = Vec::new();
                        assert(action_views(actions@) =~= Seq::<ActionView>::empty());
                        Ok(HandlerOutput { actions, shutdown: false })
                    },
                }
            },
            HandlerInput::Event(event) => self.handle_event(event),
            HandlerInput::ChannelClosed => {
                let actions: Vec<HandlerAction> = Vec::new();
                assert(action_views(actions@) =~= Seq::<ActionView>::empty());
                Ok(HandlerOutput { actions, shutdown: true })
            },
        }
    }

    /// The first half of a write for the instance `instance_id` of the table
    /// of `write_options`: the batch becomes a memtable whose bytes are
    /// reserved and which is staged for the instance. The memtable is
    /// returned; it has to arrive at the handler next. An epoch that is not
    /// above the largest sync epoch and the committed epoch is sealed
    /// already: the write fails as stale. Where the limiter cannot grant the bytes, the write fails as
    /// out of capacity. A failed write changes nothing.
    pub fn stage_batch(
        &mut self,
        instance_id: InstanceId,
        kv_pairs: Vec<(Vec<u8>, HummockValue)>,
        write_options: WriteOptions,
    ) -> (written: Result<Arc<ImmutableMemtable>, HummockError>)
        requires
            old(self)@.wf(),
            has_reader(old(self)@.readers, write_options.table_id, instance_id),
        ensures
            final(self)@.wf(),
            match written {
                Ok(imm) => {
                    let position = reader_position(
                        old(self)@.readers,
                        write_options.table_id,
                        instance_id,
                    );
                    let staged = final(self)@.readers[position].read_version;
                    &&& !old(self)@.write_is_stale(write_options.epoch)
                    &&& imm@ == batch_map(kv_pairs@)
                    &&& imm.spec_epoch() == write_options.epoch
                    &&& imm.spec_table_id() == write_options.table_id
                    &&& old(self)@.readers[position].read_version.updated(
                        VersionUpdate::Staging(StagingData::ImmMem(imm)),
                        staged,
                    )
                    &&& final(self)@ == old(self)@.staged(position, imm, staged)
                    &&& final(self)@.reserved_bytes() == old(self)@.reserved_bytes() + imm.spec_size()
                },
                Err(error) => {
                    &&& final(self)@ == old(self)@
                    &&& if old(self)@.write_is_stale(write_options.epoch) {
                        error == HummockError::SyncStale
                    } else {
                        &&& error == HummockError::OutOfCapacity
                        &&& batch_exceeds(
                            kv_pairs@,
                            old(self)@.buffer_tracker.global_buffer.usage,
                            old(self)@.buffer_tracker.global_buffer.capacity,
                        )
                    }
                },
            },
    {
        if write_options.epoch <= self.local_version.get_max_sync_epoch() || write_options.epoch
            <= self.pinned_version.max_committed_epoch() {
            return Err(HummockError::SyncStale);
        }
        let ghost before = self@.readers;
        let found = self.reader_index(write_options.table_id, instance_id);
        let index = found.unwrap();
        let mut entry = self.read_version_mapping.remove(index);
        proof {
            assert(entry@ == before[index as int]);
        }
        let written = ingest_batch(
            &mut entry.read_version,
            &mut self.buffer_tracker.global_buffer,
            kv_pairs,
            write_options,
        );
        let ghost staged = entry@;
        self.read_version_mapping.insert(index, entry);
        proof {
            assert(self@.readers =~= before.update(index as int, staged));
            if written is Err {
                assert(self@.readers =~= before);
            }
            assert forall|i: int, j: int| 0 <= i < j < self@.readers.len() implies !((
            #[trigger] self@.readers[i]).table_id == (#[trigger] self@.readers[j]).table_id
                && self@.readers[i].instance_id == self@.readers[j].instance_id) by {
                assert(!(before[i].table_id == before[j].table_id && before[i].instance_id
                    == before[j].instance_id));
            }
            assert forall|i: int| 0 <= i < self@.readers.len() implies {
                &&& (#[trigger] self@.readers[i]).read_version.wf()
                &&& self@.readers[i].read_version.committed == self@.pinned_version
                &&& self@.readers[i].read_version.staged_above_committed()
            } by {
                if i != index {
                    assert(self@.readers[i] == before[i]);
                } else {
                    assert(before[i].read_version.committed == self@.pinned_version);
                }
            }
        }
        written
    }

    /// Writes a batch for the instance `instance_id` of the table of
    /// `write_options`, at the epoch of `write_options`: the batch becomes a
    /// memtable that is reserved, staged for the instance and put into the
    /// shared buffer, which is then flushed as far as needed. The write
    /// fails where staging the batch fails, and then changes nothing.
    pub fn ingest_batch(
        &mut self,
        instance_id: InstanceId,
        kv_pairs: Vec<(Vec<u8>, HummockValue)>,
        write_options: WriteOptions,
    ) -> (written: Result<IngestOutput, HummockError>)
        requires
            old(self)@.wf(),
            has_reader(old(self)@.readers, write_options.table_id, instance_id),
        ensures
            final(self)@.wf(),
            match written {
                Ok(output) => {
                    let position = reader_position(
                        old(self)@.readers,
                        write_options.table_id,
                        instance_id,
                    );
                    let staged = final(self)@.readers[position].read_version;
                    &&& !old(self)@.write_is_stale(write_options.epoch)
                    &&& output.imm@ == batch_map(kv_pairs@)
                    &&& output.imm.spec_epoch() == write_options.epoch
                    &&& output.imm.spec_table_id() == write_options.table_id
                    &&& old(self)@.readers[position].read_version.updated(
                        VersionUpdate::Staging(StagingData::ImmMem(output.imm)),
                        staged,
                    )
                    &&& final(self)@ == old(self)@.ingested(
                        position,
                        output.imm,
                        staged,
                    ).flush_if_possible().state
                    &&& action_views(output.actions@) == old(self)@.ingested(
                        position,
                        output.imm,
                        staged,
                    ).flush_if_possible().actions
                    &&& final(self)@.reserved_bytes() == old(self)@.reserved_bytes()
                },
                Err(error) => {
                    &&& final(self)@ == old(self)@
                    &&& if old(self)@.write_is_stale(write_options.epoch) {
                        error == HummockError::SyncStale
                    } else {
                        &&& error == HummockError::OutOfCapacity
                        &&& batch_exceeds(
                            kv_pairs@,
                            old(self)@.buffer_tracker.global_buffer.usage,
                            old(self)@.buffer_tracker.global_buffer.capacity,
                        )
                    }
                },
            },
    {
        let ghost position = reader_position(self@.readers, write_options.table_id, instance_id);
        match self.stage_batch(instance_id, kv_pairs, write_options) {
            Ok(imm) => {
                let ghost staged = self@.readers[position].read_version;
                proof {
                    lemma_write_bytes(self@.local, imm);
                }
                self.handle_imm_to_uploader(share(&imm));
                proof {
                    assert(self@ == old(self)@.ingested(position, imm, staged));
                    lemma_flush_keeps(self@, self@.local.unsynced.len());
                    crate::invariants::lemma_flush_wf(self@, self@.local.unsynced.len());
                }
                let fits = self.local_version.unsynced.len() as u64 <= u64::MAX - self.next_task_id;
                let actions = if fits {
                    self.try_flush_shared_buffer()
                } else {
                    let actions: Vec<HandlerAction> = Vec::new();
                    assert(action_views(actions@) =~= Seq::<ActionView>::empty());
                    actions
                };
                Ok(IngestOutput { imm, actions })
            },
            Err(error) => Err(error),
        }
    }

    /// Takes one input of the event loop and appends what it asks for to
    /// `actions`. Returns whether the loop has to stop, and the fault if it
    /// was one.
    pub fn step_into(
        &mut self,
        input: HandlerInput,
        actions: &mut Vec<HandlerAction>,
    ) -> (stopped: (bool, Option<HandlerFault>))
        requires
            old(self)@.wf(),
        ensures
            final(self)@.wf(),
            final(self)@ == old(self)@.step(input).state,
            action_views(final(actions)@) == action_views(old(actions)@) + old(self)@.step(input).actions,
            stopped.1 == old(self)@.input_fault(input),
            stopped.0 == (HandlerView::ends_with(input) || old(self)@.input_fault(input) is Some),
    {
        match self.step(input) {
            Ok(output) => {
                let shutdown = output.shutdown;
                append_actions(actions, output.actions);
                (shutdown, None)
            },
            Err(cause) => {
                proof {
                    assert(action_views(actions@) + Seq::<ActionView>::empty() =~= action_views(
                        actions@,
                    ));
                }
                (true, Some(cause))
            },
        }
    }

    /// Runs the event loop over `inputs`: takes one after the other, until
    /// one of them ends the loop or cannot be handled, or none is left.
    #[verifier::rlimit(60)]
    pub fn start_hummock_event_handler_worker(self, inputs: Vec<HandlerInput>) -> (ended: WorkerRun)
        requires
            self@.wf(),
        ensures
            ended.handler@.wf(),
            ended.handled <= inputs@.len(),
            ended.handler@ == run(self@, inputs@.take(ended.handled as int)),
            action_views(ended.actions@) == run_actions(self@, inputs@.take(ended.handled as int)),
            ended.handled < inputs@.len() ==> run_stops(self@, inputs@.take(ended.handled as int)),
            forall|n: int| 0 < n < ended.handled ==> !run_stops(self@, #[trigger] inputs@.take(n)),
            ended.handled > 0 ==> ended.fault == run(
                self@,
                inputs@.take(ended.handled - 1),
            ).input_fault(inputs@[ended.handled - 1]),
            ended.handled == 0 ==> ended.fault is None,
    {
        let ghost start = self@;
        let ghost all = inputs@;
        let mut handler = self;
        let mut inputs = inputs;
        let total: usize = inputs.len();
        assert(all.len() == total);
        let mut actions: Vec<HandlerAction> = Vec::new();
        let mut handled: usize = 0;
        let mut fault: Option<HandlerFault> = None;
        let mut stopped = false;
        proof {
            assert(all.take(0) =~= Seq::<HandlerInput>::empty());
            assert(action_views(actions@) =~= Seq::<ActionView>::empty());
            assert(all.skip(0) =~= all);
        }
        while !stopped && inputs.len() > 0
            invariant
                handler@.wf(),
                handled <= all.len() <= usize::MAX,
                inputs@ == all.skip(handled as int),
                handler@ == run(start, all.take(handled as int)),
                action_views(actions@) == run_actions(start, all.take(handled as int)),
                handled > 0 ==> stopped == run_stops(start, all.take(handled as int)),
                handled == 0 ==> !stopped && fault is None,
                forall|n: int| 0 < n < handled ==> !run_stops(start, #[trigger] all.take(n)),
                handled > 0 ==> fault == run(start, all.take(handled - 1)).input_fault(
                    all[handled - 1],
                ),
            decreases inputs.len(),
        {
            proof {
                assert(all.skip(handled as int).len() == all.len() - handled);
            }
            let input = inputs.remove(0);
            proof {
                assert(input == all[handled as int]);
                assert(inputs@ =~= all.skip(handled + 1));
                assert(all.take(handled + 1).drop_last() =~= all.take(handled as int));
                assert(all.take(handled + 1).last() == input);
            }
            let (stop, cause) = handler.step_into(input, &mut actions);
            stopped = stop;
            fault = cause;
            handled = handled + 1;
        }
        proof {
            if handled == all.len() {
                assert(all.take(handled as int) =~= all);
            }
        }
        WorkerRun { handler, actions, handled, fault }
    }

    /// Reads `key` as of `epoch` for the instance `instance_id` of the table
    /// of `read_options`.
    pub fn get(
        &self,
        instance_id: InstanceId,
        key: &Vec<u8>,
        epoch: HummockEpoch,
        read_options: &ReadOptions,
    ) -> (value: Option<Vec<u8>>)
        requires
            self@.wf(),
            has_reader(self@.readers, read_options.table_id, instance_id),
        ensures
            match value {
                Some(bytes) => self@.readers[reader_position(
                    self@.readers,
                    read_options.table_id,
                    instance_id,
                )].read_version.get(read_options.table_id, key@, epoch) == Some(bytes@),
                None => self@.readers[reader_position(
                    self@.readers,
                    read_options.table_id,
                    instance_id,
                )].read_version.get(read_options.table_id, key@, epoch) is None,
            },
    {
        let found = self.reader_index(read_options.table_id, instance_id);
        let index = found.unwrap();
        assert(self@.readers[index as int] == self.read_version_mapping@[index as int]@);
        self.read_version_mapping[index].read_version.get(key, epoch, read_options)
    }

    /// Scans the keys of `range` as of `epoch` for the instance
    /// `instance_id` of the table of `read_options`.
    pub fn iter(
        &self,
        instance_id: InstanceId,
        range: &ScanRange,
        epoch: HummockEpoch,
        read_options: &ReadOptions,
    ) -> (pairs: Vec<(Vec<u8>, Vec<u8>)>)
        requires
            self@.wf(),
            has_reader(self@.readers, read_options.table_id, instance_id),
        ensures
            pairs_ascend(pairs@),
            forall|i: int|
                0 <= i < pairs@.len() ==> self@.readers[reader_position(
                    self@.readers,
                    read_options.table_id,
                    instance_id,
                )].read_version.scan_value((#[trigger] pairs@[i]).0@, *range, epoch, *read_options) == Some(
                    pairs@[i].1@,
                ),
            forall|key: Seq<u8>|
                self@.readers[reader_position(
                    self@.readers,
                    read_options.table_id,
                    instance_id,
                )].read_version.scan_value(key, *range, epoch, *read_options) is Some ==> pairs_hold(
                    pairs@,
                    key,
                ),
    {
        let found = self.reader_index(read_options.table_id, instance_id);
        let index = found.unwrap();
        assert(self@.readers[index as int] == self.read_version_mapping@[index as int]@);
        self.read_version_mapping[index].read_version.iter(range, epoch, read_options)
    }

    /// Puts a memtable into the shared buffer. Its bytes were reserved by
    /// whoever built it.
    pub fn handle_imm_to_uploader(&mut self, imm: Arc<ImmutableMemtable>)
        requires
            old(self)@.wf(),
            imm.spec_size() <= old(self)@.reserved_bytes(),
        ensures
            final(self)@ == old(self)@.imm_to_uploader(imm).state,
            final(self)@.wf(),
    {
        proof {
            lemma_write_bytes(self@.local, imm);
        }
        self.local_version.write_shared_buffer_batch(imm);
    }

    /// Seals `epoch`, which has to be above the largest sync epoch; with
    /// `is_checkpoint` the epoch becomes syncable.
    pub fn handle_seal_epoch(&mut self, epoch: HummockEpoch, is_checkpoint: bool)
        requires
            old(self)@.wf(),
            epoch > old(self)@.local.max_sync_epoch,
        ensures
            final(self)@ == old(self)@.seal(epoch, is_checkpoint).state,
            final(self)@.wf(),
    {
        self.local_version.seal_epoch(epoch, is_checkpoint);
        self.seal_epoch = epoch;
    }

    /// Registers a reader instance, which starts from the pinned version.
    pub fn handle_register_instance(
        &mut self,
        table_id: TableId,
        instance_id: InstanceId,
        sender: SenderId,
    ) -> (action: HandlerAction)
        requires
            old(self)@.wf(),
        ensures
            final(self)@ == old(self)@.register(table_id, instance_id, sender).state,
            seq![action@] == old(self)@.register(table_id, instance_id, sender).actions,
            final(self)@.wf(),
    {
        let entry = ReadVersionEntry {
            table_id,
            instance_id,
            read_version: HummockReadVersion::new(self.pinned_version.share()),
        };
        let ghost before = self@.readers;
        match self.reader_index(table_id, instance_id) {
            Some(index) => {
                self.read_version_mapping.set(index, entry);
                assert(self@.readers =~= before.update(index as int, entry@));
            },
            None => {
                self.read_version_mapping.push(entry);
                assert(self@.readers =~= before.push(entry@));
                assert forall|i: int, j: int| 0 <= i < j < self@.readers.len() implies !((
                #[trigger] self@.readers[i]).table_id == (#[trigger] self@.readers[j]).table_id
                    && self@.readers[i].instance_id == self@.readers[j].instance_id) by {
                    if j == before.len() {
                        assert(!is_reader_at(before, table_id, instance_id, i));
                    } else {
                        assert(!(before[i].table_id == before[j].table_id && before[i].instance_id
                            == before[j].instance_id));
                    }
                }
            },
        }
        proof {
            assert forall|i: int, j: int| 0 <= i < j < self@.readers.len() implies !((
            #[trigger] self@.readers[i]).table_id == (#[trigger] self@.readers[j]).table_id
                && self@.readers[i].instance_id == self@.readers[j].instance_id) by {
                if self@.readers.len() == before.len() {
                    assert(!(before[i].table_id == before[j].table_id && before[i].instance_id
                        == before[j].instance_id));
                }
            }
            assert forall|i: int| 0 <= i < self@.readers.len() implies {
                &&& (#[trigger] self@.readers[i]).read_version.wf()
                &&& self@.readers[i].read_version.committed == self@.pinned_version
                &&& self@.readers[i].read_version.staged_above_committed()
            } by {
                if self@.readers[i] != entry@ {
                    assert(self@.readers[i] == before[i]);
                }
            }
        }
        HandlerAction::InstanceRegistered { table_id, instance_id, sender }
    }

    /// Removes a registered reader instance.
    pub fn handle_destroy_instance(&mut self, table_id: TableId, instance_id: InstanceId)
        requires
            old(self)@.wf(),
            has_reader(old(self)@.readers, table_id, instance_id),
        ensures
            final(self)@ == old(self)@.destroy(table_id, instance_id).state,
            final(self)@.wf(),
    {
        let ghost before = self@.readers;
        let found = self.reader_index(table_id, instance_id);
        let index = found.unwrap();
        let _ = self.read_version_mapping.remove(index);
        proof {
            assert(self@.readers =~= before.remove(index as int));
            assert forall|i: int, j: int| 0 <= i < j < self@.readers.len() implies !((
            #[trigger] self@.readers[i]).table_id == (#[trigger] self@.readers[j]).table_id
                && self@.readers[i].instance_id == self@.readers[j].instance_id) by {
                let oi = if i < index { i } else { i + 1 };
                let oj = if j < index { j } else { j + 1 };
                assert(!(before[oi].table_id == before[oj].table_id && before[oi].instance_id
                    == before[oj].instance_id));
            }
            assert forall|i: int| 0 <= i < self@.readers.len() implies {
                &&& (#[trigger] self@.readers[i]).read_version.wf()
                &&& self@.readers[i].read_version.committed == self@.pinned_version
                &&& self@.readers[i].read_version.staged_above_committed()
            } by {
                let oi = if i < index { i } else { i + 1 };
                assert(self@.readers[i] == before[oi]);
            }
        }
    }
}

/// Moves `more` behind `actions`.
pub fn append_actions(actions: &mut Vec<HandlerAction>, more: Vec<HandlerAction>)
    ensures
        action_views(final(actions)@) == action_views(old(actions)@) + action_views(more@),
{
    let ghost before = action_views(actions@);
    let ghost asked = action_views(more@);
    let mut more = more;
    let ghost mut moved: int = 0;
    proof {
        assert(asked.skip(0) =~= asked);
        assert(before + asked.take(0) =~= before);
    }
    while more.len() > 0
        invariant
            0 <= moved <= asked.len(),
            action_views(more@) == asked.skip(moved),
            action_views(actions@) == before + asked.take(moved),
        decreases more.len(),
    {
        let ghost left = more@;
        let ghost sofar = action_views(actions@);
        let action = more.remove(0);
        actions.push(action);
        proof {
            assert(action_views(left).len() == left.len());
            assert(asked.skip(moved).len() == asked.len() - moved);
            assert(asked.skip(moved)[0] == asked[moved]);
            assert(action_views(left)[0] == left[0]@);
            assert(more@ =~= left.remove(0));
            assert forall|j: int| 0 <= j < more@.len() implies #[trigger] action_views(more@)[j]
                == asked.skip(moved + 1)[j] by {
                assert(more@[j] == left[j + 1]);
                assert(action_views(left)[j + 1] == left[j + 1]@);
                assert(asked.skip(moved)[j + 1] == asked[moved + j + 1]);
            }
            assert(action_views(more@) =~= asked.skip(moved + 1));
            assert(action_views(actions@) =~= sofar.push(action@));
            assert(before + asked.take(moved + 1) =~= (before + asked.take(moved)).push(asked[moved]));
            moved = moved + 1;
        }
    }
    proof {
        assert(asked.take(moved) =~= asked);
    }
}

/// `Itertools::collect_vec` of the itertools crate, on the epochs of the
/// pending requests. The contract claims what the crate documents of it:
/// that it collects the items of the iterator into a vector, in the order
/// in which the iterator yields them.
#[verifier::external_body]
fn pending_epochs(pending: &Vec<PendingSync>) -> (epochs: Vec<HummockEpoch>)
    ensures
        epochs@ == pending@.map_values(|request: PendingSync| request.epoch),
{
    pending.iter().map(|request| request.epoch).collect_vec()
}

/// The result of a sync as a mathematical object.
pub open spec fn result_view(
    result: Result<SyncResult, HummockError>,
) -> Result<SyncResultView, HummockError> {
    match result {
        Ok(synced) => Ok(synced@),
        Err(error) => Err(error),
    }
}

} // verus!
