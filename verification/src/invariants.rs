//! Every step of the handler leads from a well-formed state to a
//! well-formed state.

use vstd::prelude::*;
use std::sync::Arc;
use crate::error::HummockError;
use crate::event::{HandlerInput, HummockEvent, InstanceId, SenderId, SyncResultView};
use crate::event_handler::{
    has_pending, has_reader, is_reader_at, pending_position, reader_position, HandlerView,
};
use crate::local_version::{
    has_record, lemma_clear_bytes, lemma_commit_bytes, lemma_seal_bytes, lemma_settle_bytes,
    lemma_start_flush_bytes, lemma_start_sync_bytes, lemma_uploading_bounds, lemma_write_bytes,
    prev_max_sync_epoch, produced_view, record_position, LocalVersionView, SyncStage,
};
use crate::memtable::{HummockEpoch, ImmutableMemtable, TableId};
use crate::read_version::lemma_commit_wf;
use crate::upload_handle_manager::{finished_epoch, handles_in, handles_outside, TaskId};
use crate::version::{check_payload, payload_result, LocalSstableInfo, Payload, PayloadCheck};

verus! {

/// A memtable whose bytes were reserved can go into the buffer.
pub proof fn lemma_imm_to_uploader_wf(v: HandlerView, imm: Arc<ImmutableMemtable>)
    requires
        v.wf(),
        imm.spec_size() <= v.reserved_bytes(),
    ensures
        v.imm_to_uploader(imm).state.wf(),
        v.imm_to_uploader(imm).state.reserved_bytes() == v.reserved_bytes() - imm.spec_size(),
{
    lemma_write_bytes(v.local, imm);
}

pub proof fn lemma_seal_wf(v: HandlerView, epoch: HummockEpoch, is_checkpoint: bool)
    requires
        v.wf(),
        is_checkpoint ==> epoch > v.local.max_sync_epoch,
    ensures
        v.seal(epoch, is_checkpoint).state.wf(),
        v.seal(epoch, is_checkpoint).state.reserved_bytes() == v.reserved_bytes(),
{
    lemma_seal_bytes(v.local, epoch, is_checkpoint);
}

pub proof fn lemma_register_wf(
    v: HandlerView,
    table_id: TableId,
    instance_id: InstanceId,
    sender: SenderId,
)
    requires
        v.wf(),
    ensures
        v.register(table_id, instance_id, sender).state.wf(),
        v.register(table_id, instance_id, sender).state.reserved_bytes() == v.reserved_bytes(),
{
    let after = v.register(table_id, instance_id, sender).state.readers;
    assert forall|i: int, j: int| 0 <= i < j < after.len() implies !((#[trigger] after[i]).table_id == (
    #[trigger] after[j]).table_id && after[i].instance_id == after[j].instance_id) by {
        if has_reader(v.readers, table_id, instance_id) {
            let p = reader_position(v.readers, table_id, instance_id);
            assert(is_reader_at(v.readers, table_id, instance_id, p));
            assert(!(v.readers[i].table_id == v.readers[j].table_id && v.readers[i].instance_id
                == v.readers[j].instance_id));
        } else if j == v.readers.len() {
            assert(!is_reader_at(v.readers, table_id, instance_id, i));
        } else {
            assert(!(v.readers[i].table_id == v.readers[j].table_id && v.readers[i].instance_id
                == v.readers[j].instance_id));
        }
    }
    assert forall|i: int| 0 <= i < after.len() implies {
        &&& (#[trigger] after[i]).read_version.wf()
        &&& after[i].read_version.committed == v.pinned_version
    } by {
        if has_reader(v.readers, table_id, instance_id) {
            let p = reader_position(v.readers, table_id, instance_id);
            assert(is_reader_at(v.readers, table_id, instance_id, p));
            if i != p {
                assert(after[i] == v.readers[i]);
            }
        } else if i < v.readers.len() {
            assert(after[i] == v.readers[i]);
        }
    }
}

pub proof fn lemma_destroy_wf(v: HandlerView, table_id: TableId, instance_id: InstanceId)
    requires
        v.wf(),
        has_reader(v.readers, table_id, instance_id),
    ensures
        v.destroy(table_id, instance_id).state.wf(),
        v.destroy(table_id, instance_id).state.reserved_bytes() == v.reserved_bytes(),
{
    let p = reader_position(v.readers, table_id, instance_id);
    assert(is_reader_at(v.readers, table_id, instance_id, p));
    let after = v.destroy(table_id, instance_id).state.readers;
    assert forall|i: int, j: int| 0 <= i < j < after.len() implies !((#[trigger] after[i]).table_id == (
    #[trigger] after[j]).table_id && after[i].instance_id == after[j].instance_id) by {
        let oi = if i < p { i } else { i + 1 };
        let oj = if j < p { j } else { j + 1 };
        assert(!(v.readers[oi].table_id == v.readers[oj].table_id && v.readers[oi].instance_id
            == v.readers[oj].instance_id));
    }
    assert forall|i: int| 0 <= i < after.len() implies {
        &&& (#[trigger] after[i]).read_version.wf()
        &&& after[i].read_version.committed == v.pinned_version
    } by {
        let oi = if i < p { i } else { i + 1 };
        assert(after[i] == v.readers[oi]);
    }
}

pub proof fn lemma_send_sync_result_wf(
    v: HandlerView,
    epoch: HummockEpoch,
    result: Result<SyncResultView, HummockError>,
)
    requires
        v.wf(),
        has_pending(v.pending, epoch),
    ensures
        v.send_sync_result(epoch, result).state.wf(),
        v.send_sync_result(epoch, result).state.reserved_bytes() == v.reserved_bytes(),
{
    let p = pending_position(v.pending, epoch);
    let after = v.send_sync_result(epoch, result).state.pending;
    assert forall|i: int, j: int| 0 <= i < j < after.len() implies (#[trigger] after[i]).epoch != (
    #[trigger] after[j]).epoch by {
        let oi = if i < p { i } else { i + 1 };
        let oj = if j < p { j } else { j + 1 };
        assert(v.pending[oi].epoch != v.pending[oj].epoch);
    }
}

pub proof fn lemma_insert_pending_wf(v: HandlerView, epoch: HummockEpoch, sender: SenderId)
    requires
        v.wf(),
    ensures
        v.insert_pending(epoch, sender).state.wf(),
        has_pending(v.insert_pending(epoch, sender).state.pending, epoch),
        v.insert_pending(epoch, sender).state.reserved_bytes() == v.reserved_bytes(),
{
    let after = v.insert_pending(epoch, sender).state.pending;
    if has_pending(v.pending, epoch) {
        let p = pending_position(v.pending, epoch);
        assert forall|i: int, j: int| 0 <= i < j < after.len() implies (#[trigger] after[i]).epoch != (
        #[trigger] after[j]).epoch by {
            assert(v.pending[i].epoch != v.pending[j].epoch);
        }
        assert(after[p].epoch == epoch);
    } else {
        assert forall|i: int, j: int| 0 <= i < j < after.len() implies (#[trigger] after[i]).epoch != (
        #[trigger] after[j]).epoch by {
            if j < v.pending.len() {
                assert(v.pending[i].epoch != v.pending[j].epoch);
            } else {
                assert(v.pending[i].epoch != epoch);
            }
        }
        assert(after[v.pending.len() as int].epoch == epoch);
    }
}

pub proof fn lemma_spawn_sync_wf(v: HandlerView, epoch: HummockEpoch)
    requires
        v.wf(),
        v.can_spawn_sync(epoch),
    ensures
        v.spawn_sync(epoch).state.wf(),
        v.spawn_sync(epoch).state.reserved_bytes() == v.reserved_bytes(),
        v.spawn_sync(epoch).state.pending == v.pending,
{
    lemma_start_sync_bytes(v.local, epoch, v.next_task_id);
    lemma_uploading_bounds(v.local.start_sync(epoch, v.next_task_id));
}

pub proof fn lemma_spawn_flush_wf(v: HandlerView)
    requires
        v.wf(),
        v.local.has_flushable(),
    ensures
        v.spawn_flush().state.wf(),
        v.spawn_flush().state.reserved_bytes() == v.reserved_bytes(),
{
    lemma_has_next_flush(v.local);
    let index = v.next_flush();
    lemma_start_flush_bytes(v.local, index, v.next_task_id);
    lemma_uploading_bounds(v.local.start_flush(index, v.next_task_id));
}

/// Where something can be flushed, there is an oldest memtable to flush.
pub proof fn lemma_has_next_flush(local: LocalVersionView)
    requires
        local.has_flushable(),
    ensures
        exists|index: int| local.is_next_flush(index),
{
    let start = choose|i: int| 0 <= i < local.unsynced.len() && (#[trigger] local.unsynced[i]).uploading is None;
    lemma_oldest_idle(local, local.unsynced.len() as int, start);
}

/// Among the first `n` unsynced memtables, of which the one at `some` is
/// idle, one is the oldest idle one.
proof fn lemma_oldest_idle(local: LocalVersionView, n: int, some: int)
    requires
        0 <= some < n <= local.unsynced.len(),
        local.unsynced[some].uploading is None,
    ensures
        exists|index: int|
            {
                &&& 0 <= index < n
                &&& local.unsynced[index].uploading is None
                &&& forall|i: int|
                    0 <= i < n && (#[trigger] local.unsynced[i]).uploading is None ==> {
                        &&& local.unsynced[index].imm.spec_epoch() <= local.unsynced[i].imm.spec_epoch()
                        &&& local.unsynced[index].imm.spec_epoch() == local.unsynced[i].imm.spec_epoch()
                            ==> index <= i
                    }
            },
        n == local.unsynced.len() ==> exists|index: int| local.is_next_flush(index),
    decreases n,
{
    let last = n - 1;
    if some == last && forall|i: int| 0 <= i < last ==> (#[trigger] local.unsynced[i]).uploading is Some {
        assert(local.unsynced[last].uploading is None);
        let index = last;
        assert forall|i: int| 0 <= i < n && (#[trigger] local.unsynced[i]).uploading is None implies {
            &&& local.unsynced[index].imm.spec_epoch() <= local.unsynced[i].imm.spec_epoch()
            &&& local.unsynced[index].imm.spec_epoch() == local.unsynced[i].imm.spec_epoch() ==> index
                <= i
        } by {
            if i < last {
                assert(local.unsynced[i].uploading is Some);
            }
        }
        if n == local.unsynced.len() {
            assert(local.is_next_flush(index));
        }
    } else {
        let other = if some < last {
            some
        } else {
            choose|i: int| 0 <= i < last && (#[trigger] local.unsynced[i]).uploading is None
        };
        lemma_oldest_idle(local, last, other);
        let best = choose|index: int|
            {
                &&& 0 <= index < last
                &&& local.unsynced[index].uploading is None
                &&& forall|i: int|
                    0 <= i < last && (#[trigger] local.unsynced[i]).uploading is None ==> {
                        &&& local.unsynced[index].imm.spec_epoch() <= local.unsynced[i].imm.spec_epoch()
                        &&& local.unsynced[index].imm.spec_epoch() == local.unsynced[i].imm.spec_epoch()
                            ==> index <= i
                    }
            };
        let index = if local.unsynced[last].uploading is None && local.unsynced[last].imm.spec_epoch()
            < local.unsynced[best].imm.spec_epoch() {
            last
        } else {
            best
        };
        assert forall|i: int| 0 <= i < n && (#[trigger] local.unsynced[i]).uploading is None implies {
            &&& local.unsynced[index].imm.spec_epoch() <= local.unsynced[i].imm.spec_epoch()
            &&& local.unsynced[index].imm.spec_epoch() == local.unsynced[i].imm.spec_epoch() ==> index
                <= i
        } by {
            if i < last {
                assert(local.unsynced[best].imm.spec_epoch() <= local.unsynced[i].imm.spec_epoch());
            }
        }
        if n == local.unsynced.len() {
            assert(local.is_next_flush(index));
        }
    }
}

pub proof fn lemma_flush_wf(v: HandlerView, limit: nat)
    requires
        v.wf(),
    ensures
        v.flush_up_to(limit).state.wf(),
        v.flush_up_to(limit).state.reserved_bytes() == v.reserved_bytes(),
    decreases limit,
{
    if !(limit == 0 || !v.buffer_tracker.spec_need_more_flush() || !v.local.has_flushable()) {
        lemma_spawn_flush_wf(v);
        lemma_flush_wf(v.spawn_flush().state, (limit - 1) as nat);
    }
}

pub proof fn lemma_epoch_finished_wf(v: HandlerView, epoch: HummockEpoch)
    requires
        v.wf(),
        v.can_finish_epoch(epoch),
    ensures
        v.epoch_finished(epoch).state.wf(),
        v.epoch_finished(epoch).state.reserved_bytes() == v.reserved_bytes(),
{
    if epoch <= v.local.max_sync_epoch {
        let record = v.local.syncing[record_position(v.local.syncing, epoch)];
        match record.stage {
            SyncStage::Sealed => {
                lemma_spawn_sync_wf(v, epoch);
            },
            SyncStage::Syncing(_) => {},
            SyncStage::Failed => {
                lemma_send_sync_result_wf(v, epoch, Err(HummockError::SyncTaskFailed));
            },
            SyncStage::Synced => {
                lemma_send_sync_result_wf(
                    v,
                    epoch,
                    Ok(SyncResultView { sync_size: record.sync_size, uncommitted_ssts: record.ssts }),
                );
            },
        }
    }
}

/// The seal that a sync request brings leaves the state well-formed and
/// the records that were there as they are.
pub proof fn lemma_implicitly_sealed_wf(v: HandlerView, epoch: HummockEpoch)
    requires
        v.wf(),
    ensures
        v.implicitly_sealed(epoch).wf(),
        v.implicitly_sealed(epoch).reserved_bytes() == v.reserved_bytes(),
        v.implicitly_sealed(epoch).pending == v.pending,
        v.implicitly_sealed(epoch).handles == v.handles,
        v.implicitly_sealed(epoch).next_task_id == v.next_task_id,
        v.implicitly_sealed(epoch).local.syncing.len() >= v.local.syncing.len(),
        forall|i: int|
            0 <= i < v.local.syncing.len() ==> (#[trigger] v.implicitly_sealed(epoch).local.syncing[i])
                == v.local.syncing[i],
{
    if !has_record(v.local.syncing, epoch) && epoch > v.local.max_sync_epoch {
        lemma_seal_wf(v, epoch, true);
    }
}

pub proof fn lemma_sync_epoch_wf(v: HandlerView, epoch: HummockEpoch, sender: SenderId)
    requires
        v.wf(),
        v.can_sync_epoch(epoch),
    ensures
        v.sync_epoch(epoch, sender).state.wf(),
        v.sync_epoch(epoch, sender).state.reserved_bytes() == v.reserved_bytes(),
{
    lemma_insert_pending_wf(v, epoch, sender);
    let registered = v.insert_pending(epoch, sender);
    match prev_max_sync_epoch(v.local, epoch) {
        None => {
            lemma_send_sync_result_wf(registered.state, epoch, Err(HummockError::SyncStale));
        },
        Some(prev) => {
            let range = HandlerView::sync_range(prev, epoch);
            lemma_implicitly_sealed_wf(registered.state, epoch);
            let rest = HandlerView {
                handles: handles_outside(v.handles, range),
                ..registered.state.implicitly_sealed(epoch)
            };
            if handles_in(v.handles, range).len() == 0 {
                assert(registered.state.implicitly_sealed(epoch).local == v.implicitly_sealed(
                    epoch,
                ).local);
                lemma_spawn_sync_wf(rest, epoch);
            }
        },
    }
}

pub proof fn lemma_upload_settled_wf(
    v: HandlerView,
    task: TaskId,
    produced: Option<Seq<LocalSstableInfo>>,
)
    requires
        v.wf(),
    ensures
        v.upload_settled(task, produced).wf(),
        v.upload_settled(task, produced).reserved_bytes() == v.reserved_bytes(),
        v.upload_settled(task, produced).handle_left(task).wf(),
        v.upload_settled(task, produced).handle_left(task).reserved_bytes() == v.reserved_bytes(),
{
    lemma_settle_bytes(v.local, task, produced);
}

pub proof fn lemma_clear_wf(v: HandlerView, notifier: SenderId)
    requires
        v.wf(),
    ensures
        v.clear(notifier).state.wf(),
        v.clear(notifier).state.reserved_bytes() == v.reserved_bytes(),
        v.clear(notifier).state.buffer_tracker.global_buffer.usage == v.reserved_bytes(),
        v.clear(notifier).state.buffer_tracker.global_upload_task_size == 0,
{
    lemma_clear_bytes(v.local);
}

pub proof fn lemma_version_update_wf(v: HandlerView, payload: Payload)
    requires
        v.wf(),
        check_payload(v.pinned_version, payload) == PayloadCheck::Applies,
    ensures
        v.version_update(payload).state.wf(),
        v.version_update(payload).state.reserved_bytes() == v.reserved_bytes(),
{
    let version = payload_result(v.pinned_version, payload);
    lemma_commit_bytes(v.local, version);
    lemma_uploading_bounds(v.local);
    lemma_uploading_bounds(v.local.commit(version));
    let after = v.version_update(payload).state;
    assert forall|i: int, j: int| 0 <= i < j < after.readers.len() implies !((#[trigger] after.readers[i]).table_id
        == (#[trigger] after.readers[j]).table_id && after.readers[i].instance_id
        == after.readers[j].instance_id) by {
        assert(!(v.readers[i].table_id == v.readers[j].table_id && v.readers[i].instance_id
            == v.readers[j].instance_id));
    }
    assert forall|i: int| 0 <= i < after.readers.len() implies {
        &&& (#[trigger] after.readers[i]).read_version.wf()
        &&& after.readers[i].read_version.committed == after.pinned_version
        &&& after.readers[i].read_version.staged_above_committed()
    } by {
        assert(v.readers[i].read_version.wf());
        lemma_commit_wf(v.readers[i].read_version, version);
    }
}

/// Handling an event leads from a well-formed state to a well-formed
/// state, and touches the bytes that are reserved for memtables on their
/// way to the buffer only when such a memtable arrives.
pub proof fn lemma_handle_event_wf(v: HandlerView, event: HummockEvent)
    requires
        v.wf(),
        v.event_fault(event) is None,
    ensures
        v.handle_event(event).state.wf(),
        !(event is ImmToUploader) ==> v.handle_event(event).state.reserved_bytes() == v.reserved_bytes(),
{
    match event {
        HummockEvent::BufferMayFlush => {
            lemma_flush_wf(v, v.local.unsynced.len());
        },
        HummockEvent::SyncEpoch { new_sync_epoch, sync_result_sender } => {
            lemma_sync_epoch_wf(v, new_sync_epoch, sync_result_sender);
        },
        HummockEvent::Clear(notifier) => {
            lemma_clear_wf(v, notifier);
        },
        HummockEvent::Shutdown => {},
        HummockEvent::VersionUpdate(payload) => {
            lemma_version_update_wf(v, payload);
        },
        HummockEvent::ImmToUploader(imm) => {
            lemma_imm_to_uploader_wf(v, imm);
        },
        HummockEvent::SealEpoch { epoch, is_checkpoint } => {
            lemma_seal_wf(v, epoch, is_checkpoint);
        },
        HummockEvent::RegisterHummockInstance { table_id, instance_id, sync_result_sender } => {
            lemma_register_wf(v, table_id, instance_id, sync_result_sender);
        },
        HummockEvent::DestroyHummockInstance { table_id, instance_id } => {
            lemma_destroy_wf(v, table_id, instance_id);
        },
    }
}

/// Every step leads from a well-formed state to a well-formed state.
pub proof fn lemma_step_wf(v: HandlerView, input: HandlerInput)
    requires
        v.wf(),
    ensures
        v.step(input).state.wf(),
        !(input matches HandlerInput::Event(HummockEvent::ImmToUploader(_))) ==> v.step(
            input,
        ).state.reserved_bytes() == v.reserved_bytes(),
{
    match input {
        HandlerInput::UploadFinished { task_id, produced } => {
            lemma_upload_settled_wf(v, task_id, produced_view(produced));
            if v.input_fault(input) is None {
                match finished_epoch(v.handles, task_id) {
                    Some(epoch) => {
                        lemma_epoch_finished_wf(
                            v.upload_settled(task_id, produced_view(produced)).handle_left(task_id),
                            epoch,
                        );
                    },
                    None => {},
                }
            }
        },
        HandlerInput::Event(event) => {
            if v.input_fault(input) is None {
                lemma_handle_event_wf(v, event);
            }
        },
        HandlerInput::ChannelClosed => {},
    }
}

} // verus!
