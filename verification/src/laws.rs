//! What holds of the handler over whole runs, and of what readers see.

use vstd::prelude::*;
use std::sync::Arc;
use crate::error::HummockError;
use crate::event::{ActionView, HandlerInput, HummockEvent, SenderId, SyncResultView};
use crate::event_handler::{
    has_pending, lemma_flush_keeps, pending_position, run, HandlerView, PendingSync,
};
use crate::invariants::{
    lemma_clear_wf, lemma_flush_wf, lemma_has_next_flush, lemma_implicitly_sealed_wf,
    lemma_insert_pending_wf, lemma_spawn_flush_wf, lemma_step_wf, lemma_upload_settled_wf,
    lemma_version_update_wf,
};
use crate::local_version::{
    has_record, idle_count, lemma_idle_count_le, lemma_next_flush, lemma_record_position, lemma_seal_bytes, lemma_settle_bytes, lemma_write_bytes,
    memtables_of, prev_max_sync_epoch, produced_view, record_position, release_all, select,
    settle_record, BatchSelector, BufferedBatch, LocalVersionView, SyncRecordView, SyncStage,
};
use crate::local_version::{
    evicted_bytes, evicted_uploading_bytes, lemma_clear_bytes, lemma_commit_bytes,
    lemma_start_flush_bytes, lemma_start_sync_bytes, lemma_uploading_bounds, lemma_uploading_le,
    record_bytes, record_uploading_bytes,
};
use crate::memtable::{HummockEpoch, ImmutableMemtable, TableId};
use crate::read_version::{
    committed_bound, file_layers, files_layers, imm_layers, lemma_read_skip, lemma_read_some,
    read_layers, visible_value, Layer, ReadVersionView,
};
use crate::sorted_file::file_covers;
use crate::seq_util::{
    lemma_filter_all, lemma_filter_membership, lemma_filter_none, lemma_filter_passes,
    lemma_sum_add, lemma_sum_bounds, lemma_sum_le, lemma_sum_map, lemma_sum_push, lemma_sum_remove, lemma_sum_update, sum_by,
};
use crate::upload_handle_manager::{
    finished_epoch, handles_in, handles_outside, tasks_of, TaskId,
};
use crate::version::{
    check_payload, committed_ssts, payload_result, LocalSstableInfo, Payload, PayloadCheck,
    SstableInfo, VersionView,
};

verus! {

/// A run leads from a well-formed state to a well-formed state.
pub proof fn lemma_run_wf(v: HandlerView, inputs: Seq<HandlerInput>)
    requires
        v.wf(),
    ensures
        run(v, inputs).wf(),
    decreases inputs.len(),
{
    if inputs.len() > 0 {
        lemma_run_wf(v, inputs.drop_last());
        lemma_step_wf(run(v, inputs.drop_last()), inputs.last());
    }
}

/// No step takes the committed epoch back.
pub proof fn lemma_step_committed_epoch(v: HandlerView, input: HandlerInput)
    ensures
        v.step(input).state.pinned_version.max_committed_epoch
            >= v.pinned_version.max_committed_epoch,
{
    match input {
        HandlerInput::UploadFinished { task_id, produced } => {},
        HandlerInput::Event(event) => {
            match event {
                HummockEvent::BufferMayFlush => {
                    lemma_flush_keeps(v, v.local.unsynced.len());
                },
                _ => {},
            }
        },
        HandlerInput::ChannelClosed => {},
    }
}

/// Whatever events and uploads arrive, in whatever order: the committed
/// epoch that a reader can observe never goes back. After every prefix of
/// the inputs the pinned version, the version of every registered reader
/// and the epoch that the watchers were told agree, and the committed epoch
/// after a longer prefix is no smaller than after a shorter one.
pub proof fn law_committed_epoch_is_monotone(v: HandlerView, inputs: Seq<HandlerInput>, n: int)
    requires
        v.wf(),
        0 <= n <= inputs.len(),
    ensures
        run(v, inputs.take(n)).pinned_version.max_committed_epoch <= run(
            v,
            inputs,
        ).pinned_version.max_committed_epoch,
        run(v, inputs).notified_epoch == run(v, inputs).pinned_version.max_committed_epoch,
        forall|i: int|
            0 <= i < run(v, inputs).readers.len() ==> (#[trigger] run(
                v,
                inputs,
            ).readers[i]).read_version.committed.max_committed_epoch == run(
                v,
                inputs,
            ).pinned_version.max_committed_epoch,
    decreases inputs.len(),
{
    lemma_run_wf(v, inputs);
    if n == inputs.len() {
        assert(inputs.take(n) =~= inputs);
    } else {
        law_committed_epoch_is_monotone(v, inputs.drop_last(), n);
        assert(inputs.drop_last().take(n) =~= inputs.take(n));
        lemma_step_committed_epoch(run(v, inputs.drop_last()), inputs.last());
    }
}

/// A clear gives the limiter back every byte of the shared buffer: where
/// every reserved byte belongs to a memtable in the buffer, the usage is
/// zero after the clear, and nothing is in flight.
pub proof fn law_clear_returns_memory(v: HandlerView, notifier: SenderId)
    requires
        v.wf(),
        v.reserved_bytes() == 0,
    ensures
        v.clear(notifier).state.buffer_tracker.global_buffer.usage == 0,
        v.clear(notifier).state.buffer_tracker.global_upload_task_size == 0,
        v.clear(notifier).state.local.buffer_bytes() == 0,
{
    lemma_clear_wf(v, notifier);
}

/// No memtable arrives among `inputs` by itself, with bytes that someone
/// else has reserved.
pub open spec fn no_arrivals(inputs: Seq<HandlerInput>) -> bool {
    forall|i: int|
        0 <= i < inputs.len() ==> !(#[trigger] inputs[i] matches HandlerInput::Event(
            HummockEvent::ImmToUploader(_),
        ))
}

/// The limiter accounts the memtables in the buffer and nothing else, as
/// long as no memtable arrives whose bytes were reserved apart from it:
/// a run without such arrivals leaves the bytes that are reserved beyond
/// the buffer as they are, and so does a write.
pub proof fn law_usage_is_buffer_size(v: HandlerView, inputs: Seq<HandlerInput>)
    requires
        v.wf(),
        no_arrivals(inputs),
    ensures
        run(v, inputs).wf(),
        run(v, inputs).reserved_bytes() == v.reserved_bytes(),
    decreases inputs.len(),
{
    if inputs.len() > 0 {
        assert forall|i: int| 0 <= i < inputs.drop_last().len() implies !(#[trigger] inputs.drop_last()[i] matches HandlerInput::Event(
            HummockEvent::ImmToUploader(_),
        )) by {
            assert(inputs.drop_last()[i] == inputs[i]);
        }
        law_usage_is_buffer_size(v, inputs.drop_last());
        assert(inputs.last() == inputs[inputs.len() - 1]);
        lemma_step_wf(run(v, inputs.drop_last()), inputs.last());
    }
}

/// A write reserves exactly the bytes of the memtable that it puts into the
/// buffer.
pub proof fn law_write_reserves_its_bytes(
    v: HandlerView,
    position: int,
    imm: Arc<ImmutableMemtable>,
    staged: ReadVersionView,
)
    requires
        v.wf(),
        v.buffer_tracker.global_buffer.usage + imm.spec_size()
            <= v.buffer_tracker.global_buffer.capacity,
    ensures
        v.ingested(position, imm, staged).reserved_bytes() == v.reserved_bytes(),
{
    lemma_write_bytes(v.local, imm);
}

/// The state after the uploads `tasks` have ended one after the other, each
/// with success and the files of `produced` at its position.
pub open spec fn uploads_succeeded(
    v: HandlerView,
    tasks: Seq<TaskId>,
    produced: Seq<Seq<LocalSstableInfo>>,
) -> HandlerView
    decreases tasks.len(),
{
    if tasks.len() == 0 {
        v
    } else {
        uploads_succeeded(v, tasks.drop_last(), produced).upload_settled(
            tasks.last(),
            Some(produced[tasks.len() - 1]),
        )
    }
}

/// Flushing brings the usage down. Once no more flush is needed, the bytes
/// that no upload carries are within the threshold; an upload that succeeds
/// takes its bytes out of the usage; so when the uploads have succeeded and
/// none is in flight any more, the usage is within the threshold.
pub proof fn law_flushed_usage_is_within_threshold(
    v: HandlerView,
    tasks: Seq<TaskId>,
    produced: Seq<Seq<LocalSstableInfo>>,
)
    requires
        v.wf(),
        !v.buffer_tracker.spec_need_more_flush(),
        produced.len() == tasks.len(),
        uploads_succeeded(v, tasks, produced).buffer_tracker.global_upload_task_size == 0,
    ensures
        uploads_succeeded(v, tasks, produced).buffer_tracker.global_buffer.usage
            <= v.buffer_tracker.flush_threshold,
{
    lemma_uploads_succeeded(v, tasks, produced);
}

/// Where a memtable is idle, the idle ones are at least one.
proof fn lemma_flushable_counts(v: HandlerView)
    requires
        v.local.has_flushable(),
    ensures
        idle_count(v.local.unsynced) >= 1,
{
    let i = choose|i: int| 0 <= i < v.local.unsynced.len() && (#[trigger] v.local.unsynced[i]).uploading is None;
    lemma_sum_bounds(
        v.local.unsynced,
        i,
        |batch: BufferedBatch|
            if batch.uploading is None {
                1nat
            } else {
                0nat
            },
    );
}

/// Flushing goes on until no more flush is needed or nothing is left to
/// flush.
pub proof fn lemma_flush_ends(v: HandlerView, limit: nat)
    requires
        v.wf(),
        idle_count(v.local.unsynced) <= limit,
    ensures
        !v.flush_up_to(limit).state.buffer_tracker.spec_need_more_flush() || !v.flush_up_to(
            limit,
        ).state.local.has_flushable(),
    decreases limit,
{
    if v.buffer_tracker.spec_need_more_flush() && v.local.has_flushable() {
        lemma_flushable_counts(v);
        lemma_has_next_flush(v.local);
        let index = v.next_flush();
        lemma_next_flush(v.local, index, index, v.next_task_id);
        lemma_spawn_flush_wf(v);
        lemma_flush_ends(v.spawn_flush().state, (limit - 1) as nat);
    }
}

/// A flush of the buffer brings the usage down. After the buffer was
/// flushed, no more flush is needed, or no unsynced memtable is left that
/// no upload carries. In the first case the usage is within the threshold
/// as soon as the uploads have succeeded and none is in flight any more.
pub proof fn law_flush_brings_usage_down(
    v: HandlerView,
    tasks: Seq<TaskId>,
    produced: Seq<Seq<LocalSstableInfo>>,
)
    requires
        v.wf(),
        produced.len() == tasks.len(),
        uploads_succeeded(v.flush().state, tasks, produced).buffer_tracker.global_upload_task_size == 0,
    ensures
        v.flush().state.wf(),
        v.flush().state.buffer_tracker.spec_need_more_flush() ==> !v.flush().state.local.has_flushable(),
        !v.flush().state.buffer_tracker.spec_need_more_flush() ==> uploads_succeeded(
            v.flush().state,
            tasks,
            produced,
        ).buffer_tracker.global_buffer.usage <= v.buffer_tracker.flush_threshold,
{
    lemma_idle_count_le(v.local.unsynced);
    lemma_flush_ends(v, v.local.unsynced.len());
    lemma_flush_wf(v, v.local.unsynced.len());
    lemma_flush_keeps(v, v.local.unsynced.len());
    if !v.flush().state.buffer_tracker.spec_need_more_flush() {
        law_flushed_usage_is_within_threshold(v.flush().state, tasks, produced);
    }
}

/// The bytes in the buffer that no upload carries.
pub open spec fn idle_bytes(v: HandlerView) -> int {
    v.local.buffer_bytes() - v.local.uploading_bytes()
}

proof fn lemma_spawn_sync_idle(v: HandlerView, epoch: HummockEpoch)
    requires
        v.wf(),
        v.can_spawn_sync(epoch),
    ensures
        idle_bytes(v.spawn_sync(epoch).state) <= idle_bytes(v),
{
    lemma_start_sync_bytes(v.local, epoch, v.next_task_id);
}

proof fn lemma_flush_idle(v: HandlerView, limit: nat)
    requires
        v.wf(),
    ensures
        idle_bytes(v.flush_up_to(limit).state) <= idle_bytes(v),
    decreases limit,
{
    if !(limit == 0 || !v.buffer_tracker.spec_need_more_flush() || !v.local.has_flushable()) {
        lemma_has_next_flush(v.local);
        lemma_start_flush_bytes(v.local, v.next_flush(), v.next_task_id);
        lemma_spawn_flush_wf(v);
        lemma_flush_idle(v.spawn_flush().state, (limit - 1) as nat);
    }
}

proof fn lemma_epoch_finished_idle(v: HandlerView, epoch: HummockEpoch)
    requires
        v.wf(),
        v.can_finish_epoch(epoch),
    ensures
        idle_bytes(v.epoch_finished(epoch).state) <= idle_bytes(v),
{
    if epoch <= v.local.max_sync_epoch {
        let record = v.local.syncing[record_position(v.local.syncing, epoch)];
        if record.stage == SyncStage::Sealed {
            lemma_spawn_sync_idle(v, epoch);
        }
    }
}

/// Once no more flush is needed, it stays so until the next write: no step
/// but a write or the failure of an upload raises the bytes that no upload
/// carries. A memtable that arrives had its bytes reserved by its write.
pub proof fn law_flush_need_stays_down(v: HandlerView, input: HandlerInput)
    requires
        v.wf(),
        !v.buffer_tracker.spec_need_more_flush(),
        !(input matches HandlerInput::UploadFinished { produced: None, .. }),
    ensures
        !v.step(input).state.buffer_tracker.spec_need_more_flush(),
{
    lemma_step_wf(v, input);
    let after = v.step(input).state;
    match input {
        HandlerInput::UploadFinished { task_id, produced } => {
            let settled = v.upload_settled(task_id, produced_view(produced)).handle_left(task_id);
            lemma_upload_settled_wf(v, task_id, produced_view(produced));
            lemma_settle_bytes(v.local, task_id, produced_view(produced));
            assert(idle_bytes(settled) == idle_bytes(v));
            if v.input_fault(input) is None {
                match finished_epoch(v.handles, task_id) {
                    Some(epoch) => {
                        lemma_epoch_finished_idle(settled, epoch);
                    },
                    None => {},
                }
            }
            assert(idle_bytes(after) <= idle_bytes(v));
        },
        HandlerInput::Event(event) => {
            if v.input_fault(input) is None {
                match event {
                    HummockEvent::BufferMayFlush => {
                        lemma_flush_idle(v, v.local.unsynced.len());
                    },
                    HummockEvent::SyncEpoch { new_sync_epoch, sync_result_sender } => {
                        lemma_insert_pending_wf(v, new_sync_epoch, sync_result_sender);
                        let registered = v.insert_pending(new_sync_epoch, sync_result_sender);
                        match prev_max_sync_epoch(v.local, new_sync_epoch) {
                            None => {},
                            Some(prev) => {
                                let range = HandlerView::sync_range(prev, new_sync_epoch);
                                lemma_implicitly_sealed_wf(registered.state, new_sync_epoch);
                                let sealed = registered.state.implicitly_sealed(new_sync_epoch);
                                if !has_record(v.local.syncing, new_sync_epoch) && new_sync_epoch
                                    > v.local.max_sync_epoch {
                                    lemma_seal_bytes(v.local, new_sync_epoch, true);
                                }
                                assert(idle_bytes(sealed) == idle_bytes(v));
                                let rest = HandlerView { handles: handles_outside(v.handles, range), ..sealed };
                                if handles_in(v.handles, range).len() == 0 {
                                    assert(sealed.local == v.implicitly_sealed(new_sync_epoch).local);
                                    lemma_spawn_sync_idle(rest, new_sync_epoch);
                                }
                            },
                        }
                        assert(idle_bytes(after) <= idle_bytes(v));
                    },
                    HummockEvent::Clear(notifier) => {
                        lemma_clear_bytes(v.local);
                        lemma_uploading_bounds(v.local);
                    },
                    HummockEvent::Shutdown => {},
                    HummockEvent::VersionUpdate(payload) => {
                        let version = payload_result(v.pinned_version, payload);
                        lemma_commit_bytes(v.local, version);
                        let gone = v.local.syncing.filter(
                            |record: SyncRecordView| record.sync_epoch <= version.max_committed_epoch,
                        );
                        assert forall|record: SyncRecordView| #[trigger] (record_uploading_bytes())(record)
                            <= (record_bytes())(record) by {
                            lemma_uploading_le(record.payload);
                        }
                        lemma_sum_le(gone, record_uploading_bytes(), record_bytes());
                        assert(evicted_uploading_bytes(v.local.syncing, version.max_committed_epoch)
                            <= evicted_bytes(v.local.syncing, version.max_committed_epoch));
                    },
                    HummockEvent::ImmToUploader(imm) => {},
                    HummockEvent::SealEpoch { epoch, is_checkpoint } => {
                        lemma_seal_bytes(v.local, epoch, is_checkpoint);
                    },
                    HummockEvent::RegisterHummockInstance { table_id, instance_id, sync_result_sender } => {},
                    HummockEvent::DestroyHummockInstance { table_id, instance_id } => {},
                }
            }
        },
        HandlerInput::ChannelClosed => {},
    }
}

/// Uploads that succeed take the same bytes out of the usage and out of
/// what is in flight.
pub proof fn lemma_uploads_succeeded(
    v: HandlerView,
    tasks: Seq<TaskId>,
    produced: Seq<Seq<LocalSstableInfo>>,
)
    requires
        v.wf(),
        produced.len() >= tasks.len(),
    ensures
        uploads_succeeded(v, tasks, produced).wf(),
        uploads_succeeded(v, tasks, produced).buffer_tracker.flush_threshold
            == v.buffer_tracker.flush_threshold,
        uploads_succeeded(v, tasks, produced).buffer_tracker.global_buffer.usage - uploads_succeeded(
            v,
            tasks,
            produced,
        ).buffer_tracker.global_upload_task_size == v.buffer_tracker.global_buffer.usage
            - v.buffer_tracker.global_upload_task_size,
    decreases tasks.len(),
{
    if tasks.len() > 0 {
        lemma_uploads_succeeded(v, tasks.drop_last(), produced);
        let before = uploads_succeeded(v, tasks.drop_last(), produced);
        lemma_upload_settled_wf(before, tasks.last(), Some(produced[tasks.len() - 1]));
        lemma_settle_bytes(before.local, tasks.last(), Some(produced[tasks.len() - 1]));
    }
}

/// One for a sync result that goes to `sender`, zero for any other action.
pub open spec fn reply_share(sender: SenderId) -> spec_fn(ActionView) -> nat {
    |action: ActionView|
        match action {
            ActionView::SendSyncResult { sender: to, result } => if to == sender {
                1nat
            } else {
                0nat
            },
            _ => 0nat,
        }
}

/// How many sync results among `actions` go to `sender`.
pub open spec fn replies_to(actions: Seq<ActionView>, sender: SenderId) -> nat {
    sum_by(actions, reply_share(sender))
}

/// One for a pending request of `sender`, zero for any other.
pub open spec fn waiting_share(sender: SenderId) -> spec_fn(PendingSync) -> nat {
    |request: PendingSync|
        if request.sender == sender {
            1nat
        } else {
            0nat
        }
}

/// How many requests of `sender` are pending.
pub open spec fn waiting(pending: Seq<PendingSync>, sender: SenderId) -> nat {
    sum_by(pending, waiting_share(sender))
}

/// One if `input` is a sync request of `sender` that the handler takes,
/// else zero.
pub open spec fn asked(v: HandlerView, input: HandlerInput, sender: SenderId) -> nat {
    match input {
        HandlerInput::Event(HummockEvent::SyncEpoch { new_sync_epoch, sync_result_sender }) => {
            if sync_result_sender == sender && v.input_fault(input) is None {
                1nat
            } else {
                0nat
            }
        },
        _ => 0nat,
    }
}

proof fn lemma_replies_one(action: ActionView, sender: SenderId)
    ensures
        replies_to(seq![action], sender) == (reply_share(sender))(action),
{
    lemma_sum_push(Seq::<ActionView>::empty(), action, reply_share(sender));
    assert(seq![action] =~= Seq::<ActionView>::empty().push(action));
}

proof fn lemma_send_counts(
    v: HandlerView,
    epoch: HummockEpoch,
    result: Result<SyncResultView, HummockError>,
    sender: SenderId,
)
    requires
        has_pending(v.pending, epoch),
    ensures
        waiting(v.send_sync_result(epoch, result).state.pending, sender) + replies_to(
            v.send_sync_result(epoch, result).actions,
            sender,
        ) == waiting(v.pending, sender),
{
    let position = pending_position(v.pending, epoch);
    lemma_sum_remove(v.pending, position, waiting_share(sender));
    lemma_replies_one(
        ActionView::SendSyncResult { sender: v.pending[position].sender, result },
        sender,
    );
}

proof fn lemma_insert_counts(
    v: HandlerView,
    epoch: HummockEpoch,
    incoming: SenderId,
    sender: SenderId,
)
    ensures
        waiting(v.insert_pending(epoch, incoming).state.pending, sender) + replies_to(
            v.insert_pending(epoch, incoming).actions,
            sender,
        ) == waiting(v.pending, sender) + if incoming == sender {
            1nat
        } else {
            0nat
        },
{
    let request = PendingSync { epoch, sender: incoming };
    if has_pending(v.pending, epoch) {
        let position = pending_position(v.pending, epoch);
        lemma_sum_update(v.pending, position, request, waiting_share(sender));
        lemma_replies_one(
            ActionView::SendSyncResult {
                sender: v.pending[position].sender,
                result: Err(HummockError::SyncOverwritten),
            },
            sender,
        );
    } else {
        lemma_sum_push(v.pending, request, waiting_share(sender));
    }
}

proof fn lemma_spawn_sync_counts(v: HandlerView, epoch: HummockEpoch, sender: SenderId)
    ensures
        v.spawn_sync(epoch).state.pending == v.pending,
        replies_to(v.spawn_sync(epoch).actions, sender) == 0,
{
    lemma_replies_one(v.spawn_sync(epoch).actions[0], sender);
    assert(v.spawn_sync(epoch).actions =~= seq![v.spawn_sync(epoch).actions[0]]);
}

proof fn lemma_flush_counts(v: HandlerView, limit: nat, sender: SenderId)
    ensures
        v.flush_up_to(limit).state.pending == v.pending,
        replies_to(v.flush_up_to(limit).actions, sender) == 0,
    decreases limit,
{
    if !(limit == 0 || !v.buffer_tracker.spec_need_more_flush() || !v.local.has_flushable()) {
        let first = v.spawn_flush();
        lemma_flush_counts(first.state, (limit - 1) as nat, sender);
        lemma_replies_one(first.actions[0], sender);
        assert(first.actions =~= seq![first.actions[0]]);
        lemma_sum_add(first.actions, first.state.flush_up_to((limit - 1) as nat).actions, reply_share(sender));
    }
}

proof fn lemma_epoch_finished_counts(v: HandlerView, epoch: HummockEpoch, sender: SenderId)
    requires
        v.can_finish_epoch(epoch),
    ensures
        waiting(v.epoch_finished(epoch).state.pending, sender) + replies_to(
            v.epoch_finished(epoch).actions,
            sender,
        ) == waiting(v.pending, sender),
{
    if epoch <= v.local.max_sync_epoch {
        let record = v.local.syncing[record_position(v.local.syncing, epoch)];
        match record.stage {
            SyncStage::Sealed => {
                lemma_spawn_sync_counts(v, epoch, sender);
            },
            SyncStage::Syncing(_) => {},
            SyncStage::Failed => {
                lemma_send_counts(v, epoch, Err(HummockError::SyncTaskFailed), sender);
            },
            SyncStage::Synced => {
                lemma_send_counts(
                    v,
                    epoch,
                    Ok(SyncResultView { sync_size: record.sync_size, uncommitted_ssts: record.ssts }),
                    sender,
                );
            },
        }
    }
}

proof fn lemma_sync_epoch_counts(
    v: HandlerView,
    epoch: HummockEpoch,
    incoming: SenderId,
    sender: SenderId,
)
    requires
        v.wf(),
    ensures
        waiting(v.sync_epoch(epoch, incoming).state.pending, sender) + replies_to(
            v.sync_epoch(epoch, incoming).actions,
            sender,
        ) == waiting(v.pending, sender) + if incoming == sender {
            1nat
        } else {
            0nat
        },
{
    lemma_insert_counts(v, epoch, incoming, sender);
    lemma_insert_pending_wf(v, epoch, incoming);
    let registered = v.insert_pending(epoch, incoming);
    match prev_max_sync_epoch(v.local, epoch) {
        None => {
            lemma_send_counts(registered.state, epoch, Err(HummockError::SyncStale), sender);
            let replied = registered.state.send_sync_result(epoch, Err(HummockError::SyncStale));
            lemma_sum_add(registered.actions, replied.actions, reply_share(sender));
        },
        Some(prev) => {
            let range = HandlerView::sync_range(prev, epoch);
            lemma_implicitly_sealed_wf(registered.state, epoch);
            let rest = HandlerView {
                handles: handles_outside(v.handles, range),
                ..registered.state.implicitly_sealed(epoch)
            };
            if handles_in(v.handles, range).len() == 0 {
                lemma_spawn_sync_counts(rest, epoch, sender);
                lemma_sum_add(registered.actions, rest.spawn_sync(epoch).actions, reply_share(sender));
            }
        },
    }
}

proof fn lemma_clear_counts(v: HandlerView, notifier: SenderId, sender: SenderId)
    ensures
        waiting(v.clear(notifier).state.pending, sender) + replies_to(v.clear(notifier).actions, sender)
            == waiting(v.pending, sender),
{
    let first = seq![ActionView::AwaitUploads { tasks: tasks_of(v.handles) }];
    let replies = HandlerView::cleared_replies(v.pending);
    let last = seq![
        ActionView::RemoveWatermarkSstId { epoch: u64::MAX },
        ActionView::NotifyCleared { notifier },
    ];
    lemma_replies_one(first[0], sender);
    assert(first =~= seq![first[0]]);
    lemma_replies_one(last[0], sender);
    lemma_replies_one(last[1], sender);
    assert(last =~= seq![last[0]] + seq![last[1]]);
    lemma_sum_add(seq![last[0]], seq![last[1]], reply_share(sender));
    lemma_sum_add(first, replies, reply_share(sender));
    lemma_sum_add(first + replies, last, reply_share(sender));
    lemma_sum_map(
        v.pending,
        |request: PendingSync|
            ActionView::SendSyncResult {
                sender: request.sender,
                result: Err(HummockError::SyncCleared),
            },
        reply_share(sender),
        waiting_share(sender),
    );
}

proof fn lemma_version_update_counts(v: HandlerView, payload: Payload, sender: SenderId)
    ensures
        v.version_update(payload).state.pending == v.pending,
        replies_to(v.version_update(payload).actions, sender) == 0,
{
    let version = payload_result(v.pinned_version, payload);
    let epoch = version.max_committed_epoch;
    let notify = if epoch > v.pinned_version.max_committed_epoch {
        seq![ActionView::NotifyVersionUpdate { max_committed_epoch: epoch }]
    } else {
        Seq::empty()
    };
    let watermark = if v.conflict_detection {
        seq![ActionView::SetConflictWatermark { epoch }]
    } else {
        Seq::empty()
    };
    let remove = seq![ActionView::RemoveWatermarkSstId { epoch }];
    lemma_replies_one(ActionView::NotifyVersionUpdate { max_committed_epoch: epoch }, sender);
    lemma_replies_one(ActionView::SetConflictWatermark { epoch }, sender);
    lemma_replies_one(ActionView::RemoveWatermarkSstId { epoch }, sender);
    lemma_sum_add(notify, watermark, reply_share(sender));
    lemma_sum_add(notify + watermark, remove, reply_share(sender));
}

/// No sync request is lost and none is answered twice. In every step, for
/// every sender: the requests of the sender that are pending afterwards,
/// and the sync results that the step sends to it, are together as many as
/// its requests that were pending before, and one more if the step takes a
/// new request of it. So a request stays pending until the one step in
/// which it leaves, and that step sends it one result.
pub proof fn law_every_request_gets_one_reply(v: HandlerView, input: HandlerInput, sender: SenderId)
    requires
        v.wf(),
    ensures
        waiting(v.step(input).state.pending, sender) + replies_to(v.step(input).actions, sender)
            == waiting(v.pending, sender) + asked(v, input, sender),
{
    if v.input_fault(input) is None {
        match input {
            HandlerInput::UploadFinished { task_id, produced } => {
                let settled = v.upload_settled(task_id, produced_view(produced)).handle_left(task_id);
                match finished_epoch(v.handles, task_id) {
                    Some(epoch) => {
                        lemma_epoch_finished_counts(settled, epoch, sender);
                    },
                    None => {},
                }
            },
            HandlerInput::Event(event) => {
                match event {
                    HummockEvent::BufferMayFlush => {
                        lemma_flush_counts(v, v.local.unsynced.len(), sender);
                    },
                    HummockEvent::SyncEpoch { new_sync_epoch, sync_result_sender } => {
                        lemma_sync_epoch_counts(v, new_sync_epoch, sync_result_sender, sender);
                    },
                    HummockEvent::Clear(notifier) => {
                        lemma_clear_counts(v, notifier, sender);
                    },
                    HummockEvent::Shutdown => {},
                    HummockEvent::VersionUpdate(payload) => {
                        lemma_version_update_counts(v, payload, sender);
                    },
                    HummockEvent::ImmToUploader(imm) => {},
                    HummockEvent::SealEpoch { epoch, is_checkpoint } => {},
                    HummockEvent::RegisterHummockInstance { table_id, instance_id, sync_result_sender } => {
                        lemma_replies_one(v.register(table_id, instance_id, sync_result_sender).actions[0], sender);
                        assert(v.register(table_id, instance_id, sync_result_sender).actions =~= seq![
                            v.register(table_id, instance_id, sync_result_sender).actions[0],
                        ]);
                    },
                    HummockEvent::DestroyHummockInstance { table_id, instance_id } => {},
                }
            },
            HandlerInput::ChannelClosed => {},
        }
    }
}

/// A sync request for an epoch for which a request is pending takes its
/// place: the first thing the step does is to tell the earlier requester
/// that its request was overwritten, and that requester is pending no
/// longer.
pub proof fn law_repeated_request_overwrites(v: HandlerView, epoch: HummockEpoch, sender: SenderId)
    requires
        v.wf(),
        has_pending(v.pending, epoch),
    ensures
        v.sync_epoch(epoch, sender).actions.len() > 0,
        v.sync_epoch(epoch, sender).actions[0] == (ActionView::SendSyncResult {
            sender: v.pending[pending_position(v.pending, epoch)].sender,
            result: Err(HummockError::SyncOverwritten),
        }),
        v.insert_pending(epoch, sender).state.pending[pending_position(v.pending, epoch)] == (PendingSync {
            epoch,
            sender,
        }),
{
}

/// The epochs of `layers` never rise along the sequence.
pub open spec fn layers_descend(layers: Seq<Layer>) -> bool {
    forall|i: int, j: int|
        0 <= i < j < layers.len() ==> (#[trigger] layers[i]).imm.spec_epoch() >= (#[trigger] layers[j]).imm.spec_epoch()
}

/// The run at `index` is the first that answers a read of `key`.
pub open spec fn is_first_hit(
    layers: Seq<Layer>,
    key: Seq<u8>,
    after: Option<HummockEpoch>,
    index: int,
) -> bool {
    &&& 0 <= index < layers.len()
    &&& layers[index].hit(key, after)
    &&& forall|j: int| 0 <= j < index ==> !(#[trigger] layers[j]).hit(key, after)
}

/// A read is answered by the first run that answers, and by none if none
/// does.
pub proof fn lemma_first_hit(layers: Seq<Layer>, key: Seq<u8>, after: Option<HummockEpoch>)
    ensures
        match read_layers(layers, key, after) {
            Some(value) => exists|index: int|
                is_first_hit(layers, key, after, index) && value == layers[index].imm@[key],
            None => forall|j: int| 0 <= j < layers.len() ==> !(#[trigger] layers[j]).hit(key, after),
        },
    decreases layers.len(),
{
    if layers.len() > 0 {
        if layers[0].hit(key, after) {
            assert(is_first_hit(layers, key, after, 0));
        } else {
            let rest = layers.drop_first();
            lemma_first_hit(rest, key, after);
            match read_layers(rest, key, after) {
                Some(value) => {
                    let index = choose|index: int|
                        is_first_hit(rest, key, after, index) && value == rest[index].imm@[key];
                    assert forall|j: int| 0 <= j < index + 1 implies !(#[trigger] layers[j]).hit(key, after) by {
                        if j > 0 {
                            assert(rest[j - 1] == layers[j]);
                        }
                    }
                    assert(rest[index] == layers[index + 1]);
                    assert(is_first_hit(layers, key, after, index + 1));
                },
                None => {
                    assert forall|j: int| 0 <= j < layers.len() implies !(#[trigger] layers[j]).hit(key, after) by {
                        if j > 0 {
                            assert(rest[j - 1] == layers[j]);
                        }
                    }
                },
            }
        }
    }
}

/// A read returns the newest write that it can see. Where the runs stand
/// newest epoch first, what a read of a key returns is a write to the key
/// that the read sees, and no write to the key that it sees is of a later
/// epoch: a later epoch shadows an earlier one. A read returns nothing only
/// if it sees no write to the key.
pub proof fn law_read_returns_newest_visible_write(
    layers: Seq<Layer>,
    key: Seq<u8>,
    after: Option<HummockEpoch>,
)
    requires
        layers_descend(layers),
    ensures
        match read_layers(layers, key, after) {
            Some(value) => exists|index: int|
                {
                    &&& 0 <= index < layers.len()
                    &&& layers[index].hit(key, after)
                    &&& value == layers[index].imm@[key]
                    &&& forall|j: int|
                        0 <= j < layers.len() && (#[trigger] layers[j]).hit(key, after) ==> layers[j].imm.spec_epoch()
                            <= layers[index].imm.spec_epoch()
                },
            None => forall|j: int| 0 <= j < layers.len() ==> !(#[trigger] layers[j]).hit(key, after),
        },
{
    lemma_first_hit(layers, key, after);
    match read_layers(layers, key, after) {
        Some(value) => {
            let index = choose|index: int|
                is_first_hit(layers, key, after, index) && value == layers[index].imm@[key];
            assert forall|j: int| 0 <= j < layers.len() && (#[trigger] layers[j]).hit(key, after) implies layers[j].imm.spec_epoch()
                <= layers[index].imm.spec_epoch() by {
                if index < j {
                    assert(layers[index].imm.spec_epoch() >= layers[j].imm.spec_epoch());
                }
            }
        },
        None => {},
    }
}

/// The staged memtables of a reader stand newest epoch first.
pub proof fn law_staged_writes_stand_newest_first(view: ReadVersionView, epoch: HummockEpoch)
    requires
        view.wf(),
    ensures
        layers_descend(imm_layers(view.imm, epoch)),
{
    let layers = imm_layers(view.imm, epoch);
    assert forall|i: int, j: int| 0 <= i < j < layers.len() implies (#[trigger] layers[i]).imm.spec_epoch() >= (
    #[trigger] layers[j]).imm.spec_epoch() by {
        assert(view.imm[i].spec_epoch() >= view.imm[j].spec_epoch());
    }
}

/// A reader sees the union of the staged and the committed writes: a read
/// of a key at an epoch is answered exactly if a staged memtable, a staged
/// file or a committed file of the table's group holds a write to the key
/// that the read can see.
pub proof fn law_reader_sees_staged_and_committed_writes(
    view: ReadVersionView,
    table_id: TableId,
    key: Seq<u8>,
    epoch: HummockEpoch,
)
    ensures
        read_layers(view.layers(table_id, epoch), key, None) is Some <==> {
            ||| exists|i: int|
                0 <= i < view.imm.len() && (#[trigger] imm_layers(view.imm, epoch)[i]).hit(key, None)
            ||| exists|i: int|
                0 <= i < files_layers(view.sst, epoch).len() && (#[trigger] files_layers(
                    view.sst,
                    epoch,
                )[i]).hit(key, None)
            ||| exists|i: int|
                0 <= i < files_layers(
                    committed_ssts(view.committed, table_id.table_id),
                    committed_bound(epoch, view.committed.max_committed_epoch),
                ).len() && (#[trigger] files_layers(
                    committed_ssts(view.committed, table_id.table_id),
                    committed_bound(epoch, view.committed.max_committed_epoch),
                )[i]).hit(key, None)
        },
{
    let staged = imm_layers(view.imm, epoch);
    let files = files_layers(view.sst, epoch);
    let committed = files_layers(
        committed_ssts(view.committed, table_id.table_id),
        committed_bound(epoch, view.committed.max_committed_epoch),
    );
    let layers = view.layers(table_id, epoch);
    lemma_read_some(layers, key, None);
    if read_layers(layers, key, None) is Some {
        let i = choose|i: int| 0 <= i < layers.len() && (#[trigger] layers[i]).hit(key, None);
        if i < staged.len() {
            assert(staged[i].hit(key, None));
        } else if i < staged.len() + files.len() {
            assert(files[i - staged.len()].hit(key, None));
        } else {
            assert(committed[i - staged.len() - files.len()].hit(key, None));
        }
    }
    if exists|i: int| 0 <= i < view.imm.len() && (#[trigger] staged[i]).hit(key, None) {
        let i = choose|i: int| 0 <= i < view.imm.len() && (#[trigger] staged[i]).hit(key, None);
        assert(layers[i].hit(key, None));
    }
    if exists|i: int| 0 <= i < files.len() && (#[trigger] files[i]).hit(key, None) {
        let i = choose|i: int| 0 <= i < files.len() && (#[trigger] files[i]).hit(key, None);
        assert(layers[staged.len() + i].hit(key, None));
    }
    if exists|i: int| 0 <= i < committed.len() && (#[trigger] committed[i]).hit(key, None) {
        let i = choose|i: int| 0 <= i < committed.len() && (#[trigger] committed[i]).hit(key, None);
        assert(layers[staged.len() + files.len() + i].hit(key, None));
    }
}

/// A commit empties the staging of what it covers: no staged memtable of
/// an epoch up to the committed epoch is left, nor a staged file that holds
/// nothing above it, and the reader is at the committed version.
pub proof fn law_commit_empties_staging(view: ReadVersionView, pinned: VersionView)
    ensures
        forall|i: int|
            0 <= i < view.commit(pinned).imm.len() ==> (#[trigger] view.commit(pinned).imm[i]).spec_epoch()
                > pinned.max_committed_epoch,
        forall|i: int|
            0 <= i < view.commit(pinned).sst.len() ==> !(#[trigger] view.commit(pinned).sst[i]).spec_covered_by(
                pinned.max_committed_epoch,
            ),
        view.commit(pinned).committed == pinned,
{
    lemma_filter_passes(
        view.imm,
        |imm: Arc<ImmutableMemtable>| imm.spec_epoch() > pinned.max_committed_epoch,
    );
    lemma_filter_passes(
        view.sst,
        |sst: Arc<SstableInfo>| !sst.spec_covered_by(pinned.max_committed_epoch),
    );
}

/// After a commit the committed epochs are read from the committed files.
/// A reader without staged files that reads at an epoch up to the committed
/// epoch gets what the committed files of the table's group hold for the
/// key at that epoch.
pub proof fn law_committed_epochs_are_read_from_committed_files(
    view: ReadVersionView,
    pinned: VersionView,
    table_id: TableId,
    key: Seq<u8>,
    epoch: HummockEpoch,
)
    requires
        epoch <= pinned.max_committed_epoch,
        view.commit(pinned).sst.len() == 0,
    ensures
        view.commit(pinned).get(table_id, key, epoch) == visible_value(
            read_layers(files_layers(committed_ssts(pinned, table_id.table_id), epoch), key, None),
        ),
{
    law_commit_empties_staging(view, pinned);
    let after = view.commit(pinned);
    let staged = imm_layers(after.imm, epoch);
    let committed = files_layers(committed_ssts(pinned, table_id.table_id), epoch);
    let layers = after.layers(table_id, epoch);
    assert(files_layers(after.sst, epoch) =~= Seq::<Layer>::empty());
    assert(layers =~= staged + committed);
    assert forall|i: int| 0 <= i < staged.len() implies !(#[trigger] layers[i]).hit(key, None) by {
        assert(after.imm[i].spec_epoch() > pinned.max_committed_epoch);
    }
    lemma_read_skip(layers, key, None, staged.len() as int);
    assert(layers.skip(staged.len() as int) =~= committed);
}

/// A commit reaches every reader and the shared buffer. After a version
/// update every registered reader is at the new version and has nothing
/// staged that the version covers; and if the committed epoch has grown, no
/// sync record up to it is left.
pub proof fn law_commit_reaches_every_reader(v: HandlerView, payload: Payload)
    requires
        v.wf(),
        check_payload(v.pinned_version, payload) == PayloadCheck::Applies,
    ensures
        v.version_update(payload).state.pinned_version == payload_result(v.pinned_version, payload),
        v.version_update(payload).state.readers.len() == v.readers.len(),
        forall|i: int|
            0 <= i < v.readers.len() ==> {
                let reader = (#[trigger] v.version_update(payload).state.readers[i]).read_version;
                &&& reader.committed == payload_result(v.pinned_version, payload)
                &&& forall|j: int|
                    0 <= j < reader.imm.len() ==> (#[trigger] reader.imm[j]).spec_epoch() > payload_result(
                        v.pinned_version,
                        payload,
                    ).max_committed_epoch
            },
        payload_result(v.pinned_version, payload).max_committed_epoch
            > v.pinned_version.max_committed_epoch ==> forall|epoch: HummockEpoch|
            epoch <= payload_result(v.pinned_version, payload).max_committed_epoch ==> !has_record(
                v.version_update(payload).state.local.syncing,
                epoch,
            ),
{
    let version = payload_result(v.pinned_version, payload);
    lemma_version_update_wf(v, payload);
    assert forall|i: int| 0 <= i < v.readers.len() implies {
        let reader = (#[trigger] v.version_update(payload).state.readers[i]).read_version;
        &&& reader.committed == version
        &&& forall|j: int|
            0 <= j < reader.imm.len() ==> (#[trigger] reader.imm[j]).spec_epoch() > version.max_committed_epoch
    } by {
        law_commit_empties_staging(v.readers[i].read_version, version);
    }
    if version.max_committed_epoch > v.pinned_version.max_committed_epoch {
        let kept = |record: SyncRecordView| record.sync_epoch > version.max_committed_epoch;
        lemma_filter_passes(v.local.syncing, kept);
        let after = v.version_update(payload).state.local.syncing;
        assert forall|epoch: HummockEpoch| epoch <= version.max_committed_epoch implies !has_record(
            after,
            epoch,
        ) by {
            if has_record(after, epoch) {
                let i = choose|i: int| 0 <= i < after.len() && (#[trigger] after[i]).sync_epoch == epoch;
                assert(kept(after[i]));
            }
        }
    }
}

/// The sync of the record has ended, and none of its memtables is being
/// uploaded.
pub open spec fn record_at_rest(record: SyncRecordView) -> bool {
    &&& record.stage == SyncStage::Synced || record.stage == SyncStage::Failed
    &&& forall|i: int| 0 <= i < record.payload.len() ==> (#[trigger] record.payload[i]).uploading is None
}

/// The end of an upload leaves a record at rest as it is.
proof fn lemma_settle_at_rest(
    record: SyncRecordView,
    task: TaskId,
    produced: Option<Seq<LocalSstableInfo>>,
)
    requires
        record_at_rest(record),
    ensures
        settle_record(record, task, produced) == record,
{
    lemma_filter_all(record.payload, BatchSelector::NotCarriedBy(task).pred());
    lemma_filter_none(record.payload, BatchSelector::CarriedBy(task).pred());
    assert(release_all(record.payload, task) =~= record.payload);
}

/// A step that starts a sync leaves every record but that of the sync as
/// it is.
proof fn lemma_spawn_sync_keeps(v: HandlerView, started: HummockEpoch, epoch: HummockEpoch)
    requires
        v.wf(),
        v.can_spawn_sync(started),
        has_record(v.local.syncing, epoch),
        record_at_rest(v.local.syncing[record_position(v.local.syncing, epoch)]),
    ensures
        v.spawn_sync(started).state.local.syncing.len() >= v.local.syncing.len(),
        v.spawn_sync(started).state.local.syncing[record_position(v.local.syncing, epoch)]
            == v.local.syncing[record_position(v.local.syncing, epoch)],
{
}

/// A record whose sync has ended is left alone. Where the sync of a record
/// has succeeded or failed and none of its memtables is being uploaded, no
/// step changes the record: after the step it is as it was, or it is gone,
/// and it goes only with a clear or with a version update.
pub proof fn law_finished_record_is_left_alone(
    v: HandlerView,
    input: HandlerInput,
    epoch: HummockEpoch,
)
    requires
        v.wf(),
        has_record(v.local.syncing, epoch),
        record_at_rest(v.local.syncing[record_position(v.local.syncing, epoch)]),
    ensures
        forall|i: int|
            0 <= i < v.step(input).state.local.syncing.len() && (#[trigger] v.step(
                input,
            ).state.local.syncing[i]).sync_epoch == epoch ==> v.step(input).state.local.syncing[i]
                == v.local.syncing[record_position(v.local.syncing, epoch)],
        !has_record(v.step(input).state.local.syncing, epoch) ==> (input matches HandlerInput::Event(
            HummockEvent::Clear(_),
        )) || (input matches HandlerInput::Event(HummockEvent::VersionUpdate(_))),
{
    let position = record_position(v.local.syncing, epoch);
    let record = v.local.syncing[position];
    let after = v.step(input).state.local.syncing;
    lemma_step_wf(v, input);
    assert forall|i: int| 0 <= i < v.local.syncing.len() && (#[trigger] v.local.syncing[i]).sync_epoch
        == epoch implies i == position by {
        lemma_record_position(v.local.syncing, i);
    }
    match input {
        HandlerInput::UploadFinished { task_id, produced } => {
            let settled = v.upload_settled(task_id, produced_view(produced)).handle_left(task_id);
            lemma_upload_settled_wf(v, task_id, produced_view(produced));
            lemma_settle_at_rest(record, task_id, produced_view(produced));
            assert(settled.local.syncing[position] == record);
            lemma_record_position(settled.local.syncing, position);
            if v.input_fault(input) is None {
                match finished_epoch(v.handles, task_id) {
                    Some(finished) => {
                        if finished <= settled.local.max_sync_epoch {
                            let other = settled.local.syncing[record_position(
                                settled.local.syncing,
                                finished,
                            )];
                            if other.stage == SyncStage::Sealed {
                                lemma_spawn_sync_keeps(settled, finished, epoch);
                            }
                        }
                    },
                    None => {},
                }
            }
            assert(after[position] == record);
            lemma_record_position(after, position);
        },
        HandlerInput::Event(event) => {
            if v.input_fault(input) is None {
                match event {
                    HummockEvent::BufferMayFlush => {
                        lemma_flush_keeps(v, v.local.unsynced.len());
                        assert(after[position] == record);
                    },
                    HummockEvent::SyncEpoch { new_sync_epoch, sync_result_sender } => {
                        lemma_insert_pending_wf(v, new_sync_epoch, sync_result_sender);
                        let registered = v.insert_pending(new_sync_epoch, sync_result_sender);
                        match prev_max_sync_epoch(v.local, new_sync_epoch) {
                            None => {},
                            Some(prev) => {
                                let range = HandlerView::sync_range(prev, new_sync_epoch);
                                lemma_implicitly_sealed_wf(registered.state, new_sync_epoch);
                                let rest = HandlerView {
                                    handles: handles_outside(v.handles, range),
                                    ..registered.state.implicitly_sealed(new_sync_epoch)
                                };
                                assert(rest.local.syncing[position] == record);
                                lemma_record_position(rest.local.syncing, position);
                                if handles_in(v.handles, range).len() == 0 {
                                    assert(registered.state.implicitly_sealed(new_sync_epoch).local
                                        == v.implicitly_sealed(new_sync_epoch).local);
                                    lemma_spawn_sync_keeps(rest, new_sync_epoch, epoch);
                                }
                            },
                        }
                        assert(after[position] == record);
                        lemma_record_position(after, position);
                    },
                    HummockEvent::Clear(notifier) => {},
                    HummockEvent::Shutdown => {},
                    HummockEvent::VersionUpdate(payload) => {
                        let version = payload_result(v.pinned_version, payload);
                        if version.max_committed_epoch > v.pinned_version.max_committed_epoch {
                            let kept = |record: SyncRecordView|
                                record.sync_epoch > version.max_committed_epoch;
                            assert forall|i: int| 0 <= i < after.len() && (#[trigger] after[i]).sync_epoch
                                == epoch implies after[i] == record by {
                                lemma_filter_membership(v.local.syncing, kept, after[i]);
                                assert(after.contains(after[i]));
                                let j = choose|j: int|
                                    0 <= j < v.local.syncing.len() && v.local.syncing[j] == after[i];
                                assert(v.local.syncing[j].sync_epoch == epoch);
                            }
                        }
                    },
                    HummockEvent::ImmToUploader(imm) => {},
                    HummockEvent::SealEpoch { epoch: sealed, is_checkpoint } => {
                        assert(after[position] == record);
                        lemma_record_position(after, position);
                    },
                    HummockEvent::RegisterHummockInstance { table_id, instance_id, sync_result_sender } => {},
                    HummockEvent::DestroyHummockInstance { table_id, instance_id } => {},
                }
            }
        },
        HandlerInput::ChannelClosed => {},
    }
}

/// The sync of an epoch that has no record yet uploads what is buffered up
/// to the epoch: every unsynced memtable of an epoch up to it that no
/// upload carries, in the order in which the memtables came.
pub proof fn law_sync_uploads_the_buffered_epochs(local: LocalVersionView, epoch: HummockEpoch)
    requires
        local.wf(),
        !has_record(local.syncing, epoch),
        epoch > local.max_sync_epoch,
    ensures
        local.sync_payload(epoch) == memtables_of(
            select(select(local.unsynced, BatchSelector::EpochUpTo(epoch)), BatchSelector::Idle),
        ),
{
    lemma_seal_bytes(local, epoch, true);
}

/// Two rows of runs that hold the same memtables, place by place, and
/// answer a read at the same places, answer it alike.
proof fn lemma_read_alike(a: Seq<Layer>, b: Seq<Layer>, key: Seq<u8>, after: Option<HummockEpoch>)
    requires
        a.len() == b.len(),
        forall|i: int|
            0 <= i < a.len() ==> (#[trigger] a[i]).imm == b[i].imm && a[i].hit(key, after) == b[i].hit(
                key,
                after,
            ),
    ensures
        read_layers(a, key, after) == read_layers(b, key, after),
    decreases a.len(),
{
    if a.len() > 0 {
        assert(a[0].imm == b[0].imm && a[0].hit(key, after) == b[0].hit(key, after));
        assert forall|i: int| 0 <= i < a.drop_first().len() implies (#[trigger] a.drop_first()[i]).imm
            == b.drop_first()[i].imm && a.drop_first()[i].hit(key, after) == b.drop_first()[i].hit(
            key,
            after,
        ) by {
            assert(a[i + 1].imm == b[i + 1].imm);
        }
        lemma_read_alike(a.drop_first(), b.drop_first(), key, after);
    }
}

/// The runs of files do not depend on the bound up to which they are seen.
proof fn lemma_files_layers_bound(files: Seq<Arc<SstableInfo>>, one: HummockEpoch, other: HummockEpoch)
    ensures
        files_layers(files, one).len() == files_layers(files, other).len(),
        forall|i: int|
            0 <= i < files_layers(files, one).len() ==> {
                &&& (#[trigger] files_layers(files, one)[i]).imm == files_layers(files, other)[i].imm
                &&& files_layers(files, one)[i].file == files_layers(files, other)[i].file
                &&& files_layers(files, one)[i].up_to == one
                &&& files_layers(files, other)[i].up_to == other
            },
    decreases files.len(),
{
    if files.len() > 0 {
        lemma_files_layers_bound(files.drop_last(), one, other);
    }
}

/// The runs of a file in front of others are the runs of the file, then
/// those of the others.
proof fn lemma_files_layers_front(file: Arc<SstableInfo>, rest: Seq<Arc<SstableInfo>>, up_to: HummockEpoch)
    ensures
        files_layers(seq![file] + rest, up_to) == file_layers(file, up_to) + files_layers(rest, up_to),
    decreases rest.len(),
{
    let all = seq![file] + rest;
    assert(files_layers(all, up_to) == files_layers(all.drop_last(), up_to) + file_layers(
        all.last(),
        up_to,
    ));
    if rest.len() == 0 {
        assert(all.drop_last() =~= Seq::<Arc<SstableInfo>>::empty());
        assert(all.last() == file);
        assert(files_layers(all.drop_last(), up_to) =~= Seq::<Layer>::empty());
        assert(files_layers(rest, up_to) =~= Seq::<Layer>::empty());
        assert(Seq::<Layer>::empty() + file_layers(file, up_to) =~= file_layers(file, up_to)
            + Seq::<Layer>::empty());
    } else {
        lemma_files_layers_front(file, rest.drop_last(), up_to);
        assert(all.drop_last() =~= seq![file] + rest.drop_last());
        assert(all.last() == rest.last());
        assert(files_layers(rest, up_to) == files_layers(rest.drop_last(), up_to) + file_layers(
            rest.last(),
            up_to,
        ));
        assert((file_layers(file, up_to) + files_layers(rest.drop_last(), up_to)) + file_layers(
            rest.last(),
            up_to,
        ) =~= file_layers(file, up_to) + (files_layers(rest.drop_last(), up_to) + file_layers(
            rest.last(),
            up_to,
        )));
    }
}

/// A sorted file answers as the memtables that it holds. Where its key
/// range covers the keys of its runs, a read of a key in the file gets what
/// the read would get from the runs as staged memtables.
pub proof fn law_file_reads_like_its_memtables(
    file: Arc<SstableInfo>,
    up_to: HummockEpoch,
    key: Seq<u8>,
    after: Option<HummockEpoch>,
)
    requires
        file_covers(*file),
    ensures
        read_layers(file_layers(file, up_to), key, after) == read_layers(
            imm_layers(file.batches@, up_to),
            key,
            after,
        ),
{
    let a = file_layers(file, up_to);
    let b = imm_layers(file.batches@, up_to);
    assert forall|i: int| 0 <= i < a.len() implies (#[trigger] a[i]).imm == b[i].imm && a[i].hit(key, after)
        == b[i].hit(key, after) by {
        if file.batches@[i]@.contains_key(key) {
            assert(a[i].spec_admits(key));
        }
    }
    lemma_read_alike(a, b, key, after);
}

/// Sync and commit do not change what a reader reads. Take a reader
/// without staged files whose staged memtables went into one sorted file,
/// in their order, with a key range that covers them. Let a version be
/// committed that covers the epochs of those memtables and has the file in
/// front of the files that were committed for the table before, none of
/// which holds an epoch above the committed epoch of its time. Then the
/// staging of the reader is empty, and a read at the new committed epoch or
/// later gets from the committed files what it got before.
pub proof fn law_sync_and_commit_keep_reads(
    view: ReadVersionView,
    pinned: VersionView,
    file: Arc<SstableInfo>,
    table_id: TableId,
    key: Seq<u8>,
    epoch: HummockEpoch,
)
    requires
        view.sst.len() == 0,
        file_covers(*file),
        file.batches@ == view.imm,
        forall|i: int| 0 <= i < view.imm.len() ==> (#[trigger] view.imm[i]).spec_epoch() <= pinned.max_committed_epoch,
        view.committed.max_committed_epoch <= pinned.max_committed_epoch <= epoch,
        committed_ssts(pinned, table_id.table_id) == seq![file] + committed_ssts(
            view.committed,
            table_id.table_id,
        ),
        forall|i: int|
            0 <= i < files_layers(
                committed_ssts(view.committed, table_id.table_id),
                view.committed.max_committed_epoch,
            ).len() ==> (#[trigger] files_layers(
                committed_ssts(view.committed, table_id.table_id),
                view.committed.max_committed_epoch,
            )[i]).imm.spec_epoch() <= view.committed.max_committed_epoch,
    ensures
        view.commit(pinned).imm.len() == 0,
        view.commit(pinned).sst.len() == 0,
        view.commit(pinned).get(table_id, key, epoch) == view.get(table_id, key, epoch),
{
    let old_files = committed_ssts(view.committed, table_id.table_id);
    let old_bound = view.committed.max_committed_epoch;
    let new_bound = pinned.max_committed_epoch;
    let after_view = view.commit(pinned);
    lemma_filter_none(view.imm, |imm: Arc<ImmutableMemtable>| imm.spec_epoch() > new_bound);
    lemma_filter_none(view.sst, |sst: Arc<SstableInfo>| !sst.spec_covered_by(new_bound));
    lemma_files_layers_front(file, old_files, new_bound);
    lemma_files_layers_bound(old_files, old_bound, new_bound);
    let before = view.layers(table_id, epoch);
    let after = after_view.layers(table_id, epoch);
    let staged = imm_layers(view.imm, epoch);
    let old_layers = files_layers(old_files, old_bound);
    let new_layers = files_layers(old_files, new_bound);
    assert(files_layers(view.sst, epoch) =~= Seq::<Layer>::empty());
    assert(before =~= staged + old_layers);
    assert(after =~= file_layers(file, new_bound) + new_layers);
    assert forall|i: int| 0 <= i < before.len() implies (#[trigger] before[i]).imm == after[i].imm
        && before[i].hit(key, None) == after[i].hit(key, None) by {
        if i < staged.len() {
            assert(view.imm[i].spec_epoch() <= new_bound);
            if view.imm[i]@.contains_key(key) {
                assert(file.batches@[i]@.contains_key(key));
                assert(after[i].spec_admits(key));
            }
        } else {
            let j = i - staged.len();
            assert(before[i] == old_layers[j]);
            assert(after[i] == new_layers[j]);
            assert(old_layers[j].imm.spec_epoch() <= old_bound);
        }
    }
    lemma_read_alike(before, after, key, None);
}

/// The run at `index` answers a read of `key`, and no run that answers it
/// is of a later epoch.
pub open spec fn is_newest_hit(
    layers: Seq<Layer>,
    key: Seq<u8>,
    after: Option<HummockEpoch>,
    index: int,
) -> bool {
    &&& 0 <= index < layers.len()
    &&& layers[index].hit(key, after)
    &&& forall|j: int|
        0 <= j < layers.len() && (#[trigger] layers[j]).hit(key, after) ==> layers[j].imm.spec_epoch()
            <= layers[index].imm.spec_epoch()
}

/// The committed files of the table stand in order: their runs newest
/// epoch first, and none of an epoch above the committed epoch.
pub open spec fn committed_in_order(version: VersionView, table_id: u32) -> bool {
    let layers = files_layers(committed_ssts(version, table_id), version.max_committed_epoch);
    &&& layers_descend(layers)
    &&& forall|i: int|
        0 <= i < layers.len() ==> (#[trigger] layers[i]).imm.spec_epoch() <= version.max_committed_epoch
}

/// A reader reads the newest write that it can see. Take any well-formed
/// state of the handler, any registered reader, and a table whose committed
/// files stand in order. Then the runs that the reader looks into stand
/// newest epoch first, staged and committed ones together; so what a read
/// of a key at an epoch returns is a write to the key of an epoch up to the
/// read epoch, and no such write that the reader holds, staged or
/// committed, is of a later epoch. A read returns nothing only if there is
/// no such write, or the newest is a delete.
pub proof fn law_reader_reads_the_newest_write(
    v: HandlerView,
    reader: int,
    table_id: TableId,
    key: Seq<u8>,
    epoch: HummockEpoch,
)
    requires
        v.wf(),
        0 <= reader < v.readers.len(),
        committed_in_order(v.pinned_version, table_id.table_id),
    ensures
        layers_descend(v.readers[reader].read_version.layers(table_id, epoch)),
        v.readers[reader].read_version.get(table_id, key, epoch) == visible_value(
            read_layers(v.readers[reader].read_version.layers(table_id, epoch), key, None),
        ),
        match read_layers(v.readers[reader].read_version.layers(table_id, epoch), key, None) {
            Some(value) => exists|index: int|
                {
                    &&& #[trigger] is_newest_hit(
                        v.readers[reader].read_version.layers(table_id, epoch),
                        key,
                        None,
                        index,
                    )
                    &&& value == v.readers[reader].read_version.layers(table_id, epoch)[index].imm@[key]
                    &&& v.readers[reader].read_version.layers(
                        table_id,
                        epoch,
                    )[index].imm.spec_epoch() <= epoch
                },
            None => forall|j: int|
                0 <= j < v.readers[reader].read_version.layers(table_id, epoch).len() ==> !(
                #[trigger] v.readers[reader].read_version.layers(table_id, epoch)[j]).hit(key, None),
        },
{
    let view = v.readers[reader].read_version;
    assert(view.wf() && view.committed == v.pinned_version && view.staged_above_committed());
    let committed_epoch = view.committed.max_committed_epoch;
    let files = committed_ssts(view.committed, table_id.table_id);
    let bound = committed_bound(epoch, committed_epoch);
    lemma_files_layers_bound(files, committed_epoch, bound);
    let staged = imm_layers(view.imm, epoch);
    let committed = files_layers(files, bound);
    let in_order = files_layers(files, committed_epoch);
    let layers = view.layers(table_id, epoch);
    assert(files_layers(view.sst, epoch) =~= Seq::<Layer>::empty());
    assert(layers =~= staged + committed);
    assert forall|i: int, j: int| 0 <= i < j < layers.len() implies (#[trigger] layers[i]).imm.spec_epoch() >= (
    #[trigger] layers[j]).imm.spec_epoch() by {
        if j < staged.len() {
            assert(view.imm[i].spec_epoch() >= view.imm[j].spec_epoch());
        } else if i < staged.len() {
            assert(view.imm[i].spec_epoch() > committed_epoch);
            assert(committed[j - staged.len()].imm == in_order[j - staged.len()].imm);
            assert(in_order[j - staged.len()].imm.spec_epoch() <= committed_epoch);
        } else {
            assert(committed[i - staged.len()].imm == in_order[i - staged.len()].imm);
            assert(committed[j - staged.len()].imm == in_order[j - staged.len()].imm);
            assert(in_order[i - staged.len()].imm.spec_epoch() >= in_order[j - staged.len()].imm.spec_epoch());
        }
    }
    law_read_returns_newest_visible_write(layers, key, None);
    match read_layers(layers, key, None) {
        Some(value) => {
            let index = choose|index: int|
                {
                    &&& 0 <= index < layers.len()
                    &&& layers[index].hit(key, None)
                    &&& value == layers[index].imm@[key]
                    &&& forall|j: int|
                        0 <= j < layers.len() && (#[trigger] layers[j]).hit(key, None) ==> layers[j].imm.spec_epoch()
                            <= layers[index].imm.spec_epoch()
                };
            if index < staged.len() {
                assert(layers[index].up_to == epoch);
            } else {
                assert(layers[index] == committed[index - staged.len()]);
                assert(committed[index - staged.len()].up_to == bound);
            }
            assert(is_newest_hit(layers, key, None, index));
        },
        None => {},
    }
}

/// The round trip of a write. Let a reader of a well-formed handler have
/// staged memtables that went into one sorted file, in their order, with a
/// key range that covers them, as a sync makes it. Let a version update
/// arrive that commits them: its version covers their epochs and has the
/// file in front of the files that were committed for the table, which
/// stood in order. After the update the reader has nothing staged, and a
/// read at the committed epoch or later gets from the committed files what
/// it got from the staging before.
pub proof fn law_round_trip(
    v: HandlerView,
    payload: Payload,
    reader: int,
    file: Arc<SstableInfo>,
    table_id: TableId,
    key: Seq<u8>,
    epoch: HummockEpoch,
)
    requires
        v.wf(),
        check_payload(v.pinned_version, payload) == PayloadCheck::Applies,
        0 <= reader < v.readers.len(),
        file_covers(*file),
        file.batches@ == v.readers[reader].read_version.imm,
        forall|i: int|
            0 <= i < v.readers[reader].read_version.imm.len() ==> (
            #[trigger] v.readers[reader].read_version.imm[i]).spec_epoch() <= payload_result(
                v.pinned_version,
                payload,
            ).max_committed_epoch,
        payload_result(v.pinned_version, payload).max_committed_epoch <= epoch,
        committed_ssts(payload_result(v.pinned_version, payload), table_id.table_id) == seq![file]
            + committed_ssts(v.pinned_version, table_id.table_id),
        committed_in_order(v.pinned_version, table_id.table_id),
    ensures
        v.version_update(payload).state.wf(),
        v.version_update(payload).state.readers[reader].read_version.imm.len() == 0,
        v.version_update(payload).state.readers[reader].read_version.sst.len() == 0,
        v.version_update(payload).state.readers[reader].read_version.get(table_id, key, epoch)
            == v.readers[reader].read_version.get(table_id, key, epoch),
        v.version_update(payload).state.readers[reader].read_version.get(table_id, key, epoch)
            == visible_value(
            read_layers(
                files_layers(
                    committed_ssts(payload_result(v.pinned_version, payload), table_id.table_id),
                    payload_result(v.pinned_version, payload).max_committed_epoch,
                ),
                key,
                None,
            ),
        ),
{
    let version = payload_result(v.pinned_version, payload);
    let view = v.readers[reader].read_version;
    lemma_version_update_wf(v, payload);
    assert(view.committed == v.pinned_version && view.staged_above_committed());
    assert(v.version_update(payload).state.readers[reader].read_version == view.commit(version));
    law_sync_and_commit_keep_reads(view, version, file, table_id, key, epoch);
    let after = view.commit(version);
    let committed = files_layers(committed_ssts(version, table_id.table_id), version.max_committed_epoch);
    assert(imm_layers(after.imm, epoch) =~= Seq::<Layer>::empty());
    assert(files_layers(after.sst, epoch) =~= Seq::<Layer>::empty());
    assert(after.layers(table_id, epoch) =~= committed);
}

} // verus!
