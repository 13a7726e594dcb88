use std::sync::Arc;

use hummock_event_handler::buffer_tracker::{BufferTracker, StorageConfig};
use hummock_event_handler::error::HummockError;
use hummock_event_handler::event::{
    HandlerAction, HandlerFault, HandlerInput, HummockEvent, SyncResult,
};
use hummock_event_handler::event_handler::HummockEventHandler;
use hummock_event_handler::local_version::SyncStage;
use hummock_event_handler::memtable::{HummockValue, ImmutableMemtable, TableId};
use hummock_event_handler::read_version::{ReadOptions, WriteOptions};
use hummock_event_handler::version::{
    CompactionGroup, HummockVersion, KeyRange, LocalSstableInfo, Payload, PinnedVersion,
    SstableInfo, VersionDelta,
};

const GROUP: u64 = 2;
const INSTANCE: u64 = 7;

fn table() -> TableId {
    TableId { table_id: 0 }
}

fn version(id: u64, max_committed_epoch: u64) -> Arc<HummockVersion> {
    Arc::new(HummockVersion {
        id,
        max_committed_epoch,
        groups: vec![CompactionGroup { group_id: GROUP, member_table_ids: vec![0], ssts: vec![] }],
    })
}

fn handler_with_capacity(shared_buffer_capacity_mb: u32) -> HummockEventHandler {
    let config = StorageConfig {
        shared_buffer_capacity_mb,
        sstable_id_remote_fetch_number: 10,
        write_conflict_detection_enabled: false,
    };
    let mut handler = HummockEventHandler::new(
        BufferTracker::from_storage_config(&config),
        PinnedVersion::new(version(1, 0)),
        &config,
    );
    send(
        &mut handler,
        HummockEvent::RegisterHummockInstance {
            table_id: table(),
            instance_id: INSTANCE,
            sync_result_sender: 0,
        },
    );
    handler
}

fn handler() -> HummockEventHandler {
    handler_with_capacity(1)
}

fn send(handler: &mut HummockEventHandler, event: HummockEvent) -> Vec<HandlerAction> {
    handler.step(HandlerInput::Event(event)).unwrap().actions
}

fn fault(handler: &mut HummockEventHandler, event: HummockEvent) -> HandlerFault {
    handler.step(HandlerInput::Event(event)).unwrap_err()
}

fn finish(handler: &mut HummockEventHandler, task_id: u64, produced: Option<Vec<LocalSstableInfo>>) -> Vec<HandlerAction> {
    handler.step(HandlerInput::UploadFinished { task_id, produced }).unwrap().actions
}

fn ingest(handler: &mut HummockEventHandler, key: &[u8], value_len: usize, epoch: u64) -> Vec<HandlerAction> {
    handler
        .ingest_batch(
            INSTANCE,
            vec![(key.to_vec(), HummockValue::Put(vec![1u8; value_len]))],
            WriteOptions { epoch, table_id: table() },
        )
        .unwrap()
        .actions
}

fn file(id: u64, batches: Vec<Arc<ImmutableMemtable>>) -> LocalSstableInfo {
    LocalSstableInfo {
        compaction_group_id: GROUP,
        sst: Arc::new(SstableInfo {
            id,
            key_range: Some(KeyRange { left: vec![], right: vec![255; 8] }),
            batches,
        }),
    }
}

fn sync_and_seal(handler: &mut HummockEventHandler, epoch: u64, sender: u64) -> Vec<HandlerAction> {
    send(handler, HummockEvent::SealEpoch { epoch, is_checkpoint: true });
    send(handler, HummockEvent::SyncEpoch { new_sync_epoch: epoch, sync_result_sender: sender })
}

fn sync_task_of(actions: &[HandlerAction]) -> (u64, Vec<Arc<ImmutableMemtable>>, usize) {
    for action in actions {
        if let HandlerAction::SpawnSyncTask { task_id, payload, sync_size, .. } = action {
            return (*task_id, payload.clone(), *sync_size);
        }
    }
    panic!("no sync task among {:?}", actions);
}

fn flush_task_of(actions: &[HandlerAction]) -> (u64, u64, Arc<ImmutableMemtable>) {
    for action in actions {
        if let HandlerAction::SpawnFlushTask { task_id, epoch, payload } = action {
            return (*task_id, *epoch, payload.clone());
        }
    }
    panic!("no flush task among {:?}", actions);
}

fn reply_of(actions: &[HandlerAction], to: u64) -> &Result<SyncResult, HummockError> {
    let mut found = None;
    for action in actions {
        if let HandlerAction::SendSyncResult { sender, result } = action {
            if *sender == to {
                assert!(found.is_none(), "two replies to {}", to);
                found = Some(result);
            }
        }
    }
    found.unwrap()
}

fn error_of(actions: &[HandlerAction], to: u64) -> HummockError {
    *reply_of(actions, to).as_ref().unwrap_err()
}

#[test]
fn new_handler_starts_at_the_pinned_version() {
    let config = StorageConfig::default();
    let handler = HummockEventHandler::new(
        BufferTracker::from_storage_config(&config),
        PinnedVersion::new(version(4, 9)),
        &config,
    );
    assert_eq!(handler.sealed_epoch(), 9);
    assert_eq!(handler.version_update_notifier_tx(), 9);
    assert_eq!(handler.pinned_version().id(), 4);
    assert_eq!(handler.pinned_version().max_committed_epoch(), 9);
    assert!(handler.read_version_mapping().is_empty());
    assert_eq!(handler.buffer_tracker().get_buffer_size(), 0);
    assert_eq!(handler.local_version.get_max_sync_epoch(), 9);
}

#[test]
fn small_write_starts_no_flush() {
    let mut handler = handler();
    let actions = ingest(&mut handler, b"k", 10, 1);
    assert!(actions.is_empty());
    assert_eq!(handler.buffer_tracker().get_buffer_size(), 12);
    assert_eq!(handler.buffer_tracker().global_upload_task_size(), 0);
    assert!(!handler.buffer_tracker().need_more_flush());
}

#[test]
fn write_above_threshold_flushes_oldest_first() {
    let mut handler = handler();
    // 1 MiB of capacity: the threshold is 838860 bytes.
    assert_eq!(handler.buffer_tracker().flush_threshold, 838860);
    assert!(ingest(&mut handler, b"a", 400_000, 2).is_empty());
    assert!(ingest(&mut handler, b"b", 400_000, 1).is_empty());
    let actions = ingest(&mut handler, b"c", 100_000, 3);
    // 900_006 bytes are buffered. The oldest memtable is that of epoch 1;
    // with it in flight 500_004 bytes are left, which is within the
    // threshold.
    assert_eq!(actions.len(), 1);
    let (task_id, epoch, payload) = flush_task_of(&actions);
    assert_eq!(epoch, 1);
    assert_eq!(payload.size(), 400_002);
    assert_eq!(handler.buffer_tracker().get_buffer_size(), 900_006);
    assert_eq!(handler.buffer_tracker().global_upload_task_size(), 400_002);
    assert!(!handler.buffer_tracker().need_more_flush());
    assert_eq!(handler.upload_handle_manager.handles.len(), 1);

    // The flush ends: its bytes leave the buffer and are in flight no more.
    let actions = finish(&mut handler, task_id, Some(vec![file(100, vec![payload])]));
    assert!(actions.is_empty());
    assert_eq!(handler.buffer_tracker().get_buffer_size(), 500_004);
    assert_eq!(handler.buffer_tracker().global_upload_task_size(), 0);
    assert!(handler.buffer_tracker().get_buffer_size() <= handler.buffer_tracker().flush_threshold);
    assert_eq!(handler.local_version.unsynced.len(), 2);
    assert_eq!(handler.local_version.unsynced_ssts.len(), 1);
    assert!(handler.upload_handle_manager.is_empty());
}

#[test]
fn failed_flush_keeps_the_memtable() {
    let mut handler = handler();
    let actions = ingest(&mut handler, b"a", 900_000, 1);
    let (task_id, _, _) = flush_task_of(&actions);
    assert_eq!(handler.buffer_tracker().global_upload_task_size(), 900_002);
    let actions = finish(&mut handler, task_id, None);
    assert!(actions.is_empty());
    assert_eq!(handler.buffer_tracker().get_buffer_size(), 900_002);
    assert_eq!(handler.buffer_tracker().global_upload_task_size(), 0);
    assert!(handler.local_version.unsynced[0].uploading.is_none());
    // The next hint flushes it again.
    let actions = send(&mut handler, HummockEvent::BufferMayFlush);
    assert_eq!(flush_task_of(&actions).0, task_id + 1);
}

#[test]
fn write_beyond_capacity_is_refused() {
    let mut handler = handler();
    ingest(&mut handler, b"a", 10, 1);
    let result = handler.ingest_batch(
        INSTANCE,
        vec![(b"b".to_vec(), HummockValue::Put(vec![0u8; 1_048_576]))],
        WriteOptions { epoch: 1, table_id: table() },
    );
    assert_eq!(result.unwrap_err(), HummockError::OutOfCapacity);
    assert_eq!(handler.buffer_tracker().get_buffer_size(), 12);
    assert_eq!(handler.local_version.unsynced.len(), 1);
    assert_eq!(handler.read_version_mapping()[0].read_version.staging().imm.len(), 1);
}

#[test]
fn write_fills_the_capacity_exactly() {
    let mut handler = handler();
    // 1 + 1 + 1_048_574 bytes: all of 1 MiB.
    let result = handler.ingest_batch(
        INSTANCE,
        vec![(b"b".to_vec(), HummockValue::Put(vec![0u8; 1_048_574]))],
        WriteOptions { epoch: 1, table_id: table() },
    );
    assert!(result.is_ok());
    assert_eq!(handler.buffer_tracker().get_buffer_size(), 1_048_576);
}

#[test]
fn write_to_a_sealed_checkpoint_is_stale() {
    let mut handler = handler();
    send(&mut handler, HummockEvent::SealEpoch { epoch: 5, is_checkpoint: true });
    for epoch in [4, 5] {
        let result = handler.ingest_batch(
            INSTANCE,
            vec![(b"a".to_vec(), HummockValue::Delete)],
            WriteOptions { epoch, table_id: table() },
        );
        assert_eq!(result.unwrap_err(), HummockError::SyncStale);
    }
    assert!(handler
        .ingest_batch(
            INSTANCE,
            vec![(b"a".to_vec(), HummockValue::Delete)],
            WriteOptions { epoch: 6, table_id: table() },
        )
        .is_ok());
}

#[test]
fn seal_without_checkpoint_only_marks_the_epoch() {
    let mut handler = handler();
    ingest(&mut handler, b"a", 1, 1);
    assert!(send(&mut handler, HummockEvent::SealEpoch { epoch: 1, is_checkpoint: false }).is_empty());
    assert_eq!(handler.sealed_epoch(), 1);
    assert_eq!(handler.local_version.get_max_sync_epoch(), 0);
    assert_eq!(handler.local_version.unsynced.len(), 1);
    assert!(handler.local_version.syncing.is_empty());
}

#[test]
fn checkpoint_seal_moves_memtables_into_a_record() {
    let mut handler = handler();
    ingest(&mut handler, b"a", 1, 1);
    ingest(&mut handler, b"b", 1, 2);
    ingest(&mut handler, b"c", 1, 3);
    send(&mut handler, HummockEvent::SealEpoch { epoch: 2, is_checkpoint: true });
    assert_eq!(handler.sealed_epoch(), 2);
    assert_eq!(handler.local_version.get_max_sync_epoch(), 2);
    assert_eq!(handler.local_version.unsynced.len(), 1);
    assert_eq!(handler.local_version.unsynced[0].imm.epoch(), 3);
    assert_eq!(handler.local_version.syncing.len(), 1);
    assert_eq!(handler.local_version.syncing[0].sync_epoch, 2);
    assert_eq!(handler.local_version.syncing[0].stage, SyncStage::Sealed);
    assert_eq!(handler.local_version.syncing[0].payload.len(), 2);
    assert_eq!(handler.buffer_tracker().get_buffer_size(), 9);
}

#[test]
fn sync_uploads_the_sealed_payload_and_replies_once() {
    let mut handler = handler();
    ingest(&mut handler, b"a", 1, 1);
    ingest(&mut handler, b"b", 2, 2);
    let actions = sync_and_seal(&mut handler, 2, 41);
    assert_eq!(actions.len(), 1);
    let (task_id, payload, sync_size) = sync_task_of(&actions);
    assert_eq!(payload.len(), 2);
    assert_eq!(payload[0].epoch(), 1);
    assert_eq!(payload[1].epoch(), 2);
    assert_eq!(sync_size, 3 + 4);
    assert_eq!(handler.local_version.stage(2), Some(SyncStage::Syncing(task_id)));
    assert_eq!(handler.buffer_tracker().global_upload_task_size(), 7);

    let actions = finish(&mut handler, task_id, Some(vec![file(100, payload)]));
    assert_eq!(actions.len(), 1);
    let result = reply_of(&actions, 41).as_ref().unwrap();
    assert_eq!(result.sync_size, 7);
    assert_eq!(result.uncommitted_ssts.len(), 1);
    assert_eq!(result.uncommitted_ssts[0].sst.id, 100);
    assert!(handler.pending_sync_requests.is_empty());
    assert_eq!(handler.local_version.stage(2), Some(SyncStage::Synced));
    assert_eq!(handler.buffer_tracker().get_buffer_size(), 0);
    assert_eq!(handler.buffer_tracker().global_upload_task_size(), 0);
}

#[test]
fn sync_of_an_unsealed_epoch_seals_it() {
    let mut handler = handler();
    ingest(&mut handler, b"a", 1, 3);
    let actions = send(&mut handler, HummockEvent::SyncEpoch { new_sync_epoch: 3, sync_result_sender: 1 });
    let (task_id, payload, _) = sync_task_of(&actions);
    assert_eq!(payload.len(), 1);
    assert_eq!(handler.local_version.get_max_sync_epoch(), 3);
    assert_eq!(handler.local_version.stage(3), Some(SyncStage::Syncing(task_id)));
    // A later checkpoint seal at that epoch or below is refused.
    assert_eq!(
        fault(&mut handler, HummockEvent::SealEpoch { epoch: 3, is_checkpoint: true }),
        HandlerFault::SealEpochNotAdvancing
    );
    assert_eq!(
        fault(&mut handler, HummockEvent::SealEpoch { epoch: 2, is_checkpoint: true }),
        HandlerFault::SealEpochNotAdvancing
    );
    // So is a seal without checkpoint.
    for epoch in [3, 2, 0] {
        assert_eq!(
            fault(&mut handler, HummockEvent::SealEpoch { epoch, is_checkpoint: false }),
            HandlerFault::SealEpochNotAdvancing
        );
    }
    assert_eq!(handler.sealed_epoch(), 3);
    assert_eq!(handler.local_version.get_max_sync_epoch(), 3);
    assert_eq!(handler.local_version.syncing.len(), 1);
    assert!(send(&mut handler, HummockEvent::SealEpoch { epoch: 4, is_checkpoint: false }).is_empty());
    assert_eq!(handler.sealed_epoch(), 4);
}

#[test]
fn seal_at_or_below_a_checkpoint_is_refused() {
    let mut handler = handler();
    ingest(&mut handler, b"a", 1, 6);
    send(&mut handler, HummockEvent::SealEpoch { epoch: 4, is_checkpoint: false });
    send(&mut handler, HummockEvent::SealEpoch { epoch: 5, is_checkpoint: true });
    assert_eq!(handler.sealed_epoch(), 5);
    for is_checkpoint in [false, true] {
        for epoch in [5, 4, 1] {
            assert_eq!(
                fault(&mut handler, HummockEvent::SealEpoch { epoch, is_checkpoint }),
                HandlerFault::SealEpochNotAdvancing
            );
        }
    }
    assert_eq!(handler.sealed_epoch(), 5);
    assert_eq!(handler.local_version.get_max_sync_epoch(), 5);
    assert_eq!(handler.local_version.syncing.len(), 1);
    assert_eq!(handler.local_version.unsynced.len(), 1);
}

#[test]
fn sync_of_an_unsealed_epoch_seals_it_while_flushes_are_under_way() {
    let mut handler = handler();
    let actions = ingest(&mut handler, b"a", 900_000, 1);
    let (flush_task, _, flushed) = flush_task_of(&actions);
    ingest(&mut handler, b"b", 5, 2);

    // Nobody has sealed epoch 2. The request seals it, takes over the handle
    // of the flush and waits.
    let actions = send(&mut handler, HummockEvent::SyncEpoch { new_sync_epoch: 2, sync_result_sender: 9 });
    assert!(actions.is_empty());
    assert_eq!(handler.local_version.get_max_sync_epoch(), 2);
    assert_eq!(handler.sealed_epoch(), 2);
    assert_eq!(handler.local_version.stage(2), Some(SyncStage::Sealed));
    assert_eq!(handler.local_version.syncing[0].payload.len(), 2);
    assert!(handler.local_version.unsynced.is_empty());
    assert_eq!(handler.upload_handle_manager.handles.len(), 1);
    assert_eq!(handler.upload_handle_manager.handles[0].epoch, 2);

    // The flush ends on a sealed record: the sync starts, and its result
    // reaches the requester.
    let actions = finish(&mut handler, flush_task, Some(vec![file(100, vec![flushed])]));
    let (sync_task, payload, _) = sync_task_of(&actions);
    assert_eq!(payload.len(), 1);
    let actions = finish(&mut handler, sync_task, Some(vec![file(101, payload)]));
    let result = reply_of(&actions, 9).as_ref().unwrap();
    assert_eq!(result.uncommitted_ssts.len(), 2);
    assert!(handler.pending_sync_requests.is_empty());
}

#[test]
fn stale_sync_is_answered_at_once() {
    let config = StorageConfig::default();
    let mut handler = HummockEventHandler::new(
        BufferTracker::from_storage_config(&config),
        PinnedVersion::new(version(1, 10)),
        &config,
    );
    let actions = send(&mut handler, HummockEvent::SyncEpoch { new_sync_epoch: 10, sync_result_sender: 3 });
    assert_eq!(actions.len(), 1);
    assert_eq!(error_of(&actions, 3), HummockError::SyncStale);
    assert!(handler.pending_sync_requests.is_empty());
    assert!(handler.local_version.syncing.is_empty());
}

#[test]
fn second_request_overwrites_the_first() {
    let mut handler = handler();
    ingest(&mut handler, b"a", 1, 1);
    let actions = sync_and_seal(&mut handler, 1, 11);
    let (task_id, payload, _) = sync_task_of(&actions);

    // Before the upload ends, the epoch is asked for again.
    let actions = send(&mut handler, HummockEvent::SyncEpoch { new_sync_epoch: 1, sync_result_sender: 12 });
    assert_eq!(actions.len(), 1);
    assert_eq!(error_of(&actions, 11), HummockError::SyncOverwritten);
    assert_eq!(handler.pending_sync_requests.len(), 1);
    assert_eq!(handler.pending_sync_requests[0].sender, 12);

    let actions = finish(&mut handler, task_id, Some(vec![file(100, payload)]));
    assert_eq!(actions.len(), 1);
    assert!(reply_of(&actions, 12).is_ok());
    assert!(handler.pending_sync_requests.is_empty());
}

#[test]
fn failed_sync_is_reported_and_stays_until_cleared() {
    let mut handler = handler();
    ingest(&mut handler, b"a", 1, 1);
    let actions = sync_and_seal(&mut handler, 1, 5);
    let (task_id, _, _) = sync_task_of(&actions);
    let actions = finish(&mut handler, task_id, None);
    assert_eq!(error_of(&actions, 5), HummockError::SyncTaskFailed);
    assert_eq!(handler.local_version.stage(1), Some(SyncStage::Failed));
    // The memtable is still accounted, and in flight no more.
    assert_eq!(handler.buffer_tracker().get_buffer_size(), 3);
    assert_eq!(handler.buffer_tracker().global_upload_task_size(), 0);
    send(&mut handler, HummockEvent::Clear(1));
    assert!(handler.local_version.syncing.is_empty());
    assert_eq!(handler.buffer_tracker().get_buffer_size(), 0);
}

#[test]
fn sync_waits_for_flushes_of_its_epochs() {
    let mut handler = handler();
    let actions = ingest(&mut handler, b"a", 900_000, 1);
    let (flush_task, epoch, flushed) = flush_task_of(&actions);
    assert_eq!(epoch, 1);
    ingest(&mut handler, b"b", 5, 2);

    // The flush is under way: the sync of epoch 2 takes its handle over and
    // waits.
    let actions = sync_and_seal(&mut handler, 2, 30);
    assert!(actions.is_empty());
    assert_eq!(handler.upload_handle_manager.handles.len(), 1);
    assert_eq!(handler.upload_handle_manager.handles[0].epoch, 2);
    assert_eq!(handler.upload_handle_manager.handles[0].task_id, flush_task);
    assert_eq!(handler.local_version.stage(2), Some(SyncStage::Sealed));

    // The flush ends: now the sync starts, with what is not uploaded yet.
    let actions = finish(&mut handler, flush_task, Some(vec![file(100, vec![flushed])]));
    let (sync_task, payload, sync_size) = sync_task_of(&actions);
    assert_eq!(payload.len(), 1);
    assert_eq!(payload[0].epoch(), 2);
    assert_eq!(sync_size, 7);

    // The result holds the file of the flush and the file of the sync.
    let actions = finish(&mut handler, sync_task, Some(vec![file(101, payload)]));
    let result = reply_of(&actions, 30).as_ref().unwrap();
    let ids: Vec<u64> = result.uncommitted_ssts.iter().map(|local| local.sst.id).collect();
    assert_eq!(ids, vec![100, 101]);
    assert_eq!(result.sync_size, 7);
}

#[test]
fn flush_of_an_unsealed_epoch_ends_silently() {
    let mut handler = handler();
    let actions = ingest(&mut handler, b"a", 900_000, 4);
    let (task, _, flushed) = flush_task_of(&actions);
    assert!(finish(&mut handler, task, Some(vec![file(100, vec![flushed])])).is_empty());
    // The file waits for the sync of its epoch.
    let actions = sync_and_seal(&mut handler, 4, 1);
    let (sync_task, payload, sync_size) = sync_task_of(&actions);
    assert!(payload.is_empty());
    assert_eq!(sync_size, 0);
    let actions = finish(&mut handler, sync_task, Some(vec![]));
    let result = reply_of(&actions, 1).as_ref().unwrap();
    assert_eq!(result.uncommitted_ssts.len(), 1);
    assert_eq!(result.uncommitted_ssts[0].sst.id, 100);
}

#[test]
fn clear_answers_every_waiter_and_frees_the_memory() {
    let mut handler = handler();
    ingest(&mut handler, b"a", 100, 1);
    let first = sync_and_seal(&mut handler, 1, 21);
    ingest(&mut handler, b"b", 100, 2);
    let second = sync_and_seal(&mut handler, 2, 22);
    ingest(&mut handler, b"c", 100, 3);
    let (task1, _, _) = sync_task_of(&first);
    let (task2, _, _) = sync_task_of(&second);
    assert_eq!(handler.buffer_tracker().get_buffer_size(), 306);

    let actions = send(&mut handler, HummockEvent::Clear(99));
    assert_eq!(actions.len(), 5);
    match &actions[0] {
        HandlerAction::AwaitUploads { tasks } => assert_eq!(tasks, &vec![task1, task2]),
        other => panic!("unexpected {:?}", other),
    }
    match (&actions[1], &actions[2]) {
        (
            HandlerAction::SendSyncResult { sender: 21, result: Err(HummockError::SyncCleared) },
            HandlerAction::SendSyncResult { sender: 22, result: Err(HummockError::SyncCleared) },
        ) => {}
        other => panic!("unexpected {:?}", other),
    }
    assert!(matches!(actions[3], HandlerAction::RemoveWatermarkSstId { epoch: u64::MAX }));
    assert!(matches!(actions[4], HandlerAction::NotifyCleared { notifier: 99 }));

    assert_eq!(handler.buffer_tracker().get_buffer_size(), 0);
    assert_eq!(handler.buffer_tracker().global_upload_task_size(), 0);
    assert!(handler.local_version.unsynced.is_empty());
    assert!(handler.local_version.syncing.is_empty());
    assert!(handler.pending_sync_requests.is_empty());
    assert!(handler.upload_handle_manager.is_empty());

    // An upload that ends after the clear changes nothing.
    assert!(finish(&mut handler, task1, Some(vec![file(100, vec![])])).is_empty());
    assert_eq!(handler.buffer_tracker().get_buffer_size(), 0);
    assert!(handler.local_version.unsynced_ssts.is_empty());
}

#[test]
fn committed_epoch_never_goes_back() {
    let mut handler = handler();
    let mut observed = vec![handler.version_update_notifier_tx()];
    let actions = send(&mut handler, HummockEvent::VersionUpdate(Payload::PinnedVersion(version(2, 5))));
    assert!(matches!(actions[0], HandlerAction::NotifyVersionUpdate { max_committed_epoch: 5 }));
    assert!(matches!(actions[1], HandlerAction::RemoveWatermarkSstId { epoch: 5 }));
    assert_eq!(actions.len(), 2);
    observed.push(handler.version_update_notifier_tx());

    // A newer version with the same committed epoch: nobody is notified.
    let actions = send(&mut handler, HummockEvent::VersionUpdate(Payload::PinnedVersion(version(3, 5))));
    assert_eq!(actions.len(), 1);
    assert!(matches!(actions[0], HandlerAction::RemoveWatermarkSstId { epoch: 5 }));
    observed.push(handler.version_update_notifier_tx());

    // A version that would take the committed epoch back is not applied.
    assert_eq!(
        fault(&mut handler, HummockEvent::VersionUpdate(Payload::PinnedVersion(version(4, 4)))),
        HandlerFault::Storage(HummockError::VersionDeltaMismatch)
    );
    observed.push(handler.version_update_notifier_tx());

    let delta = VersionDelta { prev_id: 3, id: 4, max_committed_epoch: 8, inserted: vec![], removed_sst_ids: vec![] };
    send(&mut handler, HummockEvent::VersionUpdate(Payload::VersionDeltas(vec![delta])));
    observed.push(handler.version_update_notifier_tx());

    assert_eq!(observed, vec![0, 5, 5, 5, 8]);
    assert_eq!(handler.pinned_version().id(), 4);
    let reader = &handler.read_version_mapping()[0].read_version;
    assert_eq!(reader.committed().max_committed_epoch(), 8);
    assert_eq!(handler.local_version.pinned_version().max_committed_epoch(), 8);
}

#[test]
fn conflict_detector_gets_the_watermark_when_enabled() {
    let config = StorageConfig {
        shared_buffer_capacity_mb: 1,
        sstable_id_remote_fetch_number: 10,
        write_conflict_detection_enabled: true,
    };
    let mut handler = HummockEventHandler::new(
        BufferTracker::from_storage_config(&config),
        PinnedVersion::new(version(1, 0)),
        &config,
    );
    let actions = send(&mut handler, HummockEvent::VersionUpdate(Payload::PinnedVersion(version(2, 3))));
    assert_eq!(actions.len(), 3);
    assert!(matches!(actions[0], HandlerAction::NotifyVersionUpdate { max_committed_epoch: 3 }));
    assert!(matches!(actions[1], HandlerAction::SetConflictWatermark { epoch: 3 }));
    assert!(matches!(actions[2], HandlerAction::RemoveWatermarkSstId { epoch: 3 }));
}

#[test]
fn delta_that_does_not_follow_is_a_fault() {
    let mut handler = handler();
    let delta = VersionDelta { prev_id: 7, id: 8, max_committed_epoch: 1, inserted: vec![], removed_sst_ids: vec![] };
    assert_eq!(
        fault(&mut handler, HummockEvent::VersionUpdate(Payload::VersionDeltas(vec![delta]))),
        HandlerFault::Storage(HummockError::VersionDeltaMismatch)
    );
    assert_eq!(handler.pinned_version().id(), 1);
}

#[test]
fn file_without_key_range_is_a_fault() {
    let mut handler = handler();
    let inserted = vec![LocalSstableInfo {
        compaction_group_id: GROUP,
        sst: Arc::new(SstableInfo { id: 1, key_range: None, batches: vec![] }),
    }];
    let delta = VersionDelta { prev_id: 1, id: 2, max_committed_epoch: 1, inserted, removed_sst_ids: vec![] };
    assert_eq!(
        fault(&mut handler, HummockEvent::VersionUpdate(Payload::VersionDeltas(vec![delta]))),
        HandlerFault::Storage(HummockError::KeyRangeInvalid)
    );
    assert_eq!(handler.pinned_version().id(), 1);
}

#[test]
fn commit_evicts_the_records_it_covers() {
    let mut handler = handler();
    for epoch in 1..=3u64 {
        ingest(&mut handler, b"a", 10, epoch);
        let actions = sync_and_seal(&mut handler, epoch, epoch);
        let (task, payload, _) = sync_task_of(&actions);
        finish(&mut handler, task, Some(vec![file(100 + epoch, payload)]));
    }
    assert_eq!(handler.local_version.syncing.len(), 3);
    assert_eq!(handler.read_version_mapping()[0].read_version.staging().imm.len(), 3);
    send(&mut handler, HummockEvent::VersionUpdate(Payload::PinnedVersion(version(2, 2))));
    assert_eq!(handler.local_version.syncing.len(), 1);
    assert_eq!(handler.local_version.syncing[0].sync_epoch, 3);
    let staging = handler.read_version_mapping()[0].read_version.staging();
    assert_eq!(staging.imm.len(), 1);
    assert_eq!(staging.imm[0].epoch(), 3);
}

#[test]
fn register_and_destroy_instances() {
    let mut handler = handler();
    let actions = send(
        &mut handler,
        HummockEvent::RegisterHummockInstance {
            table_id: TableId { table_id: 3 },
            instance_id: 1,
            sync_result_sender: 55,
        },
    );
    assert_eq!(actions.len(), 1);
    match &actions[0] {
        HandlerAction::InstanceRegistered { table_id, instance_id, sender } => {
            assert_eq!((table_id.table_id, *instance_id, *sender), (3, 1, 55));
        }
        other => panic!("unexpected {:?}", other),
    }
    assert_eq!(handler.read_version_mapping().len(), 2);
    assert_eq!(handler.reader_index(TableId { table_id: 3 }, 1), Some(1));

    assert_eq!(
        fault(
            &mut handler,
            HummockEvent::DestroyHummockInstance { table_id: TableId { table_id: 3 }, instance_id: 2 }
        ),
        HandlerFault::InstanceNotRegistered
    );
    send(&mut handler, HummockEvent::DestroyHummockInstance { table_id: TableId { table_id: 3 }, instance_id: 1 });
    assert_eq!(handler.read_version_mapping().len(), 1);
    assert_eq!(handler.reader_index(TableId { table_id: 3 }, 1), None);
}

#[test]
fn reader_registered_later_sees_the_committed_version() {
    let mut handler = handler();
    send(&mut handler, HummockEvent::VersionUpdate(Payload::PinnedVersion(version(2, 6))));
    send(
        &mut handler,
        HummockEvent::RegisterHummockInstance { table_id: table(), instance_id: 8, sync_result_sender: 0 },
    );
    let index = handler.reader_index(table(), 8).unwrap();
    assert_eq!(handler.read_version_mapping()[index].read_version.committed().max_committed_epoch(), 6);
    let options =
        ReadOptions { table_id: table(), retention_seconds: None, check_bloom_filter: false, prefix_hint: None };
    assert_eq!(handler.get(8, &b"k".to_vec(), 6, &options), None);
}

#[test]
fn memtable_that_was_not_reserved_is_a_fault() {
    let mut handler = handler();
    let imm = Arc::new(ImmutableMemtable::build(vec![(b"a".to_vec(), HummockValue::Delete)], 1, table()).unwrap());
    assert_eq!(fault(&mut handler, HummockEvent::ImmToUploader(imm.clone())), HandlerFault::MemoryNotReserved);
    // Once its bytes are reserved it is taken.
    assert!(handler.buffer_tracker.global_buffer.try_acquire(imm.size() as u64));
    assert!(send(&mut handler, HummockEvent::ImmToUploader(imm)).is_empty());
    assert_eq!(handler.local_version.unsynced.len(), 1);
}

#[test]
fn sync_of_a_synced_epoch_is_a_fault() {
    let mut handler = handler();
    ingest(&mut handler, b"a", 1, 1);
    let actions = sync_and_seal(&mut handler, 1, 1);
    let (task, payload, _) = sync_task_of(&actions);
    finish(&mut handler, task, Some(vec![file(100, payload)]));
    assert_eq!(
        fault(&mut handler, HummockEvent::SyncEpoch { new_sync_epoch: 1, sync_result_sender: 2 }),
        HandlerFault::SyncNotSealed
    );
    assert!(handler.pending_sync_requests.is_empty());
}

#[test]
fn sync_between_sync_epochs_is_a_fault() {
    let mut handler = handler();
    send(&mut handler, HummockEvent::SealEpoch { epoch: 5, is_checkpoint: true });
    assert_eq!(
        fault(&mut handler, HummockEvent::SyncEpoch { new_sync_epoch: 3, sync_result_sender: 2 }),
        HandlerFault::SyncRecordMissing
    );
}

#[test]
fn result_without_a_request_is_a_fault() {
    let mut handler = handler();
    let actions = ingest(&mut handler, b"a", 900_000, 1);
    let (flush_task, _, flushed) = flush_task_of(&actions);
    send(&mut handler, HummockEvent::SealEpoch { epoch: 1, is_checkpoint: true });
    // The flush ends on a sealed epoch: its sync starts by itself.
    let actions = finish(&mut handler, flush_task, Some(vec![file(100, vec![flushed])]));
    let (sync_task, _, _) = sync_task_of(&actions);
    // The sync ends and nobody has asked for it.
    let outcome = handler.step(HandlerInput::UploadFinished { task_id: sync_task, produced: Some(vec![]) });
    assert_eq!(outcome.unwrap_err(), HandlerFault::NoPendingSyncRequest);
    assert_eq!(handler.local_version.stage(1), Some(SyncStage::Synced));
}

#[test]
fn uploads_that_end_on_a_syncing_record_are_a_fault() {
    let mut handler = handler();
    ingest(&mut handler, b"a", 1, 1);
    let actions = sync_and_seal(&mut handler, 1, 1);
    let (sync_task, _, _) = sync_task_of(&actions);
    // A handle that belongs to no upload of the record ends on its epoch.
    handler.upload_handle_manager.handles.clear();
    handler.upload_handle_manager.add_epoch_handle(1, vec![77]);
    let outcome = handler.step(HandlerInput::UploadFinished { task_id: 77, produced: None });
    assert_eq!(outcome.unwrap_err(), HandlerFault::SyncStillRunning);
    assert_eq!(handler.local_version.stage(1), Some(SyncStage::Syncing(sync_task)));
}

#[test]
fn no_task_id_left_is_a_fault() {
    let mut handler = handler();
    ingest(&mut handler, b"a", 1, 1);
    handler.next_task_id = u64::MAX;
    assert_eq!(fault(&mut handler, HummockEvent::BufferMayFlush), HandlerFault::TaskIdsExhausted);
    send(&mut handler, HummockEvent::SealEpoch { epoch: 1, is_checkpoint: true });
    assert_eq!(
        fault(&mut handler, HummockEvent::SyncEpoch { new_sync_epoch: 1, sync_result_sender: 1 }),
        HandlerFault::TaskIdsExhausted
    );
}

#[test]
fn shutdown_and_closed_channel_end_the_loop() {
    let mut handler = handler();
    let output = handler.step(HandlerInput::Event(HummockEvent::Shutdown)).unwrap();
    assert!(output.shutdown && output.actions.is_empty());
    let output = handler.step(HandlerInput::ChannelClosed).unwrap();
    assert!(output.shutdown && output.actions.is_empty());
    let output = handler.step(HandlerInput::Event(HummockEvent::BufferMayFlush)).unwrap();
    assert!(!output.shutdown);
}

#[test]
fn every_request_gets_exactly_one_reply() {
    let mut handler = handler();
    let mut all: Vec<HandlerAction> = vec![];
    ingest(&mut handler, b"a", 1, 1);
    let actions = sync_and_seal(&mut handler, 1, 1);
    let (task1, payload1, _) = sync_task_of(&actions);
    all.extend(actions);
    all.extend(send(&mut handler, HummockEvent::SyncEpoch { new_sync_epoch: 1, sync_result_sender: 2 }));
    all.extend(send(&mut handler, HummockEvent::SyncEpoch { new_sync_epoch: 1, sync_result_sender: 3 }));
    all.extend(finish(&mut handler, task1, Some(vec![file(100, payload1)])));
    all.extend(send(&mut handler, HummockEvent::SyncEpoch { new_sync_epoch: 0, sync_result_sender: 4 }));
    ingest(&mut handler, b"b", 1, 2);
    all.extend(sync_and_seal(&mut handler, 2, 5));
    all.extend(send(&mut handler, HummockEvent::Clear(0)));
    assert_eq!(error_of(&all, 1), HummockError::SyncOverwritten);
    assert_eq!(error_of(&all, 2), HummockError::SyncOverwritten);
    assert!(reply_of(&all, 3).is_ok());
    assert_eq!(error_of(&all, 4), HummockError::SyncStale);
    assert_eq!(error_of(&all, 5), HummockError::SyncCleared);
    assert!(handler.pending_sync_requests.is_empty());
}

#[test]
fn debug_strings_of_events() {
    assert_eq!(HummockEvent::BufferMayFlush.to_debug_string(), "BufferMayFlush");
    assert_eq!(
        HummockEvent::SyncEpoch { new_sync_epoch: 2031616000, sync_result_sender: 1 }.to_debug_string(),
        "SyncEpoch epoch 2031616000 "
    );
    assert_eq!(HummockEvent::Clear(3).to_debug_string(), "Clear");
    assert_eq!(HummockEvent::Shutdown.to_debug_string(), "Shutdown");
    assert_eq!(
        HummockEvent::VersionUpdate(Payload::PinnedVersion(version(12, 340))).to_debug_string(),
        "VersionUpdate PinnedVersion { id: 12, max_committed_epoch: 340 }"
    );
    assert_eq!(
        HummockEvent::VersionUpdate(Payload::VersionDeltas(vec![])).to_debug_string(),
        "VersionUpdate VersionDeltas { len: 0 }"
    );
    let imm = ImmutableMemtable::build(vec![(b"ab".to_vec(), HummockValue::Put(b"xyz".to_vec()))], 9, table());
    assert_eq!(
        HummockEvent::ImmToUploader(Arc::new(imm.unwrap())).to_debug_string(),
        "ImmToUploader ImmutableMemtable { epoch: 9, table_id: 0, size: 6 }"
    );
    assert_eq!(
        HummockEvent::SealEpoch { epoch: 0, is_checkpoint: true }.to_debug_string(),
        "SealEpoch epoch 0 is_checkpoint true"
    );
    assert_eq!(
        HummockEvent::SealEpoch { epoch: u64::MAX, is_checkpoint: false }.to_debug_string(),
        "SealEpoch epoch 18446744073709551615 is_checkpoint false"
    );
    assert_eq!(
        HummockEvent::RegisterHummockInstance {
            table_id: TableId { table_id: 10 },
            instance_id: 205,
            sync_result_sender: 1
        }
        .to_debug_string(),
        "RegisterHummockInstance table_id TableId { table_id: 10 } instance_id 205"
    );
    assert_eq!(
        HummockEvent::DestroyHummockInstance { table_id: TableId { table_id: 1 }, instance_id: 99 }
            .to_debug_string(),
        "DestroyHummockInstance table_id TableId { table_id: 1 } instance_id 99"
    );
    assert_eq!(
        format!("{:?}", TableId { table_id: 10 }),
        "TableId { table_id: 10 }"
    );
}

#[test]
fn worker_runs_until_shutdown() {
    let inputs = vec![
        HandlerInput::Event(HummockEvent::SealEpoch { epoch: 1, is_checkpoint: false }),
        HandlerInput::Event(HummockEvent::RegisterHummockInstance {
            table_id: TableId { table_id: 2 },
            instance_id: 1,
            sync_result_sender: 8,
        }),
        HandlerInput::Event(HummockEvent::Shutdown),
        HandlerInput::Event(HummockEvent::SealEpoch { epoch: 2, is_checkpoint: false }),
    ];
    let run = handler().start_hummock_event_handler_worker(inputs);
    assert_eq!(run.handled, 3);
    assert_eq!(run.fault, None);
    assert_eq!(run.actions.len(), 1);
    assert!(matches!(run.actions[0], HandlerAction::InstanceRegistered { sender: 8, .. }));
    assert_eq!(run.handler.sealed_epoch(), 1);
    assert_eq!(run.handler.read_version_mapping().len(), 2);
}

#[test]
fn worker_stops_at_a_fault() {
    let inputs = vec![
        HandlerInput::Event(HummockEvent::SealEpoch { epoch: 4, is_checkpoint: true }),
        HandlerInput::Event(HummockEvent::SealEpoch { epoch: 4, is_checkpoint: true }),
        HandlerInput::Event(HummockEvent::SealEpoch { epoch: 5, is_checkpoint: true }),
    ];
    let run = handler().start_hummock_event_handler_worker(inputs);
    assert_eq!(run.handled, 2);
    assert_eq!(run.fault, Some(HandlerFault::SealEpochNotAdvancing));
    assert_eq!(run.handler.local_version.get_max_sync_epoch(), 4);
}

#[test]
fn worker_takes_every_input_and_collects_the_actions() {
    let inputs = vec![
        HandlerInput::Event(HummockEvent::SyncEpoch { new_sync_epoch: 0, sync_result_sender: 1 }),
        HandlerInput::UploadFinished { task_id: 9, produced: None },
        HandlerInput::Event(HummockEvent::Clear(2)),
    ];
    let run = handler().start_hummock_event_handler_worker(inputs);
    assert_eq!(run.handled, 3);
    assert_eq!(run.fault, None);
    assert_eq!(error_of(&run.actions, 1), HummockError::SyncStale);
    assert_eq!(run.actions.len(), 4);
    assert!(matches!(run.actions[3], HandlerAction::NotifyCleared { notifier: 2 }));
    let run = run.handler.start_hummock_event_handler_worker(vec![HandlerInput::ChannelClosed]);
    assert_eq!((run.handled, run.fault, run.actions.len()), (1, None, 0));
    let run = run.handler.start_hummock_event_handler_worker(vec![]);
    assert_eq!((run.handled, run.fault), (0, None));
}

#[test]
fn finished_record_is_left_alone_by_later_steps() {
    let mut handler = handler();
    ingest(&mut handler, b"a", 1, 1);
    let actions = sync_and_seal(&mut handler, 1, 1);
    let (task, payload, _) = sync_task_of(&actions);
    finish(&mut handler, task, Some(vec![file(100, payload)]));
    let snapshot = |handler: &HummockEventHandler| {
        let record = &handler.local_version.syncing[0];
        (record.sync_epoch, record.stage, record.payload.len(), record.ssts.len(), record.sync_size)
    };
    let before = snapshot(&handler);
    assert_eq!(before, (1, SyncStage::Synced, 0, 1, 3));
    ingest(&mut handler, b"b", 900_000, 2);
    send(&mut handler, HummockEvent::BufferMayFlush);
    finish(&mut handler, task, None);
    finish(&mut handler, 444, Some(vec![file(101, vec![])]));
    sync_and_seal(&mut handler, 2, 2);
    send(&mut handler, HummockEvent::VersionUpdate(Payload::PinnedVersion(version(2, 0))));
    assert_eq!(snapshot(&handler), before);
    send(&mut handler, HummockEvent::VersionUpdate(Payload::PinnedVersion(version(3, 1))));
    assert_eq!(handler.local_version.stage(1), None);
}

#[test]
fn stage_batch_reserves_and_stages_without_buffering() {
    let mut handler = handler();
    let imm = handler
        .stage_batch(
            INSTANCE,
            vec![(b"k".to_vec(), HummockValue::Put(b"v".to_vec()))],
            WriteOptions { epoch: 1, table_id: table() },
        )
        .unwrap();
    assert_eq!(imm.size(), 3);
    assert_eq!(handler.buffer_tracker().get_buffer_size(), 3);
    assert!(handler.local_version.unsynced.is_empty());
    assert_eq!(handler.read_version_mapping()[0].read_version.staging().imm.len(), 1);
    // The memtable arrives with its bytes reserved.
    assert!(send(&mut handler, HummockEvent::ImmToUploader(imm)).is_empty());
    assert_eq!(handler.local_version.unsynced.len(), 1);
    assert_eq!(handler.local_version.buffer_size(), 3);
}

#[test]
fn write_to_a_committed_epoch_is_stale() {
    let mut handler = handler();
    send(&mut handler, HummockEvent::VersionUpdate(Payload::PinnedVersion(version(2, 6))));
    assert_eq!(handler.local_version.get_max_sync_epoch(), 0);
    for epoch in [1, 6] {
        let result = handler.ingest_batch(
            INSTANCE,
            vec![(b"a".to_vec(), HummockValue::Delete)],
            WriteOptions { epoch, table_id: table() },
        );
        assert_eq!(result.unwrap_err(), HummockError::SyncStale);
    }
    assert!(handler.local_version.unsynced.is_empty());
    assert_eq!(handler.buffer_tracker().get_buffer_size(), 0);
    assert!(ingest(&mut handler, b"a", 1, 7).is_empty());
    assert_eq!(handler.read_version_mapping()[0].read_version.staging().imm[0].epoch(), 7);
}

#[test]
fn need_for_flush_stays_down_until_the_next_write() {
    let mut handler = handler();
    let actions = ingest(&mut handler, b"a", 900_000, 1);
    let (task, _, flushed) = flush_task_of(&actions);
    assert!(!handler.buffer_tracker().need_more_flush());
    send(&mut handler, HummockEvent::SealEpoch { epoch: 1, is_checkpoint: false });
    assert!(!handler.buffer_tracker().need_more_flush());
    send(&mut handler, HummockEvent::BufferMayFlush);
    assert!(!handler.buffer_tracker().need_more_flush());
    finish(&mut handler, task, Some(vec![file(100, vec![flushed])]));
    assert!(!handler.buffer_tracker().need_more_flush());
    assert_eq!(handler.buffer_tracker().get_buffer_size(), 0);
    // The failure of an upload can bring the need back.
    let actions = ingest(&mut handler, b"b", 900_000, 2);
    let (task, _, _) = flush_task_of(&actions);
    finish(&mut handler, task, None);
    assert!(handler.buffer_tracker().need_more_flush());
}
