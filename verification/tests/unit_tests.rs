use std::sync::Arc;

use hummock_event_handler::buffer_tracker::{BufferTracker, StorageConfig};
use hummock_event_handler::key::{compare_keys, KeyOrder};
use hummock_event_handler::local_version::{LocalVersion, SyncStage};
use hummock_event_handler::memory::MemoryLimiter;
use hummock_event_handler::memtable::{HummockValue, ImmutableMemtable, TableId};
use hummock_event_handler::opts::CompactionTestOpts;
use hummock_event_handler::read_version::{
    gen_min_epoch, HummockReadVersion, StagingData, VersionUpdate,
};
use hummock_event_handler::test_utils::{message, prefixed_key};
use hummock_event_handler::upload_handle_manager::{EpochRange, UploadHandleManager};
use hummock_event_handler::version::{
    CompactionGroup, HummockVersion, KeyRange, LocalSstableInfo, Payload, PayloadCheck,
    PinnedVersion, SstableInfo, VersionDelta,
};

fn table() -> TableId {
    TableId { table_id: 0 }
}

fn memtable(keys: &[&str], epoch: u64) -> Arc<ImmutableMemtable> {
    let items = keys.iter().map(|key| (key.as_bytes().to_vec(), HummockValue::Put(vec![7]))).collect();
    Arc::new(ImmutableMemtable::build(items, epoch, table()).unwrap())
}

fn sst(id: u64, batches: Vec<Arc<ImmutableMemtable>>) -> Arc<SstableInfo> {
    Arc::new(SstableInfo { id, key_range: Some(KeyRange { left: vec![], right: vec![255] }), batches })
}

fn pinned(id: u64, max_committed_epoch: u64) -> PinnedVersion {
    PinnedVersion::new(Arc::new(HummockVersion { id, max_committed_epoch, groups: vec![] }))
}

#[test]
fn keys_compare_lexicographically() {
    let order = |a: &[u8], b: &[u8]| compare_keys(&a.to_vec(), &b.to_vec());
    assert_eq!(order(b"", b""), KeyOrder::Equal);
    assert_eq!(order(b"", b"a"), KeyOrder::Less);
    assert_eq!(order(b"a", b""), KeyOrder::Greater);
    assert_eq!(order(b"ab", b"abc"), KeyOrder::Less);
    assert_eq!(order(b"abd", b"abc"), KeyOrder::Greater);
    assert_eq!(order(b"b", b"abc"), KeyOrder::Greater);
    assert_eq!(order(b"abc", b"abc"), KeyOrder::Equal);
    assert_eq!(order(&[0, 255], &[1, 0]), KeyOrder::Less);
}

#[test]
fn memtable_keeps_the_last_write_of_a_key() {
    let items = vec![
        (b"b".to_vec(), HummockValue::Put(b"1".to_vec())),
        (b"a".to_vec(), HummockValue::Put(b"2".to_vec())),
        (b"b".to_vec(), HummockValue::Delete),
        (b"c".to_vec(), HummockValue::Put(b"33".to_vec())),
        (b"a".to_vec(), HummockValue::Put(b"4444".to_vec())),
    ];
    let imm = ImmutableMemtable::build(items, 3, TableId { table_id: 5 }).unwrap();
    assert_eq!(imm.epoch(), 3);
    assert_eq!(imm.table_id(), TableId { table_id: 5 });
    let keys: Vec<&[u8]> = imm.entries().iter().map(|entry| entry.key.as_slice()).collect();
    assert_eq!(keys, vec![b"a" as &[u8], b"b", b"c"]);
    assert_eq!(imm.get(&b"a".to_vec()), Some(HummockValue::Put(b"4444".to_vec())));
    assert_eq!(imm.get(&b"b".to_vec()), Some(HummockValue::Delete));
    assert_eq!(imm.get(&b"c".to_vec()), Some(HummockValue::Put(b"33".to_vec())));
    assert_eq!(imm.get(&b"d".to_vec()), None);
    // a: 1 + 1 + 4, b: 1 + 1, c: 1 + 1 + 2
    assert_eq!(imm.size(), 12);
}

#[test]
fn memtable_sizes_of_the_sync_batches() {
    let put = |key: &[u8], value: &[u8]| (prefixed_key(key), HummockValue::Put(value.to_vec()));
    let batch = vec![put(b"cccc", b"3333"), put(b"dddd", b"4444"), put(b"eeee", b"5555")];
    assert_eq!(ImmutableMemtable::build(batch, 1, table()).unwrap().size(), 39);
    assert_eq!(ImmutableMemtable::build(vec![put(b"eeee", b"6666")], 1, table()).unwrap().size(), 13);
    assert_eq!(ImmutableMemtable::build(vec![], 1, table()).unwrap().size(), 0);
}

#[test]
fn prefixed_key_puts_the_table_id_in_front() {
    assert_eq!(prefixed_key(b"aa"), vec![0, 0, 0, 0, b'a', b'a']);
    assert_eq!(prefixed_key(b""), vec![0, 0, 0, 0]);
}

#[test]
fn channel_messages() {
    assert_eq!(message::<u8, &str>(None), Ok(None));
    assert_eq!(message::<u8, &str>(Some(Ok(3))), Ok(Some(3)));
    assert_eq!(message::<u8, &str>(Some(Err("gone"))), Err("gone"));
}

#[test]
fn limiter_grants_up_to_its_capacity() {
    let mut limiter = MemoryLimiter::new(10);
    assert_eq!(limiter.get_capacity(), 10);
    assert!(limiter.try_acquire(4));
    assert!(limiter.try_acquire(6));
    assert_eq!(limiter.get_memory_usage(), 10);
    assert!(!limiter.try_acquire(1));
    assert_eq!(limiter.get_memory_usage(), 10);
    assert!(limiter.try_acquire(0));
    limiter.release(6);
    assert_eq!(limiter.get_memory_usage(), 4);
    assert!(!limiter.try_acquire(7));
    assert!(limiter.try_acquire(6));
}

#[test]
fn tracker_of_the_default_config() {
    let config = StorageConfig::default();
    assert_eq!(config.shared_buffer_capacity_mb, 1024);
    assert_eq!(config.sstable_id_remote_fetch_number, 10);
    assert!(!config.write_conflict_detection_enabled);
    let tracker = BufferTracker::from_storage_config(&config);
    assert_eq!(tracker.get_memory_limiter().get_capacity(), 1_073_741_824);
    assert_eq!(tracker.flush_threshold, 858_993_459);
    assert_eq!(tracker.get_buffer_size(), 0);
    assert_eq!(tracker.global_upload_task_size(), 0);
    assert!(!tracker.need_more_flush());
}

#[test]
fn tracker_needs_flush_above_four_fifths() {
    let config = StorageConfig {
        shared_buffer_capacity_mb: 1,
        sstable_id_remote_fetch_number: 1,
        write_conflict_detection_enabled: false,
    };
    let mut tracker = BufferTracker::from_storage_config(&config);
    assert_eq!(tracker.flush_threshold, 838_860);
    assert!(tracker.global_buffer.try_acquire(838_860));
    assert!(!tracker.need_more_flush());
    assert!(tracker.global_buffer.try_acquire(1));
    assert!(tracker.need_more_flush());
    tracker.global_upload_task_size = 1;
    assert!(!tracker.need_more_flush());
    let empty = BufferTracker::from_storage_config(&StorageConfig {
        shared_buffer_capacity_mb: 0,
        sstable_id_remote_fetch_number: 1,
        write_conflict_detection_enabled: false,
    });
    assert_eq!(empty.flush_threshold, 0);
    assert_eq!(empty.get_memory_limiter().get_capacity(), 0);
}

#[test]
fn upload_handles_by_epoch() {
    let mut manager = UploadHandleManager::new();
    assert!(manager.is_empty());
    manager.add_epoch_handle(1, vec![10, 11]);
    manager.add_epoch_handle(2, vec![20]);
    manager.add_epoch_handle(3, vec![30]);
    assert!(manager.has_epoch(2));
    assert!(!manager.has_epoch(4));
    assert!(manager.has_handle_in(EpochRange { after: Some(1), up_to: 2 }));
    assert!(!manager.has_handle_in(EpochRange { after: Some(3), up_to: 9 }));

    // The epoch is emitted when its last handle ends.
    assert_eq!(manager.finish_handle(10), None);
    assert_eq!(manager.finish_handle(10), None);
    assert_eq!(manager.finish_handle(11), Some(1));
    assert_eq!(manager.finish_handle(11), None);
    assert!(!manager.has_epoch(1));

    // (1, 3] holds the epochs 2 and 3.
    let drained = manager.drain_epoch_handle(EpochRange { after: Some(1), up_to: 3 });
    assert_eq!(drained, vec![20, 30]);
    assert!(manager.is_empty());
    manager.add_epoch_handle(3, drained);
    assert_eq!(manager.finish_handle(30), None);
    assert_eq!(manager.finish_handle(20), Some(3));

    manager.add_epoch_handle(u64::MAX, vec![1]);
    manager.add_epoch_handle(0, vec![2]);
    assert_eq!(manager.drain_epoch_handle(EpochRange { after: Some(0), up_to: 5 }), Vec::<u64>::new());
    assert_eq!(manager.drain_epoch_handle(EpochRange::all()), vec![1, 2]);
}

#[test]
fn epoch_ranges() {
    let range = EpochRange { after: Some(3), up_to: 5 };
    assert!(!range.contains(3));
    assert!(range.contains(4));
    assert!(range.contains(5));
    assert!(!range.contains(6));
    assert!(EpochRange::all().contains(0));
    assert!(EpochRange::all().contains(u64::MAX));
}

#[test]
fn local_version_prev_max_sync_epoch() {
    let mut local = LocalVersion::new(pinned(1, 10));
    assert_eq!(local.get_max_sync_epoch(), 10);
    assert_eq!(local.get_prev_max_sync_epoch(10), None);
    assert_eq!(local.get_prev_max_sync_epoch(7), None);
    assert_eq!(local.get_prev_max_sync_epoch(11), Some(10));
    local.seal_epoch(12, true);
    local.seal_epoch(15, true);
    assert_eq!(local.get_prev_max_sync_epoch(12), Some(10));
    assert_eq!(local.get_prev_max_sync_epoch(13), Some(12));
    assert_eq!(local.get_prev_max_sync_epoch(15), Some(12));
    assert_eq!(local.get_prev_max_sync_epoch(16), Some(15));
    assert_eq!(local.stage(12), Some(SyncStage::Sealed));
    assert_eq!(local.stage(13), None);
    assert_eq!(local.record_index(15), Some(1));

    // Once the records are committed away, the fallback is the committed
    // epoch of the start; a stale epoch is judged by the current one.
    local.apply_committed(pinned(2, 15));
    assert!(local.syncing.is_empty());
    assert_eq!(local.get_prev_max_sync_epoch(15), None);
    assert_eq!(local.get_prev_max_sync_epoch(16), Some(10));
}

#[test]
fn local_version_seal_sync_and_settle() {
    let mut local = LocalVersion::new(pinned(1, 0));
    local.write_shared_buffer_batch(memtable(&["a"], 1));
    local.write_shared_buffer_batch(memtable(&["b", "c"], 3));
    local.write_shared_buffer_batch(memtable(&["d"], 2));
    assert_eq!(local.buffer_size(), 3 + 6 + 3);

    // The oldest memtable is flushed first.
    let (epoch, flushed) = local.flush_shared_buffer(50).unwrap();
    assert_eq!((epoch, flushed.size()), (1, 3));
    let (epoch, _) = local.flush_shared_buffer(51).unwrap();
    assert_eq!(epoch, 2);

    local.seal_epoch(2, true);
    assert_eq!(local.unsynced.len(), 1);
    assert_eq!(local.syncing[0].payload.len(), 2);

    // Task 50 succeeds, task 51 fails.
    let bytes = local.finish_upload(
        50,
        Some(vec![LocalSstableInfo { compaction_group_id: 2, sst: sst(9, vec![flushed]) }]),
    );
    assert_eq!((bytes.carried, bytes.released), (3, 3));
    let bytes = local.finish_upload(51, None);
    assert_eq!((bytes.carried, bytes.released), (3, 0));
    assert_eq!(local.syncing[0].payload.len(), 1);
    assert_eq!(local.syncing[0].ssts.len(), 1);
    assert!(local.syncing[0].payload[0].uploading.is_none());

    let (payload, size) = local.start_syncing(2, 52);
    assert_eq!((payload.len(), size), (1, 3));
    assert_eq!(local.stage(2), Some(SyncStage::Syncing(52)));
    let bytes = local.finish_upload(52, Some(vec![]));
    assert_eq!((bytes.carried, bytes.released), (3, 3));
    assert_eq!(local.stage(2), Some(SyncStage::Synced));
    let (ssts, sync_size) = local.sync_result(0);
    assert_eq!((ssts.len(), sync_size), (1, 3));
    assert_eq!(local.buffer_size(), 6);

    // Nothing is left to flush but the memtable of epoch 3.
    assert_eq!(local.flush_shared_buffer(53).unwrap().0, 3);
    assert!(local.flush_shared_buffer(54).is_none());

    let bytes = local.apply_committed(pinned(2, 2));
    assert_eq!((bytes.carried, bytes.released), (0, 0));
    assert!(local.syncing.is_empty());
    assert_eq!(local.pinned_version().id(), 2);
    local.clear_shared_buffer();
    assert!(local.unsynced.is_empty());
    assert_eq!(local.buffer_size(), 0);
}

#[test]
fn staged_memtables_stand_newest_first() {
    let mut reader = HummockReadVersion::new(pinned(1, 0));
    for (key, epoch) in [("a", 2u64), ("b", 5), ("c", 3), ("d", 5), ("e", 1)] {
        reader.update(VersionUpdate::Staging(StagingData::ImmMem(memtable(&[key], epoch))));
    }
    let order: Vec<(u64, Vec<u8>)> = reader
        .staging()
        .imm
        .iter()
        .map(|imm| (imm.epoch(), imm.entries()[0].key.clone()))
        .collect();
    assert_eq!(
        order,
        vec![
            (5, b"d".to_vec()),
            (5, b"b".to_vec()),
            (3, b"c".to_vec()),
            (2, b"a".to_vec()),
            (1, b"e".to_vec())
        ]
    );
    reader.update(VersionUpdate::Staging(StagingData::Sst(sst(1, vec![memtable(&["x"], 2)]))));
    reader.update(VersionUpdate::Staging(StagingData::Sst(sst(2, vec![memtable(&["y"], 4)]))));
    reader.update(VersionUpdate::CommittedSnapshot(pinned(2, 3)));
    let epochs: Vec<u64> = reader.staging().imm.iter().map(|imm| imm.epoch()).collect();
    assert_eq!(epochs, vec![5, 5]);
    let files: Vec<u64> = reader.staging().sst.iter().map(|sst| sst.id).collect();
    assert_eq!(files, vec![2]);
    assert_eq!(reader.committed().id(), 2);
}

#[test]
fn min_epoch_of_a_retention() {
    let at = |seconds: u64| (seconds * 1000) << 16;
    assert_eq!(gen_min_epoch(at(32), None), None);
    assert_eq!(gen_min_epoch(at(32), Some(1)), Some(at(31)));
    assert_eq!(gen_min_epoch(at(32), Some(0)), Some(at(32)));
    assert_eq!(gen_min_epoch(at(32), Some(32)), Some(0));
    assert_eq!(gen_min_epoch(at(32), Some(33)), Some(0));
    // The low bits of the epoch do not count.
    assert_eq!(gen_min_epoch(at(32) + 65535, Some(1)), Some(at(31)));
    assert_eq!(gen_min_epoch(5, Some(1)), Some(0));
    assert_eq!(gen_min_epoch(u64::MAX, Some(u32::MAX)), Some(((u64::MAX >> 16) - 4_294_967_295_000) << 16));
}

#[test]
fn key_ranges_hold_both_ends() {
    let range = KeyRange { left: b"b".to_vec(), right: b"d".to_vec() };
    assert!(!range.contains(&b"a".to_vec()));
    assert!(range.contains(&b"b".to_vec()));
    assert!(range.contains(&b"c".to_vec()));
    assert!(range.contains(&b"d".to_vec()));
    assert!(!range.contains(&b"da".to_vec()));
}

#[test]
fn version_deltas_insert_in_front_and_remove_by_id() {
    let version = HummockVersion {
        id: 1,
        max_committed_epoch: 4,
        groups: vec![
            CompactionGroup { group_id: 2, member_table_ids: vec![0, 1], ssts: vec![sst(10, vec![]), sst(11, vec![])] },
            CompactionGroup { group_id: 3, member_table_ids: vec![5], ssts: vec![sst(12, vec![])] },
        ],
    };
    let delta = VersionDelta {
        prev_id: 1,
        id: 2,
        max_committed_epoch: 6,
        inserted: vec![
            LocalSstableInfo { compaction_group_id: 3, sst: sst(20, vec![]) },
            LocalSstableInfo { compaction_group_id: 2, sst: sst(21, vec![]) },
            LocalSstableInfo { compaction_group_id: 3, sst: sst(22, vec![]) },
            LocalSstableInfo { compaction_group_id: 9, sst: sst(23, vec![]) },
        ],
        removed_sst_ids: vec![10, 12],
    };
    let after = version.apply_version_delta(&delta);
    assert_eq!((after.id, after.max_committed_epoch), (2, 6));
    let ids = |group: &CompactionGroup| group.ssts.iter().map(|sst| sst.id).collect::<Vec<u64>>();
    assert_eq!(ids(&after.groups[0]), vec![21, 11]);
    assert_eq!(ids(&after.groups[1]), vec![20, 22]);
    assert_eq!(after.groups[0].member_table_ids, vec![0, 1]);
    assert!(after.validate_table_key_range());

    let found = after.committed_ssts(TableId { table_id: 5 }).unwrap();
    assert_eq!(found.iter().map(|sst| sst.id).collect::<Vec<u64>>(), vec![20, 22]);
    assert!(after.committed_ssts(TableId { table_id: 7 }).is_none());

    let pinned = PinnedVersion::new(Arc::new(after));
    assert_eq!(pinned.compaction_group_index(), vec![(0, 2), (1, 2), (5, 3)]);
}

#[test]
fn payloads_are_checked_against_the_pinned_version() {
    let current = pinned(3, 7);
    let delta = |prev_id, id, max_committed_epoch| VersionDelta {
        prev_id,
        id,
        max_committed_epoch,
        inserted: vec![],
        removed_sst_ids: vec![],
    };
    let check = |payload: Payload| current.resolve(&payload).0;
    assert_eq!(check(Payload::VersionDeltas(vec![delta(3, 4, 7), delta(4, 5, 9)])), PayloadCheck::Applies);
    assert_eq!(check(Payload::VersionDeltas(vec![delta(3, 4, 7), delta(5, 6, 9)])), PayloadCheck::DeltaMismatch);
    assert_eq!(check(Payload::VersionDeltas(vec![delta(2, 4, 7)])), PayloadCheck::DeltaMismatch);
    assert_eq!(check(Payload::VersionDeltas(vec![delta(3, 4, 6)])), PayloadCheck::DeltaMismatch);
    assert_eq!(check(Payload::VersionDeltas(vec![])), PayloadCheck::DeltaMismatch);
    let full = |id, max_committed_epoch| {
        Payload::PinnedVersion(Arc::new(HummockVersion { id, max_committed_epoch, groups: vec![] }))
    };
    assert_eq!(check(full(4, 7)), PayloadCheck::Applies);
    assert_eq!(check(full(3, 8)), PayloadCheck::DeltaMismatch);
    let unranged = HummockVersion {
        id: 4,
        max_committed_epoch: 8,
        groups: vec![CompactionGroup {
            group_id: 1,
            member_table_ids: vec![],
            ssts: vec![Arc::new(SstableInfo { id: 1, key_range: None, batches: vec![] })],
        }],
    };
    assert!(!unranged.validate_table_key_range());
    assert_eq!(check(Payload::PinnedVersion(Arc::new(unranged))), PayloadCheck::KeyRangeMissing);
    let (_, resolved) = current.resolve(&Payload::VersionDeltas(vec![delta(3, 4, 7), delta(4, 5, 9)]));
    assert_eq!((resolved.id, resolved.max_committed_epoch), (5, 9));
}

#[test]
fn files_are_covered_by_an_epoch() {
    let file = sst(1, vec![memtable(&["a"], 5), memtable(&["b"], 3)]);
    assert!(!file.covered_by(4));
    assert!(file.covered_by(5));
    assert!(sst(2, vec![]).covered_by(0));
}

#[test]
fn default_options_of_the_test_tool() {
    let opts = CompactionTestOpts::default();
    assert_eq!(opts.host, "127.0.0.1:6660");
    assert_eq!(opts.client_address, None);
    assert_eq!(opts.state_store, "hummock+s3://siyuanw-test-bucket");
    assert_eq!(opts.prometheus_listener_addr, "127.0.0.1:1260");
    assert_eq!(opts.metrics_level, 0);
    assert_eq!(opts.meta_address, "http://127.0.0.1:5690");
    assert_eq!(opts.config_path, "");
    assert_eq!(opts.compaction_trigger_frequency, 16);
    assert!(opts.client_address_defaults_to_host());
    assert_eq!(opts.client_address(), "127.0.0.1:6660");
    let opts = CompactionTestOpts { client_address: Some("10.0.0.1:1".to_string()), ..opts };
    assert!(!opts.client_address_defaults_to_host());
    assert_eq!(opts.client_address(), "10.0.0.1:1");
}
