use std::collections::VecDeque;
use std::sync::Arc;

use hummock_event_handler::buffer_tracker::{BufferTracker, StorageConfig};
use hummock_event_handler::error::HummockError;
use hummock_event_handler::event::{HandlerAction, HandlerInput, HummockEvent, SyncResult};
use hummock_event_handler::event_handler::HummockEventHandler;
use hummock_event_handler::memtable::{HummockValue, ImmutableMemtable, TableId};
use hummock_event_handler::read_version::{KeyBound, ReadOptions, ScanRange, WriteOptions};
use hummock_event_handler::test_utils::prefixed_key;
use hummock_event_handler::sorted_file::key_span;
use hummock_event_handler::version::{
    CompactionGroup, HummockVersion, KeyRange, LocalSstableInfo, Payload, PinnedVersion,
    SstableInfo, VersionDelta,
};

const GROUP: u64 = 2;
const INSTANCE: u64 = 1;

/// The handler with what surrounds it in a running node: an uploader that
/// turns memtables into sorted files, and a metadata service that commits
/// epochs.
struct TestStore {
    handler: HummockEventHandler,
    version: Arc<HummockVersion>,
    next_sst_id: u64,
    next_sender: u64,
    replies: Vec<(u64, Result<SyncResult, HummockError>)>,
}

fn table() -> TableId {
    TableId { table_id: 0 }
}

fn read_options(retention_seconds: Option<u32>) -> ReadOptions {
    ReadOptions { table_id: table(), retention_seconds, check_bloom_filter: true, prefix_hint: None }
}

impl TestStore {
    fn new() -> TestStore {
        let config = StorageConfig::default();
        let version = Arc::new(HummockVersion {
            id: 1,
            max_committed_epoch: 0,
            groups: vec![CompactionGroup { group_id: GROUP, member_table_ids: vec![0], ssts: vec![] }],
        });
        let handler = HummockEventHandler::new(
            BufferTracker::from_storage_config(&config),
            PinnedVersion::new(version.clone()),
            &config,
        );
        let mut store = TestStore { handler, version, next_sst_id: 100, next_sender: 1, replies: vec![] };
        store.send(HummockEvent::RegisterHummockInstance {
            table_id: table(),
            instance_id: INSTANCE,
            sync_result_sender: 0,
        });
        store
    }

    /// Uploads `payload` as one sorted file.
    fn upload(&mut self, payload: Vec<Arc<ImmutableMemtable>>) -> Vec<LocalSstableInfo> {
        let id = self.next_sst_id;
        self.next_sst_id += 1;
        let sst = SstableInfo::from_memtables(id, &payload);
        vec![LocalSstableInfo { compaction_group_id: GROUP, sst: Arc::new(sst) }]
    }

    fn perform(&mut self, actions: Vec<HandlerAction>) {
        let mut queue: VecDeque<HandlerAction> = actions.into();
        while let Some(action) = queue.pop_front() {
            match action {
                HandlerAction::SpawnFlushTask { task_id, payload, .. } => {
                    let produced = self.upload(vec![payload]);
                    let output = self
                        .handler
                        .step(HandlerInput::UploadFinished { task_id, produced: Some(produced) })
                        .unwrap();
                    queue.extend(output.actions);
                }
                HandlerAction::SpawnSyncTask { task_id, payload, .. } => {
                    let produced = self.upload(payload);
                    let output = self
                        .handler
                        .step(HandlerInput::UploadFinished { task_id, produced: Some(produced) })
                        .unwrap();
                    queue.extend(output.actions);
                }
                HandlerAction::SendSyncResult { sender, result } => self.replies.push((sender, result)),
                _ => {}
            }
        }
    }

    fn send(&mut self, event: HummockEvent) {
        let output = self.handler.step(HandlerInput::Event(event)).unwrap();
        self.perform(output.actions);
    }

    fn ingest_batch(&mut self, batch: Vec<(Vec<u8>, HummockValue)>, epoch: u64) {
        let output = self
            .handler
            .ingest_batch(INSTANCE, batch, WriteOptions { epoch, table_id: table() })
            .unwrap();
        self.perform(output.actions);
    }

    fn get(&self, key: &[u8], epoch: u64) -> Option<Vec<u8>> {
        self.handler.get(INSTANCE, &key.to_vec(), epoch, &read_options(None))
    }

    fn iter(&self, range: ScanRange, epoch: u64, retention_seconds: Option<u32>) -> Vec<(Vec<u8>, Vec<u8>)> {
        self.handler.iter(INSTANCE, &range, epoch, &read_options(retention_seconds))
    }

    /// Seals `epoch` as a checkpoint, asks for its sync and returns the
    /// result.
    fn sync_epoch(&mut self, epoch: u64) -> SyncResult {
        self.send(HummockEvent::SealEpoch { epoch, is_checkpoint: true });
        let sender = self.next_sender;
        self.next_sender += 1;
        self.send(HummockEvent::SyncEpoch { new_sync_epoch: epoch, sync_result_sender: sender });
        let position = self.replies.iter().position(|(to, _)| *to == sender).unwrap();
        self.replies.remove(position).1.unwrap()
    }

    /// What the metadata service does with a commit: a new version, which
    /// comes back as a delta.
    fn commit_epoch(&mut self, epoch: u64, ssts: Vec<LocalSstableInfo>) {
        let delta = VersionDelta {
            prev_id: self.version.id,
            id: self.version.id + 1,
            max_committed_epoch: epoch,
            inserted: ssts,
            removed_sst_ids: vec![],
        };
        self.version = Arc::new(self.version.apply_version_delta(&delta));
        self.send(HummockEvent::VersionUpdate(Payload::VersionDeltas(vec![delta])));
    }

    fn try_wait_epoch_for_test(&self, wait_epoch: u64) {
        let max_committed_epoch = self.handler.version_update_notifier_tx();
        if max_committed_epoch < wait_epoch {
            panic!("max_committed_epoch {:?} update fail", max_committed_epoch);
        }
    }

    fn staging_imm_len(&self) -> usize {
        self.handler.read_version_mapping()[0].read_version.staging().imm.len()
    }

    fn staging_sst_is_empty(&self) -> bool {
        self.handler.read_version_mapping()[0].read_version.staging().sst.is_empty()
    }
}

fn put(key: &[u8], value: &str) -> (Vec<u8>, HummockValue) {
    (key.to_vec(), HummockValue::Put(value.as_bytes().to_vec()))
}

fn delete(key: &[u8]) -> (Vec<u8>, HummockValue) {
    (key.to_vec(), HummockValue::Delete)
}

fn pair(key: &[u8], value: &str) -> (Vec<u8>, Vec<u8>) {
    (key.to_vec(), value.as_bytes().to_vec())
}

fn up_to(key: &[u8]) -> ScanRange {
    ScanRange { start: KeyBound::Unbounded, end: KeyBound::Included(key.to_vec()) }
}

fn everything() -> ScanRange {
    ScanRange { start: KeyBound::Unbounded, end: KeyBound::Unbounded }
}

#[test]
fn test_storage_basic() {
    let mut store = TestStore::new();

    // First batch inserts the anchor and others.
    let mut batch1 = vec![put(b"aa", "111"), put(b"bb", "222")];

    // Make sure the batch is sorted.
    batch1.sort_by(|(k1, _), (k2, _)| k1.cmp(k2));

    // Second batch modifies the anchor.
    let mut batch2 = vec![put(b"cc", "333"), put(b"aa", "111111")];

    // Make sure the batch is sorted.
    batch2.sort_by(|(k1, _), (k2, _)| k1.cmp(k2));

    // Third batch deletes the anchor
    let mut batch3 = vec![put(b"dd", "444"), put(b"ee", "555"), delete(b"aa")];

    // Make sure the batch is sorted.
    batch3.sort_by(|(k1, _), (k2, _)| k1.cmp(k2));

    // epoch 0 is reserved by storage service
    let epoch1: u64 = 1;

    // Write the first batch.
    store.ingest_batch(batch1, epoch1);

    // Get the value after flushing to remote.
    let value = store.get(b"aa", epoch1).unwrap();
    assert_eq!(value, b"111".to_vec());
    let value = store.get(b"bb", epoch1).unwrap();
    assert_eq!(value, b"222".to_vec());

    // Test looking for a nonexistent key. `next()` would return the next key.
    let value = store.get(b"ab", epoch1);
    assert_eq!(value, None);

    let epoch2 = epoch1 + 1;
    store.ingest_batch(batch2, epoch2);

    // Get the value after flushing to remote.
    let value = store.get(b"aa", epoch2).unwrap();
    assert_eq!(value, b"111111".to_vec());

    // Write the third batch.
    let epoch3 = epoch2 + 1;
    store.ingest_batch(batch3, epoch3);

    // Get the value after flushing to remote.
    let value = store.get(b"aa", epoch3);
    assert_eq!(value, None);

    // Get non-existent maximum key.
    let value = store.get(b"ff", epoch3);
    assert_eq!(value, None);

    // Write aa bb
    let mut iter = store.iter(up_to(b"ee"), epoch1, None).into_iter();
    assert_eq!(Some(pair(b"aa", "111")), iter.next());
    assert_eq!(Some(pair(b"bb", "222")), iter.next());
    assert_eq!(None, iter.next());

    // Get the anchor value at the first snapshot
    let value = store.get(b"aa", epoch1).unwrap();
    assert_eq!(value, b"111".to_vec());

    // Get the anchor value at the second snapshot
    let value = store.get(b"aa", epoch2).unwrap();
    assert_eq!(value, b"111111".to_vec());
    // Update aa, write cc
    let mut iter = store.iter(up_to(b"ee"), epoch2, None).into_iter();
    assert_eq!(Some(pair(b"aa", "111111")), iter.next());
    assert_eq!(Some(pair(b"bb", "222")), iter.next());
    assert_eq!(Some(pair(b"cc", "333")), iter.next());
    assert_eq!(None, iter.next());

    // Delete aa, write dd,ee
    let mut iter = store.iter(up_to(b"ee"), epoch3, None).into_iter();
    assert_eq!(Some(pair(b"bb", "222")), iter.next());
    assert_eq!(Some(pair(b"cc", "333")), iter.next());
    assert_eq!(Some(pair(b"dd", "444")), iter.next());
    assert_eq!(Some(pair(b"ee", "555")), iter.next());
    assert_eq!(None, iter.next());
}

#[test]
fn test_state_store_sync() {
    let mut store = TestStore::new();
    let epoch1 = store.handler.pinned_version().max_committed_epoch() + 1;

    let mut batch1 = vec![put(&prefixed_key(b"aaaa"), "1111"), put(&prefixed_key(b"bbbb"), "2222")];
    batch1.sort_by(|(k1, _), (k2, _)| k1.cmp(k2));
    store.ingest_batch(batch1, epoch1);

    // ingest 39B batch
    let mut batch2 = vec![
        put(&prefixed_key(b"cccc"), "3333"),
        put(&prefixed_key(b"dddd"), "4444"),
        put(&prefixed_key(b"eeee"), "5555"),
    ];
    batch2.sort_by(|(k1, _), (k2, _)| k1.cmp(k2));
    store.ingest_batch(batch2, epoch1);

    let epoch2 = epoch1 + 1;

    // ingest more 13B then will trigger a sync behind the scene
    let mut batch3 = vec![put(&prefixed_key(b"eeee"), "6666")];
    batch3.sort_by(|(k1, _), (k2, _)| k1.cmp(k2));
    store.ingest_batch(batch3, epoch2);

    let ssts = store.sync_epoch(epoch1).uncommitted_ssts;
    store.commit_epoch(epoch1, ssts);
    store.try_wait_epoch_for_test(epoch1);
    {
        // after sync 1 epoch
        assert_eq!(1, store.staging_imm_len());
        assert!(store.staging_sst_is_empty());
    }

    {
        let kv_map =
            [("aaaa", "1111"), ("bbbb", "2222"), ("cccc", "3333"), ("dddd", "4444"), ("eeee", "5555")];

        for (k, v) in kv_map {
            let value = store.get(&prefixed_key(k.as_bytes()), epoch1).unwrap();
            assert_eq!(value, v.as_bytes().to_vec());
        }
    }

    let ssts = store.sync_epoch(epoch2).uncommitted_ssts;

    store.commit_epoch(epoch2, ssts);
    store.try_wait_epoch_for_test(epoch2);
    {
        // after sync all epoch
        assert_eq!(0, store.staging_imm_len());
        assert!(store.staging_sst_is_empty());
    }

    {
        let kv_map =
            [("aaaa", "1111"), ("bbbb", "2222"), ("cccc", "3333"), ("dddd", "4444"), ("eeee", "6666")];

        for (k, v) in kv_map {
            let value = store.get(&prefixed_key(k.as_bytes()), epoch2).unwrap();
            assert_eq!(value, v.as_bytes().to_vec());
        }
    }

    // test iter
    {
        let mut iter = store.iter(up_to(&prefixed_key(b"eeee")), epoch1, None).into_iter();

        let kv_map =
            [("aaaa", "1111"), ("bbbb", "2222"), ("cccc", "3333"), ("dddd", "4444"), ("eeee", "5555")];

        for (k, v) in kv_map {
            let result = iter.next();
            assert_eq!(result, Some((prefixed_key(k.as_bytes()), v.as_bytes().to_vec())));
        }

        assert!(iter.next().is_none());
    }

    {
        let mut iter = store.iter(up_to(&prefixed_key(b"eeee")), epoch2, None).into_iter();

        let kv_map =
            [("aaaa", "1111"), ("bbbb", "2222"), ("cccc", "3333"), ("dddd", "4444"), ("eeee", "6666")];

        for (k, v) in kv_map {
            let result = iter.next();
            assert_eq!(result, Some((prefixed_key(k.as_bytes()), v.as_bytes().to_vec())));
        }
    }
}

#[test]
fn test_delete_get() {
    let mut store = TestStore::new();
    let initial_epoch = store.handler.pinned_version().max_committed_epoch();

    let epoch1 = initial_epoch + 1;
    let batch1 = vec![put(&prefixed_key(b"aa"), "111"), put(&prefixed_key(b"bb"), "222")];
    store.ingest_batch(batch1, epoch1);

    let ssts = store.sync_epoch(epoch1).uncommitted_ssts;
    store.commit_epoch(epoch1, ssts);
    let epoch2 = initial_epoch + 2;
    let batch2 = vec![delete(&prefixed_key(b"bb"))];
    store.ingest_batch(batch2, epoch2);
    let ssts = store.sync_epoch(epoch2).uncommitted_ssts;
    store.commit_epoch(epoch2, ssts);

    store.try_wait_epoch_for_test(epoch2);
    assert!(store.get(&prefixed_key("bb".as_bytes()), epoch2).is_none());
}

#[test]
fn test_multiple_epoch_sync() {
    let mut store = TestStore::new();
    let initial_epoch = store.handler.pinned_version().max_committed_epoch();

    let epoch1 = initial_epoch + 1;
    let batch1 = vec![put(&prefixed_key(b"aa"), "111"), put(&prefixed_key(b"bb"), "222")];
    store.ingest_batch(batch1, epoch1);

    let epoch2 = initial_epoch + 2;
    let batch2 = vec![delete(&prefixed_key(b"bb"))];
    store.ingest_batch(batch2, epoch2);

    let epoch3 = initial_epoch + 3;
    let batch3 = vec![put(&prefixed_key(b"aa"), "444"), put(&prefixed_key(b"bb"), "555")];
    store.ingest_batch(batch3, epoch3);
    let test_get = |store: &TestStore| {
        assert_eq!(store.get(&prefixed_key("bb".as_bytes()), epoch1).unwrap(), "222".as_bytes());
        assert!(store.get(&prefixed_key("bb".as_bytes()), epoch2).is_none());
        assert_eq!(store.get(&prefixed_key("bb".as_bytes()), epoch3).unwrap(), "555".as_bytes());
    };
    test_get(&store);
    store.send(HummockEvent::SealEpoch { epoch: epoch1, is_checkpoint: false });
    let sync_result2 = store.sync_epoch(epoch2);
    let sync_result3 = store.sync_epoch(epoch3);
    test_get(&store);
    store.commit_epoch(epoch2, sync_result2.uncommitted_ssts);
    store.commit_epoch(epoch3, sync_result3.uncommitted_ssts);

    store.try_wait_epoch_for_test(epoch3);
    test_get(&store);
}

#[test]
fn test_iter_with_min_epoch() {
    let mut store = TestStore::new();

    let epoch1 = (31 * 1000) << 16;

    let gen_key = |index: usize| -> String { format!("key_{}", index) };

    let gen_val = |index: usize| -> String { format!("val_{}", index) };

    // epoch 1 write
    let batch_epoch1: Vec<(Vec<u8>, HummockValue)> = (0..10)
        .into_iter()
        .map(|index| put(&prefixed_key(gen_key(index).as_bytes()), &gen_val(index)))
        .collect();

    store.ingest_batch(batch_epoch1, epoch1);

    let epoch2 = (32 * 1000) << 16;
    // epoch 2 write
    let batch_epoch2: Vec<(Vec<u8>, HummockValue)> = (20..30)
        .into_iter()
        .map(|index| put(&prefixed_key(gen_key(index).as_bytes()), &gen_val(index)))
        .collect();

    store.ingest_batch(batch_epoch2, epoch2);

    {
        // test before sync
        {
            let result = store.iter(everything(), epoch1, None);
            assert_eq!(10, result.len());
        }

        {
            let result = store.iter(everything(), epoch2, None);
            assert_eq!(20, result.len());
        }

        {
            let result = store.iter(everything(), epoch2, Some(1));
            assert_eq!(10, result.len());
        }
    }

    {
        // test after sync

        let sync_result1 = store.sync_epoch(epoch1);
        let sync_result2 = store.sync_epoch(epoch2);
        store.commit_epoch(epoch1, sync_result1.uncommitted_ssts);
        store.commit_epoch(epoch2, sync_result2.uncommitted_ssts);

        store.try_wait_epoch_for_test(epoch2);

        {
            let result = store.iter(everything(), epoch1, None);
            assert_eq!(10, result.len());
        }

        {
            let result = store.iter(everything(), epoch2, None);
            assert_eq!(20, result.len());
        }

        {
            let result = store.iter(everything(), epoch2, Some(1));
            assert_eq!(10, result.len());
        }
    }
}

#[test]
fn retention_keeps_only_the_newer_cohort() {
    let mut store = TestStore::new();
    let epoch1 = (31 * 1000) << 16;
    let epoch2 = (32 * 1000) << 16;
    store.ingest_batch(vec![put(b"old", "1")], epoch1);
    store.ingest_batch(vec![put(b"new", "2")], epoch2);
    assert_eq!(store.iter(everything(), epoch2, Some(1)), vec![pair(b"new", "2")]);
    assert_eq!(store.iter(everything(), epoch2, Some(2)), vec![pair(b"new", "2"), pair(b"old", "1")]);
    assert_eq!(store.iter(everything(), epoch2, Some(40)), vec![pair(b"new", "2"), pair(b"old", "1")]);
}

#[test]
fn scan_respects_both_bounds() {
    let mut store = TestStore::new();
    store.ingest_batch(vec![put(b"a", "1"), put(b"b", "2"), put(b"c", "3"), put(b"d", "4")], 1);
    let range = ScanRange { start: KeyBound::Excluded(b"a".to_vec()), end: KeyBound::Excluded(b"d".to_vec()) };
    assert_eq!(store.iter(range, 1, None), vec![pair(b"b", "2"), pair(b"c", "3")]);
    let range = ScanRange { start: KeyBound::Included(b"b".to_vec()), end: KeyBound::Unbounded };
    assert_eq!(store.iter(range, 1, None), vec![pair(b"b", "2"), pair(b"c", "3"), pair(b"d", "4")]);
}

#[test]
fn round_trip_leaves_staging_empty_and_reads_committed() {
    let mut store = TestStore::new();
    store.ingest_batch(vec![put(b"k", "v1")], 5);
    assert_eq!(store.staging_imm_len(), 1);
    let result = store.sync_epoch(5);
    assert_eq!(result.uncommitted_ssts.len(), 1);
    assert_eq!(result.sync_size, 1 + 1 + 2);
    // Synced and not committed: the reader still reads its staging.
    assert_eq!(store.staging_imm_len(), 1);
    assert_eq!(store.get(b"k", 5), Some(b"v1".to_vec()));
    store.commit_epoch(5, result.uncommitted_ssts);
    assert_eq!(store.staging_imm_len(), 0);
    assert_eq!(store.handler.local_version.syncing.len(), 0);
    assert_eq!(store.get(b"k", 5), Some(b"v1".to_vec()));
    assert_eq!(store.get(b"k", 9), Some(b"v1".to_vec()));
    assert_eq!(store.get(b"k", 4), None);
    assert_eq!(store.handler.buffer_tracker().get_buffer_size(), 0);
}

#[test]
fn committed_key_range_prunes_the_file() {
    let mut store = TestStore::new();
    store.ingest_batch(vec![put(b"m", "1")], 1);
    let mut ssts = store.sync_epoch(1).uncommitted_ssts;
    // A file that claims a key range which leaves its key out is not asked.
    let honest = ssts.pop().unwrap();
    let narrowed = SstableInfo {
        id: honest.sst.id,
        key_range: Some(KeyRange { left: b"a".to_vec(), right: b"c".to_vec() }),
        batches: honest.sst.batches.clone(),
    };
    store.commit_epoch(1, vec![LocalSstableInfo { compaction_group_id: GROUP, sst: Arc::new(narrowed) }]);
    assert_eq!(store.get(b"m", 1), None);
}

#[test]
fn sorted_file_holds_its_memtables_newest_first() {
    let memtable = |key: &[u8], value: &str, epoch: u64| {
        Arc::new(ImmutableMemtable::build(vec![put(key, value)], epoch, table()).unwrap())
    };
    let payload = vec![
        memtable(b"m", "1", 2),
        memtable(b"c", "2", 5),
        memtable(b"x", "3", 3),
        memtable(b"k", "4", 5),
        memtable(b"d", "5", 1),
    ];
    let file = SstableInfo::from_memtables(9, &payload);
    assert_eq!(file.id, 9);
    let order: Vec<(u64, Vec<u8>)> =
        file.batches.iter().map(|batch| (batch.epoch(), batch.entries()[0].key.clone())).collect();
    assert_eq!(
        order,
        vec![
            (5, b"k".to_vec()),
            (5, b"c".to_vec()),
            (3, b"x".to_vec()),
            (2, b"m".to_vec()),
            (1, b"d".to_vec())
        ]
    );
    let range = file.key_range.unwrap();
    assert_eq!((range.left, range.right), (b"c".to_vec(), b"x".to_vec()));

    let empty = SstableInfo::from_memtables(1, &vec![]);
    assert!(empty.batches.is_empty());
    let range = empty.key_range.unwrap();
    assert_eq!((range.left, range.right), (vec![], vec![]));
    let span = key_span(&vec![Arc::new(ImmutableMemtable::build(vec![], 1, table()).unwrap())]);
    assert_eq!((span.left, span.right), (vec![], vec![]));
}

#[test]
fn sync_and_commit_keep_what_is_read() {
    let mut store = TestStore::new();
    store.ingest_batch(vec![put(b"a", "1"), put(b"b", "2")], 1);
    store.ingest_batch(vec![put(b"a", "3"), delete(b"c")], 2);
    store.ingest_batch(vec![delete(b"b"), put(b"c", "4")], 2);
    let read = |store: &TestStore| {
        let mut seen = vec![];
        for key in [b"a", b"b", b"c", b"d"] {
            seen.push(store.get(key, 2));
        }
        (seen, store.iter(everything(), 2, None))
    };
    let before = read(&store);
    assert_eq!(before.0, vec![Some(b"3".to_vec()), None, Some(b"4".to_vec()), None]);
    assert_eq!(before.1, vec![pair(b"a", "3"), pair(b"c", "4")]);
    let ssts = store.sync_epoch(2).uncommitted_ssts;
    assert_eq!(read(&store), before);
    store.commit_epoch(2, ssts);
    assert_eq!(store.staging_imm_len(), 0);
    assert_eq!(read(&store), before);
}
