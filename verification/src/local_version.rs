//! The shared buffer of the process: memtables that no sync has taken yet,
//! and one record for each epoch that was sealed as a checkpoint.

use vstd::prelude::*;
use std::sync::Arc;
use crate::memtable::{HummockEpoch, ImmutableMemtable};
use crate::seq_util::{
    lemma_filter_empty, lemma_filter_passes, lemma_filter_step, lemma_sum_add, lemma_sum_agree,
    lemma_sum_bounds, lemma_sum_le, lemma_sum_map, lemma_sum_pointwise, lemma_sum_prefix,
    lemma_sum_push, lemma_sum_remove, lemma_sum_split, lemma_sum_update, sum_by,
};
use crate::shared::share;
use crate::upload_handle_manager::TaskId;
use crate::version::{LocalSstableInfo, PinnedVersion, VersionView};

verus! {

/// A memtable in the shared buffer, and the upload task that carries it, if
/// one does.
#[derive(Debug)]
pub struct BufferedBatch {
    pub imm: Arc<ImmutableMemtable>,
    pub uploading: Option<TaskId>,
}

/// Picks batches out of a list.
#[derive(Clone, Copy, Debug, PartialEq, Eq, Structural)]
pub enum BatchSelector {
    /// Those of an epoch up to the given one.
    EpochUpTo(HummockEpoch),
    /// Those of an epoch above the given one.
    EpochAbove(HummockEpoch),
    /// Those that the given task carries.
    CarriedBy(TaskId),
    /// Those that the given task does not carry.
    NotCarriedBy(TaskId),
    /// Those that no task carries.
    Idle,
}

impl BatchSelector {
    pub open spec fn spec_matches(&self, batch: BufferedBatch) -> bool {
        match self {
            BatchSelector::EpochUpTo(epoch) => batch.imm.spec_epoch() <= *epoch,
            BatchSelector::EpochAbove(epoch) => batch.imm.spec_epoch() > *epoch,
            BatchSelector::CarriedBy(task) => batch.uploading == Some(*task),
            BatchSelector::NotCarriedBy(task) => batch.uploading != Some(*task),
            BatchSelector::Idle => batch.uploading is None,
        }
    }

    /// The selector as a predicate.
    pub open spec fn pred(&self) -> spec_fn(BufferedBatch) -> bool {
        |batch: BufferedBatch| self.spec_matches(batch)
    }

    pub fn picks(&self, batch: &BufferedBatch) -> (selected: bool)
        ensures
            selected == self.spec_matches(*batch),
    {
        match self {
            BatchSelector::EpochUpTo(epoch) => batch.imm.epoch() <= *epoch,
            BatchSelector::EpochAbove(epoch) => batch.imm.epoch() > *epoch,
            BatchSelector::CarriedBy(task) => match batch.uploading {
                Some(carrier) => carrier == *task,
                None => false,
            },
            BatchSelector::NotCarriedBy(task) => match batch.uploading {
                Some(carrier) => carrier != *task,
                None => true,
            },
            BatchSelector::Idle => batch.uploading.is_none(),
        }
    }
}

/// The batches of `batches` that `selector` picks, in order.
pub open spec fn select(
    batches: Seq<BufferedBatch>,
    selector: BatchSelector,
) -> Seq<BufferedBatch> {
    batches.filter(selector.pred())
}

/// Hands the idle batches to `task`.
pub open spec fn take_batch(batch: BufferedBatch, task: TaskId) -> BufferedBatch {
    if batch.uploading is None {
        BufferedBatch { imm: batch.imm, uploading: Some(task) }
    } else {
        batch
    }
}

/// Takes the batches that `task` carries back from it.
pub open spec fn release_batch(batch: BufferedBatch, task: TaskId) -> BufferedBatch {
    if batch.uploading == Some(task) {
        BufferedBatch { imm: batch.imm, uploading: None }
    } else {
        batch
    }
}

/// `batches` with every idle batch handed to `task`.
pub open spec fn take_all(batches: Seq<BufferedBatch>, task: TaskId) -> Seq<BufferedBatch> {
    batches.map_values(|batch: BufferedBatch| take_batch(batch, task))
}

/// `batches` with every batch of `task` idle again.
pub open spec fn release_all(batches: Seq<BufferedBatch>, task: TaskId) -> Seq<BufferedBatch> {
    batches.map_values(|batch: BufferedBatch| release_batch(batch, task))
}

/// The memtables of `batches`, in order.
pub open spec fn memtables_of(batches: Seq<BufferedBatch>) -> Seq<Arc<ImmutableMemtable>> {
    batches.map_values(|batch: BufferedBatch| batch.imm)
}

/// The bytes one batch is accounted with.
pub open spec fn batch_bytes() -> spec_fn(BufferedBatch) -> nat {
    |batch: BufferedBatch| batch.imm.spec_size() as nat
}

/// The bytes of one batch that an upload carries.
pub open spec fn batch_uploading_bytes() -> spec_fn(BufferedBatch) -> nat {
    |batch: BufferedBatch|
        if batch.uploading is Some {
            batch.imm.spec_size() as nat
        } else {
            0
        }
}

/// The bytes that `batches` are accounted with.
pub open spec fn batches_size(batches: Seq<BufferedBatch>) -> nat {
    sum_by(batches, batch_bytes())
}

/// The bytes of `batches` that uploads carry.
pub open spec fn uploading_size(batches: Seq<BufferedBatch>) -> nat {
    sum_by(batches, batch_uploading_bytes())
}

/// Uploads carry no more than there is.
pub proof fn lemma_uploading_le(batches: Seq<BufferedBatch>)
    ensures
        uploading_size(batches) <= batches_size(batches),
{
    lemma_sum_le(batches, batch_uploading_bytes(), batch_bytes());
}

/// A selector and its complement split both sums.
pub proof fn lemma_select_split(
    batches: Seq<BufferedBatch>,
    selector: BatchSelector,
    rest: BatchSelector,
)
    requires
        forall|batch: BufferedBatch| #[trigger] rest.spec_matches(batch) == !selector.spec_matches(batch),
    ensures
        batches_size(select(batches, selector)) + batches_size(select(batches, rest)) == batches_size(
            batches,
        ),
        uploading_size(select(batches, selector)) + uploading_size(select(batches, rest))
            == uploading_size(batches),
{
    assert forall|batch: BufferedBatch| #[trigger] (rest.pred())(batch) == !(selector.pred())(batch) by {
        assert(rest.spec_matches(batch) == !selector.spec_matches(batch));
    }
    lemma_sum_split(batches, selector.pred(), rest.pred(), batch_bytes());
    lemma_sum_split(batches, selector.pred(), rest.pred(), batch_uploading_bytes());
}

/// What a task carries counts in full as uploading.
pub proof fn lemma_carried_is_uploading(batches: Seq<BufferedBatch>, task: TaskId)
    ensures
        uploading_size(select(batches, BatchSelector::CarriedBy(task))) == batches_size(
            select(batches, BatchSelector::CarriedBy(task)),
        ),
{
    let carried = select(batches, BatchSelector::CarriedBy(task));
    lemma_filter_passes(batches, BatchSelector::CarriedBy(task).pred());
    assert forall|i: int| 0 <= i < carried.len() implies (batch_uploading_bytes())(#[trigger] carried[i])
        == (batch_bytes())(carried[i]) by {
        assert((BatchSelector::CarriedBy(task).pred())(carried[i]));
    }
    lemma_sum_agree(carried, batch_uploading_bytes(), batch_bytes());
}

/// What no task carries does not count as uploading.
pub proof fn lemma_idle_not_uploading(batches: Seq<BufferedBatch>)
    ensures
        uploading_size(select(batches, BatchSelector::Idle)) == 0,
        batches_size(select(batches, BatchSelector::Idle)) + uploading_size(batches) == batches_size(
            batches,
        ),
{
    let idle = select(batches, BatchSelector::Idle);
    lemma_filter_passes(batches, BatchSelector::Idle.pred());
    let zero = |batch: BufferedBatch| 0nat;
    assert forall|i: int| 0 <= i < idle.len() implies (batch_uploading_bytes())(#[trigger] idle[i]) == zero(
        idle[i],
    ) by {
        assert((BatchSelector::Idle.pred())(idle[i]));
    }
    lemma_sum_agree(idle, batch_uploading_bytes(), zero);
    lemma_sum_zero(idle);
    let idle_bytes = |batch: BufferedBatch|
        if batch.uploading is None {
            batch.imm.spec_size() as nat
        } else {
            0
        };
    lemma_sum_pointwise(batches, batch_bytes(), idle_bytes, batch_uploading_bytes());
    lemma_sum_indicator(batches);
}

/// A sum of zeros is zero.
proof fn lemma_sum_zero(batches: Seq<BufferedBatch>)
    ensures
        sum_by(batches, |batch: BufferedBatch| 0nat) == 0,
    decreases batches.len(),
{
    if batches.len() > 0 {
        lemma_sum_zero(batches.drop_last());
    }
}

/// The idle batches weigh what the idle share of all batches sums to.
proof fn lemma_sum_indicator(batches: Seq<BufferedBatch>)
    ensures
        batches_size(select(batches, BatchSelector::Idle)) == sum_by(
            batches,
            |batch: BufferedBatch|
                if batch.uploading is None {
                    batch.imm.spec_size() as nat
                } else {
                    0
                },
        ),
    decreases batches.len(),
{
    reveal(Seq::filter);
    if batches.len() > 0 {
        lemma_sum_indicator(batches.drop_last());
        if batches.last().uploading is None {
            lemma_sum_push(select(batches.drop_last(), BatchSelector::Idle), batches.last(), batch_bytes());
        }
    }
}

/// Handing the idle batches to a task leaves the size, and makes all of it
/// uploading.
pub proof fn lemma_take_all(batches: Seq<BufferedBatch>, task: TaskId)
    ensures
        batches_size(take_all(batches, task)) == batches_size(batches),
        uploading_size(take_all(batches, task)) == batches_size(batches),
        take_all(batches, task).len() == batches.len(),
{
    let taken = |batch: BufferedBatch| take_batch(batch, task);
    lemma_sum_map(batches, taken, batch_bytes(), batch_bytes());
    lemma_sum_map(batches, taken, batch_uploading_bytes(), batch_bytes());
}

/// Taking the batches of a task back leaves the size, and takes them out of
/// what is uploading.
pub proof fn lemma_release_all(batches: Seq<BufferedBatch>, task: TaskId)
    ensures
        batches_size(release_all(batches, task)) == batches_size(batches),
        uploading_size(release_all(batches, task)) + batches_size(
            select(batches, BatchSelector::CarriedBy(task)),
        ) == uploading_size(batches),
        release_all(batches, task).len() == batches.len(),
{
    let released = |batch: BufferedBatch| release_batch(batch, task);
    lemma_sum_map(batches, released, batch_bytes(), batch_bytes());
    let still = |batch: BufferedBatch|
        if batch.uploading is Some && batch.uploading != Some(task) {
            batch.imm.spec_size() as nat
        } else {
            0
        };
    lemma_sum_map(batches, released, batch_uploading_bytes(), still);
    lemma_select_split(batches, BatchSelector::CarriedBy(task), BatchSelector::NotCarriedBy(task));
    lemma_carried_is_uploading(batches, task);
    let others = select(batches, BatchSelector::NotCarriedBy(task));
    lemma_still_uploading(batches, task);
}

/// What uploads other than `task` carry is what is uploading among the
/// batches that `task` does not carry.
proof fn lemma_still_uploading(batches: Seq<BufferedBatch>, task: TaskId)
    ensures
        uploading_size(select(batches, BatchSelector::NotCarriedBy(task))) == sum_by(
            batches,
            |batch: BufferedBatch|
                if batch.uploading is Some && batch.uploading != Some(task) {
                    batch.imm.spec_size() as nat
                } else {
                    0
                },
        ),
    decreases batches.len(),
{
    reveal(Seq::filter);
    if batches.len() > 0 {
        lemma_still_uploading(batches.drop_last(), task);
        if batches.last().uploading != Some(task) {
            lemma_sum_push(
                select(batches.drop_last(), BatchSelector::NotCarriedBy(task)),
                batches.last(),
                batch_uploading_bytes(),
            );
        }
    }
}

/// Copies the batches that `selector` picks, in order.
pub fn select_batches(
    batches: &Vec<BufferedBatch>,
    selector: BatchSelector,
) -> (selected: Vec<BufferedBatch>)
    ensures
        selected@ == select(batches@, selector),
{
    let mut selected: Vec<BufferedBatch> = Vec::new();
    let mut i: usize = 0;
    proof {
        lemma_filter_empty(batches@.take(0), selector.pred());
    }
    while i < batches.len()
        invariant
            i <= batches.len(),
            selected@ == batches@.take(i as int).filter(selector.pred()),
        decreases batches.len() - i,
    {
        proof {
            lemma_filter_step(batches@, i as int, selector.pred());
        }
        if selector.picks(&batches[i]) {
            selected.push(BufferedBatch { imm: share(&batches[i].imm), uploading: batches[i].uploading });
        }
        i = i + 1;
    }
    assert(batches@.take(batches.len() as int) =~= batches@);
    selected
}

/// Copies `batches` with every idle batch handed to `task`.
pub fn take_batches(batches: &Vec<BufferedBatch>, task: TaskId) -> (taken: Vec<BufferedBatch>)
    ensures
        taken@ == take_all(batches@, task),
{
    let mut taken: Vec<BufferedBatch> = Vec::new();
    let mut i: usize = 0;
    while i < batches.len()
        invariant
            i <= batches.len(),
            taken@ == take_all(batches@.take(i as int), task),
        decreases batches.len() - i,
    {
        let uploading = match batches[i].uploading {
            Some(carrier) => Some(carrier),
            None => Some(task),
        };
        taken.push(BufferedBatch { imm: share(&batches[i].imm), uploading });
        i = i + 1;
        assert(taken@ =~= take_all(batches@.take(i as int), task));
    }
    assert(batches@.take(batches.len() as int) =~= batches@);
    taken
}

/// Copies `batches` with every batch of `task` idle again.
pub fn release_batches(batches: &Vec<BufferedBatch>, task: TaskId) -> (released: Vec<BufferedBatch>)
    ensures
        released@ == release_all(batches@, task),
{
    let mut released: Vec<BufferedBatch> = Vec::new();
    let mut i: usize = 0;
    while i < batches.len()
        invariant
            i <= batches.len(),
            released@ == release_all(batches@.take(i as int), task),
        decreases batches.len() - i,
    {
        let uploading = match batches[i].uploading {
            Some(carrier) => if carrier == task {
                None
            } else {
                Some(carrier)
            },
            None => None,
        };
        released.push(BufferedBatch { imm: share(&batches[i].imm), uploading });
        i = i + 1;
        assert(released@ =~= release_all(batches@.take(i as int), task));
    }
    assert(batches@.take(batches.len() as int) =~= batches@);
    released
}

/// The memtables of `batches`, in order.
pub fn memtables(batches: &Vec<BufferedBatch>) -> (imms: Vec<Arc<ImmutableMemtable>>)
    ensures
        imms@ == memtables_of(batches@),
{
    let mut imms: Vec<Arc<ImmutableMemtable>> = Vec::new();
    let mut i: usize = 0;
    while i < batches.len()
        invariant
            i <= batches.len(),
            imms@ == memtables_of(batches@.take(i as int)),
        decreases batches.len() - i,
    {
        imms.push(share(&batches[i].imm));
        i = i + 1;
        assert(imms@ =~= memtables_of(batches@.take(i as int)));
    }
    assert(batches@.take(batches.len() as int) =~= batches@);
    imms
}

/// Adds up the sizes of `batches`.
pub fn sum_sizes(batches: &Vec<BufferedBatch>) -> (size: usize)
    requires
        batches_size(batches@) <= usize::MAX,
    ensures
        size == batches_size(batches@),
{
    let mut size: usize = 0;
    let mut i: usize = 0;
    while i < batches.len()
        invariant
            i <= batches.len(),
            size == batches_size(batches@.take(i as int)),
            batches_size(batches@) <= usize::MAX,
        decreases batches.len() - i,
    {
        proof {
            assert(batches@.take(i + 1).drop_last() =~= batches@.take(i as int));
            assert(batches@ =~= batches@.take(i + 1) + batches@.skip(i + 1));
            lemma_sum_add(batches@.take(i + 1), batches@.skip(i + 1), batch_bytes());
        }
        size = size + batches[i].imm.size();
        i = i + 1;
    }
    assert(batches@.take(batches.len() as int) =~= batches@);
    size
}

/// The files of `ssts` that hold nothing above `epoch`, or, with `covered`
/// false, the others.
pub open spec fn select_ssts(
    ssts: Seq<LocalSstableInfo>,
    epoch: HummockEpoch,
    covered: bool,
) -> Seq<LocalSstableInfo> {
    ssts.filter(|local: LocalSstableInfo| local.sst.spec_covered_by(epoch) == covered)
}

/// Copies the files of `ssts` that hold nothing above `epoch`, or, with
/// `covered` false, the others.
pub fn copy_ssts_by_epoch(
    ssts: &Vec<LocalSstableInfo>,
    epoch: HummockEpoch,
    covered: bool,
) -> (selected: Vec<LocalSstableInfo>)
    ensures
        selected@ == select_ssts(ssts@, epoch, covered),
{
    let ghost pred = |local: LocalSstableInfo| local.sst.spec_covered_by(epoch) == covered;
    let mut selected: Vec<LocalSstableInfo> = Vec::new();
    let mut i: usize = 0;
    proof {
        lemma_filter_empty(ssts@.take(0), pred);
    }
    while i < ssts.len()
        invariant
            i <= ssts.len(),
            pred == |local: LocalSstableInfo| local.sst.spec_covered_by(epoch) == covered,
            selected@ == ssts@.take(i as int).filter(pred),
        decreases ssts.len() - i,
    {
        proof {
            lemma_filter_step(ssts@, i as int, pred);
        }
        if ssts[i].sst.covered_by(epoch) == covered {
            selected.push(
                LocalSstableInfo {
                    compaction_group_id: ssts[i].compaction_group_id,
                    sst: share(&ssts[i].sst),
                },
            );
        }
        i = i + 1;
    }
    assert(ssts@.take(ssts.len() as int) =~= ssts@);
    selected
}

/// Copies `first` followed by `second`.
pub fn concat_ssts(
    first: &Vec<LocalSstableInfo>,
    second: &Vec<LocalSstableInfo>,
) -> (both: Vec<LocalSstableInfo>)
    ensures
        both@ == first@ + second@,
{
    let mut both: Vec<LocalSstableInfo> = Vec::new();
    let mut i: usize = 0;
    while i < first.len()
        invariant
            i <= first.len(),
            both@ == first@.take(i as int),
        decreases first.len() - i,
    {
        both.push(
            LocalSstableInfo {
                compaction_group_id: first[i].compaction_group_id,
                sst: share(&first[i].sst),
            },
        );
        i = i + 1;
        assert(both@ =~= first@.take(i as int));
    }
    assert(first@.take(first.len() as int) =~= first@);
    let mut j: usize = 0;
    while j < second.len()
        invariant
            j <= second.len(),
            both@ == first@ + second@.take(j as int),
        decreases second.len() - j,
    {
        both.push(
            LocalSstableInfo {
                compaction_group_id: second[j].compaction_group_id,
                sst: share(&second[j].sst),
            },
        );
        j = j + 1;
        assert(both@ =~= first@ + second@.take(j as int));
    }
    assert(second@.take(second.len() as int) =~= second@);
    both
}

/// Where a sync record stands.
#[derive(Clone, Copy, Debug, PartialEq, Eq, Structural)]
pub enum SyncStage {
    /// Sealed as a checkpoint; no sync has started.
    Sealed,
    /// The given task uploads the payload.
    Syncing(TaskId),
    /// The upload succeeded; the files are known.
    Synced,
    /// The upload failed.
    Failed,
}

/// What is known of one epoch that was sealed as a checkpoint.
#[derive(Debug)]
pub struct SyncRecord {
    pub sync_epoch: HummockEpoch,
    pub stage: SyncStage,
    /// The memtables of the record that are not uploaded yet.
    pub payload: Vec<BufferedBatch>,
    /// The files that uploads of the record's data have produced.
    pub ssts: Vec<LocalSstableInfo>,
    /// The bytes handed to the sync upload.
    pub sync_size: usize,
}

/// A sync record as a mathematical object.
pub struct SyncRecordView {
    pub sync_epoch: HummockEpoch,
    pub stage: SyncStage,
    pub payload: Seq<BufferedBatch>,
    pub ssts: Seq<LocalSstableInfo>,
    pub sync_size: usize,
}

impl View for SyncRecord {
    type V = SyncRecordView;

    open spec fn view(&self) -> SyncRecordView {
        SyncRecordView {
            sync_epoch: self.sync_epoch,
            stage: self.stage,
            payload: self.payload@,
            ssts: self.ssts@,
            sync_size: self.sync_size,
        }
    }
}

/// The views of `records`, in order.
pub open spec fn record_views(records: Seq<SyncRecord>) -> Seq<SyncRecordView> {
    records.map_values(|record: SyncRecord| record@)
}

/// The process-wide state of the shared buffer.
#[derive(Debug)]
pub struct LocalVersion {
    pub pinned_version: PinnedVersion,
    /// The memtables that no sync has taken, oldest write first.
    pub unsynced: Vec<BufferedBatch>,
    /// The files that flushes of unsynced memtables have produced.
    pub unsynced_ssts: Vec<LocalSstableInfo>,
    /// One record per checkpoint epoch, ascending.
    pub syncing: Vec<SyncRecord>,
    pub max_sync_epoch: HummockEpoch,
    pub sealed_epoch: HummockEpoch,
    /// The committed epoch of the version that the buffer started on.
    pub initial_max_committed_epoch: HummockEpoch,
}

/// The shared buffer as a mathematical object.
pub struct LocalVersionView {
    pub pinned_version: VersionView,
    pub unsynced: Seq<BufferedBatch>,
    pub unsynced_ssts: Seq<LocalSstableInfo>,
    pub syncing: Seq<SyncRecordView>,
    pub max_sync_epoch: HummockEpoch,
    pub sealed_epoch: HummockEpoch,
    pub initial_max_committed_epoch: HummockEpoch,
}

impl View for LocalVersion {
    type V = LocalVersionView;

    open spec fn view(&self) -> LocalVersionView {
        LocalVersionView {
            pinned_version: self.pinned_version@,
            unsynced: self.unsynced@,
            unsynced_ssts: self.unsynced_ssts@,
            syncing: record_views(self.syncing@),
            max_sync_epoch: self.max_sync_epoch,
            sealed_epoch: self.sealed_epoch,
            initial_max_committed_epoch: self.initial_max_committed_epoch,
        }
    }
}

/// The bytes of the payload of one record.
pub open spec fn record_bytes() -> spec_fn(SyncRecordView) -> nat {
    |record: SyncRecordView| batches_size(record.payload)
}

/// The bytes of the payload of one record that uploads carry.
pub open spec fn record_uploading_bytes() -> spec_fn(SyncRecordView) -> nat {
    |record: SyncRecordView| uploading_size(record.payload)
}

/// The bytes of the payload of one record that `task` carries.
pub open spec fn record_carried_bytes(task: TaskId) -> spec_fn(SyncRecordView) -> nat {
    |record: SyncRecordView| batches_size(select(record.payload, BatchSelector::CarriedBy(task)))
}

/// `task` carries a batch of `batches`.
pub open spec fn has_carried(batches: Seq<BufferedBatch>, task: TaskId) -> bool {
    select(batches, BatchSelector::CarriedBy(task)).len() > 0
}

/// `batches` after `task` has ended: without what it carried if it
/// succeeded, else with that idle again.
pub open spec fn settle_batches(
    batches: Seq<BufferedBatch>,
    task: TaskId,
    succeeded: bool,
) -> Seq<BufferedBatch> {
    if succeeded {
        select(batches, BatchSelector::NotCarriedBy(task))
    } else {
        release_all(batches, task)
    }
}

/// The task `task` uploads memtables of the record, or is its sync.
pub open spec fn record_carries(record: SyncRecordView, task: TaskId) -> bool {
    record.stage == SyncStage::Syncing(task) || has_carried(record.payload, task)
}

/// A record after the upload `task` has ended.
pub open spec fn settle_record(
    record: SyncRecordView,
    task: TaskId,
    produced: Option<Seq<LocalSstableInfo>>,
) -> SyncRecordView {
    SyncRecordView {
        sync_epoch: record.sync_epoch,
        stage: if record.stage == SyncStage::Syncing(task) {
            if produced is Some {
                SyncStage::Synced
            } else {
                SyncStage::Failed
            }
        } else {
            record.stage
        },
        payload: settle_batches(record.payload, task, produced is Some),
        ssts: match produced {
            Some(ssts) if record_carries(record, task) => record.ssts + ssts,
            _ => record.ssts,
        },
        sync_size: record.sync_size,
    }
}

/// Some record is for the epoch `epoch`.
pub open spec fn has_record(syncing: Seq<SyncRecordView>, epoch: HummockEpoch) -> bool {
    exists|i: int| 0 <= i < syncing.len() && (#[trigger] syncing[i]).sync_epoch == epoch
}

/// The position of the record for `epoch`.
pub open spec fn record_position(syncing: Seq<SyncRecordView>, epoch: HummockEpoch) -> int {
    choose|i: int| 0 <= i < syncing.len() && (#[trigger] syncing[i]).sync_epoch == epoch
}

/// The epochs of the records ascend strictly.
pub open spec fn records_ascend(syncing: Seq<SyncRecordView>) -> bool {
    forall|i: int, j: int|
        0 <= i < j < syncing.len() ==> (#[trigger] syncing[i]).sync_epoch < (#[trigger] syncing[j]).sync_epoch
}

impl LocalVersionView {
    /// The records ascend by epoch, and none is above the largest sync
    /// epoch.
    pub open spec fn wf(self) -> bool {
        &&& records_ascend(self.syncing)
        &&& forall|i: int|
            0 <= i < self.syncing.len() ==> (#[trigger] self.syncing[i]).sync_epoch <= self.max_sync_epoch
    }

    /// The bytes of all memtables in the buffer.
    pub open spec fn buffer_bytes(self) -> nat {
        batches_size(self.unsynced) + sum_by(self.syncing, record_bytes())
    }

    /// The bytes of the memtables that uploads carry.
    pub open spec fn uploading_bytes(self) -> nat {
        uploading_size(self.unsynced) + sum_by(self.syncing, record_uploading_bytes())
    }

    /// The bytes of the memtables that `task` carries.
    pub open spec fn carried_bytes(self, task: TaskId) -> nat {
        batches_size(select(self.unsynced, BatchSelector::CarriedBy(task))) + sum_by(
            self.syncing,
            record_carried_bytes(task),
        )
    }

    /// After a write of `imm`.
    pub open spec fn write(self, imm: Arc<ImmutableMemtable>) -> LocalVersionView {
        LocalVersionView {
            unsynced: self.unsynced.push(BufferedBatch { imm, uploading: None }),
            ..self
        }
    }

    /// After sealing `epoch`, which is above the largest sync epoch.
    /// Without checkpoint only the sealed epoch moves. With it, the unsynced memtables up to `epoch`, and the files
    /// flushed from such, move into a new record.
    pub open spec fn seal(self, epoch: HummockEpoch, is_checkpoint: bool) -> LocalVersionView {
        if is_checkpoint {
            LocalVersionView {
                pinned_version: self.pinned_version,
                unsynced: select(self.unsynced, BatchSelector::EpochAbove(epoch)),
                unsynced_ssts: select_ssts(self.unsynced_ssts, epoch, false),
                syncing: self.syncing.push(
                    SyncRecordView {
                        sync_epoch: epoch,
                        stage: SyncStage::Sealed,
                        payload: select(self.unsynced, BatchSelector::EpochUpTo(epoch)),
                        ssts: select_ssts(self.unsynced_ssts, epoch, true),
                        sync_size: 0,
                    },
                ),
                max_sync_epoch: epoch,
                sealed_epoch: epoch,
                initial_max_committed_epoch: self.initial_max_committed_epoch,
            }
        } else {
            LocalVersionView { sealed_epoch: epoch, ..self }
        }
    }

    /// The state in which the sync of `epoch` starts: as it is where the
    /// record exists, else after sealing `epoch` as a checkpoint.
    pub open spec fn sealed_for(self, epoch: HummockEpoch) -> LocalVersionView {
        if has_record(self.syncing, epoch) {
            self
        } else {
            self.seal(epoch, true)
        }
    }

    /// The memtables that the sync of `epoch` uploads: those of its record
    /// that no upload carries yet.
    pub open spec fn sync_payload(self, epoch: HummockEpoch) -> Seq<Arc<ImmutableMemtable>> {
        let sealed = self.sealed_for(epoch);
        memtables_of(
            select(sealed.syncing[record_position(sealed.syncing, epoch)].payload, BatchSelector::Idle),
        )
    }

    /// The bytes that the sync of `epoch` uploads.
    pub open spec fn sync_bytes(self, epoch: HummockEpoch) -> nat {
        let sealed = self.sealed_for(epoch);
        batches_size(
            select(sealed.syncing[record_position(sealed.syncing, epoch)].payload, BatchSelector::Idle),
        )
    }

    /// After the sync of `epoch` has started as the task `task`.
    pub open spec fn start_sync(self, epoch: HummockEpoch, task: TaskId) -> LocalVersionView {
        let sealed = self.sealed_for(epoch);
        let position = record_position(sealed.syncing, epoch);
        let record = sealed.syncing[position];
        LocalVersionView {
            syncing: sealed.syncing.update(
                position,
                SyncRecordView {
                    stage: SyncStage::Syncing(task),
                    payload: take_all(record.payload, task),
                    sync_size: sealed.sync_bytes(epoch) as usize,
                    ..record
                },
            ),
            ..sealed
        }
    }

    /// The oldest unsynced memtable that no upload carries stands at
    /// `index`: none such is of a smaller epoch, and none of the same epoch
    /// stands before it.
    pub open spec fn is_next_flush(self, index: int) -> bool {
        &&& 0 <= index < self.unsynced.len()
        &&& self.unsynced[index].uploading is None
        &&& forall|i: int|
            0 <= i < self.unsynced.len() && (#[trigger] self.unsynced[i]).uploading is None ==> {
                &&& self.unsynced[index].imm.spec_epoch() <= self.unsynced[i].imm.spec_epoch()
                &&& self.unsynced[index].imm.spec_epoch() == self.unsynced[i].imm.spec_epoch() ==> index
                    <= i
            }
    }

    /// Some unsynced memtable is carried by no upload.
    pub open spec fn has_flushable(self) -> bool {
        exists|i: int| 0 <= i < self.unsynced.len() && (#[trigger] self.unsynced[i]).uploading is None
    }

    /// After the flush of the unsynced memtable at `index` has started as
    /// the task `task`.
    pub open spec fn start_flush(self, index: int, task: TaskId) -> LocalVersionView {
        LocalVersionView {
            unsynced: self.unsynced.update(
                index,
                BufferedBatch { imm: self.unsynced[index].imm, uploading: Some(task) },
            ),
            ..self
        }
    }

    /// After the upload `task` has ended, with the files `produced` or, if
    /// it failed, with none. The memtables that a successful upload carried
    /// leave, and its files join the files of whatever held those memtables;
    /// those of a failed one are idle again. A record whose sync the task
    /// was goes on to `Synced` or `Failed`.
    pub open spec fn settle(
        self,
        task: TaskId,
        produced: Option<Seq<LocalSstableInfo>>,
    ) -> LocalVersionView {
        LocalVersionView {
            unsynced: settle_batches(self.unsynced, task, produced is Some),
            unsynced_ssts: match produced {
                Some(ssts) if has_carried(self.unsynced, task) => self.unsynced_ssts + ssts,
                _ => self.unsynced_ssts,
            },
            syncing: self.syncing.map_values(|record: SyncRecordView| settle_record(record, task, produced)),
            ..self
        }
    }

    /// After the version `pinned` was committed: the records up to its
    /// committed epoch are gone.
    pub open spec fn commit(self, pinned: VersionView) -> LocalVersionView {
        LocalVersionView {
            pinned_version: pinned,
            syncing: self.syncing.filter(
                |record: SyncRecordView| record.sync_epoch > pinned.max_committed_epoch,
            ),
            ..self
        }
    }

    /// After the buffer was cleared.
    pub open spec fn clear(self) -> LocalVersionView {
        LocalVersionView {
            unsynced: Seq::empty(),
            unsynced_ssts: Seq::empty(),
            syncing: Seq::empty(),
            ..self
        }
    }
}

/// In ascending records an epoch stands at one position only.
pub proof fn lemma_record_position(syncing: Seq<SyncRecordView>, i: int)
    requires
        records_ascend(syncing),
        0 <= i < syncing.len(),
    ensures
        has_record(syncing, syncing[i].sync_epoch),
        record_position(syncing, syncing[i].sync_epoch) == i,
{
    let p = record_position(syncing, syncing[i].sync_epoch);
    if p < i {
        assert(syncing[p].sync_epoch < syncing[i].sync_epoch);
    } else if i < p {
        assert(syncing[i].sync_epoch < syncing[p].sync_epoch);
    }
}

/// A write adds its bytes to the buffer and nothing to what is uploading.
pub proof fn lemma_write_bytes(v: LocalVersionView, imm: Arc<ImmutableMemtable>)
    ensures
        v.write(imm).buffer_bytes() == v.buffer_bytes() + imm.spec_size(),
        v.write(imm).uploading_bytes() == v.uploading_bytes(),
        v.wf() ==> v.write(imm).wf(),
{
    let batch = BufferedBatch { imm, uploading: None };
    lemma_sum_push(v.unsynced, batch, batch_bytes());
    lemma_sum_push(v.unsynced, batch, batch_uploading_bytes());
}

/// Sealing moves memtables and leaves the bytes as they are.
pub proof fn lemma_seal_bytes(v: LocalVersionView, epoch: HummockEpoch, is_checkpoint: bool)
    requires
        v.wf(),
        is_checkpoint ==> epoch > v.max_sync_epoch,
    ensures
        v.seal(epoch, is_checkpoint).wf(),
        v.seal(epoch, is_checkpoint).buffer_bytes() == v.buffer_bytes(),
        v.seal(epoch, is_checkpoint).uploading_bytes() == v.uploading_bytes(),
        is_checkpoint ==> has_record(v.seal(epoch, is_checkpoint).syncing, epoch),
        is_checkpoint ==> record_position(v.seal(epoch, is_checkpoint).syncing, epoch)
            == v.syncing.len(),
{
    if is_checkpoint {
        let after = v.seal(epoch, true);
        let record = after.syncing[v.syncing.len() as int];
        lemma_select_split(v.unsynced, BatchSelector::EpochAbove(epoch), BatchSelector::EpochUpTo(epoch));
        lemma_sum_push(v.syncing, record, record_bytes());
        lemma_sum_push(v.syncing, record, record_uploading_bytes());
        assert forall|i: int, j: int| 0 <= i < j < after.syncing.len() implies (#[trigger] after.syncing[i]).sync_epoch
            < (#[trigger] after.syncing[j]).sync_epoch by {
            if j < v.syncing.len() {
                assert(v.syncing[i].sync_epoch < v.syncing[j].sync_epoch);
            } else {
                assert(v.syncing[i].sync_epoch <= v.max_sync_epoch);
            }
        }
        assert forall|i: int| 0 <= i < after.syncing.len() implies (#[trigger] after.syncing[i]).sync_epoch
            <= after.max_sync_epoch by {
            if i < v.syncing.len() {
                assert(v.syncing[i].sync_epoch <= v.max_sync_epoch);
            }
        }
        lemma_record_position(after.syncing, v.syncing.len() as int);
    }
}

/// The payload of each record is part of the buffer.
pub proof fn lemma_record_bounds(v: LocalVersionView, i: int)
    requires
        0 <= i < v.syncing.len(),
    ensures
        batches_size(v.syncing[i].payload) <= v.buffer_bytes(),
        uploading_size(v.syncing[i].payload) <= v.uploading_bytes(),
        batches_size(select(v.syncing[i].payload, BatchSelector::Idle)) <= v.buffer_bytes(),
{
    lemma_sum_bounds(v.syncing, i, record_bytes());
    lemma_sum_bounds(v.syncing, i, record_uploading_bytes());
    lemma_idle_not_uploading(v.syncing[i].payload);
}

/// Uploads carry no more than the buffer holds.
pub proof fn lemma_uploading_bounds(v: LocalVersionView)
    ensures
        v.uploading_bytes() <= v.buffer_bytes(),
{
    lemma_uploading_le(v.unsynced);
    assert forall|record: SyncRecordView| #[trigger] (record_uploading_bytes())(record) <= (record_bytes())(
        record,
    ) by {
        lemma_uploading_le(record.payload);
    }
    lemma_sum_le(v.syncing, record_uploading_bytes(), record_bytes());
}

/// Starting a sync leaves the buffer as large as it is, and adds the
/// payload to what is uploading.
pub proof fn lemma_start_sync_bytes(v: LocalVersionView, epoch: HummockEpoch, task: TaskId)
    requires
        v.wf(),
        !has_record(v.syncing, epoch) ==> epoch > v.max_sync_epoch,
    ensures
        v.start_sync(epoch, task).wf(),
        v.start_sync(epoch, task).buffer_bytes() == v.buffer_bytes(),
        v.start_sync(epoch, task).uploading_bytes() == v.uploading_bytes() + v.sync_bytes(epoch),
        v.sync_bytes(epoch) <= v.buffer_bytes(),
{
    let sealed = v.sealed_for(epoch);
    if !has_record(v.syncing, epoch) {
        lemma_seal_bytes(v, epoch, true);
    }
    let position = record_position(sealed.syncing, epoch);
    let record = sealed.syncing[position];
    let after = v.start_sync(epoch, task);
    let started = after.syncing[position];
    lemma_take_all(record.payload, task);
    lemma_idle_not_uploading(record.payload);
    lemma_sum_update(sealed.syncing, position, started, record_bytes());
    lemma_sum_update(sealed.syncing, position, started, record_uploading_bytes());
    lemma_record_bounds(sealed, position);
    assert forall|i: int, j: int| 0 <= i < j < after.syncing.len() implies (#[trigger] after.syncing[i]).sync_epoch
        < (#[trigger] after.syncing[j]).sync_epoch by {
        assert(sealed.syncing[i].sync_epoch < sealed.syncing[j].sync_epoch);
    }
    assert forall|i: int| 0 <= i < after.syncing.len() implies (#[trigger] after.syncing[i]).sync_epoch
        <= after.max_sync_epoch by {
        assert(sealed.syncing[i].sync_epoch <= sealed.max_sync_epoch);
    }
}

/// Starting a flush leaves the buffer as large as it is, and adds the
/// memtable to what is uploading.
pub proof fn lemma_start_flush_bytes(v: LocalVersionView, index: int, task: TaskId)
    requires
        0 <= index < v.unsynced.len(),
        v.unsynced[index].uploading is None,
    ensures
        v.start_flush(index, task).buffer_bytes() == v.buffer_bytes(),
        v.start_flush(index, task).uploading_bytes() == v.uploading_bytes() + v.unsynced[index].imm.spec_size(),
        v.unsynced[index].imm.spec_size() <= v.buffer_bytes(),
        v.wf() ==> v.start_flush(index, task).wf(),
{
    let marked = BufferedBatch { imm: v.unsynced[index].imm, uploading: Some(task) };
    lemma_sum_update(v.unsynced, index, marked, batch_bytes());
    lemma_sum_update(v.unsynced, index, marked, batch_uploading_bytes());
    lemma_sum_bounds(v.unsynced, index, batch_bytes());
}

/// What a list of batches holds and carries after an upload has ended.
pub proof fn lemma_settle_batches(batches: Seq<BufferedBatch>, task: TaskId, succeeded: bool)
    ensures
        batches_size(settle_batches(batches, task, succeeded)) + (if succeeded {
            batches_size(select(batches, BatchSelector::CarriedBy(task)))
        } else {
            0
        }) == batches_size(batches),
        uploading_size(settle_batches(batches, task, succeeded)) + batches_size(
            select(batches, BatchSelector::CarriedBy(task)),
        ) == uploading_size(batches),
{
    if succeeded {
        lemma_select_split(batches, BatchSelector::CarriedBy(task), BatchSelector::NotCarriedBy(task));
        lemma_carried_is_uploading(batches, task);
    } else {
        lemma_release_all(batches, task);
    }
}

/// An upload that ends takes what it carried out of what is uploading,
/// and, if it succeeded, out of the buffer.
pub proof fn lemma_settle_bytes(
    v: LocalVersionView,
    task: TaskId,
    produced: Option<Seq<LocalSstableInfo>>,
)
    ensures
        v.settle(task, produced).buffer_bytes() + (if produced is Some {
            v.carried_bytes(task)
        } else {
            0
        }) == v.buffer_bytes(),
        v.settle(task, produced).uploading_bytes() + v.carried_bytes(task) == v.uploading_bytes(),
        v.carried_bytes(task) <= v.uploading_bytes(),
        v.wf() ==> v.settle(task, produced).wf(),
{
    let succeeded = produced is Some;
    let settled = |record: SyncRecordView| settle_record(record, task, produced);
    let left = |record: SyncRecordView| batches_size(settle_batches(record.payload, task, succeeded));
    let left_uploading = |record: SyncRecordView|
        uploading_size(settle_batches(record.payload, task, succeeded));
    let gone = |record: SyncRecordView|
        if succeeded {
            batches_size(select(record.payload, BatchSelector::CarriedBy(task)))
        } else {
            0
        };
    let zero = |record: SyncRecordView| 0nat;
    lemma_settle_batches(v.unsynced, task, succeeded);
    lemma_sum_map(v.syncing, settled, record_bytes(), left);
    lemma_sum_map(v.syncing, settled, record_uploading_bytes(), left_uploading);
    assert forall|record: SyncRecordView| #[trigger] (record_bytes())(record) == left(record) + gone(
        record,
    ) by {
        lemma_settle_batches(record.payload, task, succeeded);
    }
    assert forall|record: SyncRecordView| #[trigger] (record_uploading_bytes())(record)
        == left_uploading(record) + (record_carried_bytes(task))(record) by {
        lemma_settle_batches(record.payload, task, succeeded);
    }
    lemma_sum_pointwise(v.syncing, record_bytes(), left, gone);
    lemma_sum_pointwise(v.syncing, record_uploading_bytes(), left_uploading, record_carried_bytes(task));
    if succeeded {
        lemma_sum_agree(v.syncing, gone, record_carried_bytes(task));
    } else {
        lemma_sum_agree(v.syncing, gone, zero);
        lemma_records_zero(v.syncing);
    }
    let after = v.settle(task, produced);
    if v.wf() {
        assert forall|i: int, j: int| 0 <= i < j < after.syncing.len() implies (#[trigger] after.syncing[i]).sync_epoch
            < (#[trigger] after.syncing[j]).sync_epoch by {
            assert(v.syncing[i].sync_epoch < v.syncing[j].sync_epoch);
        }
        assert forall|i: int| 0 <= i < after.syncing.len() implies (#[trigger] after.syncing[i]).sync_epoch
            <= after.max_sync_epoch by {
            assert(v.syncing[i].sync_epoch <= v.max_sync_epoch);
        }
    }
}

/// A sum of zeros is zero.
proof fn lemma_records_zero(syncing: Seq<SyncRecordView>)
    ensures
        sum_by(syncing, |record: SyncRecordView| 0nat) == 0,
    decreases syncing.len(),
{
    if syncing.len() > 0 {
        lemma_records_zero(syncing.drop_last());
    }
}

/// The bytes of the records up to `epoch`.
pub open spec fn evicted_bytes(syncing: Seq<SyncRecordView>, epoch: HummockEpoch) -> nat {
    sum_by(syncing.filter(|record: SyncRecordView| record.sync_epoch <= epoch), record_bytes())
}

/// The bytes of the records up to `epoch` that uploads carry.
pub open spec fn evicted_uploading_bytes(syncing: Seq<SyncRecordView>, epoch: HummockEpoch) -> nat {
    sum_by(syncing.filter(|record: SyncRecordView| record.sync_epoch <= epoch), record_uploading_bytes())
}

/// A commit takes the records up to the committed epoch out of the buffer.
pub proof fn lemma_commit_bytes(v: LocalVersionView, pinned: VersionView)
    ensures
        v.commit(pinned).buffer_bytes() + evicted_bytes(v.syncing, pinned.max_committed_epoch)
            == v.buffer_bytes(),
        v.commit(pinned).uploading_bytes() + evicted_uploading_bytes(
            v.syncing,
            pinned.max_committed_epoch,
        ) == v.uploading_bytes(),
        v.wf() ==> v.commit(pinned).wf(),
{
    let epoch = pinned.max_committed_epoch;
    let kept = |record: SyncRecordView| record.sync_epoch > epoch;
    let gone = |record: SyncRecordView| record.sync_epoch <= epoch;
    lemma_sum_split(v.syncing, kept, gone, record_bytes());
    lemma_sum_split(v.syncing, kept, gone, record_uploading_bytes());
    if v.wf() {
        lemma_filter_ascend(v.syncing, kept, v.max_sync_epoch);
    }
}

/// Filtering ascending records leaves them ascending and below the same
/// bound.
pub proof fn lemma_filter_ascend(
    syncing: Seq<SyncRecordView>,
    pred: spec_fn(SyncRecordView) -> bool, bound: HummockEpoch,
)
    requires
        records_ascend(syncing),
        forall|i: int| 0 <= i < syncing.len() ==> (#[trigger] syncing[i]).sync_epoch <= bound,
    ensures
        records_ascend(syncing.filter(pred)),
        forall|i: int|
            0 <= i < syncing.filter(pred).len() ==> (#[trigger] syncing.filter(pred)[i]).sync_epoch <= bound,
        forall|i: int|
            0 <= i < syncing.filter(pred).len() && syncing.len() > 0 ==> (#[trigger] syncing.filter(
                pred,
            )[i]).sync_epoch <= syncing.last().sync_epoch,
    decreases syncing.len(),
{
    reveal(Seq::filter);
    if syncing.len() > 0 {
        let front = syncing.drop_last();
        assert forall|i: int, j: int| 0 <= i < j < front.len() implies (#[trigger] front[i]).sync_epoch < (
        #[trigger] front[j]).sync_epoch by {
            assert(syncing[i].sync_epoch < syncing[j].sync_epoch);
        }
        assert forall|i: int| 0 <= i < front.len() implies (#[trigger] front[i]).sync_epoch <= bound by {
            assert(syncing[i].sync_epoch <= bound);
        }
        lemma_filter_ascend(front, pred, bound);
        let filtered = front.filter(pred);
        assert forall|i: int| 0 <= i < filtered.len() implies (#[trigger] filtered[i]).sync_epoch
            < syncing.last().sync_epoch by {
            if front.len() > 0 {
                assert(filtered[i].sync_epoch <= front.last().sync_epoch);
                assert(front.last() == syncing[syncing.len() - 2]);
                assert(syncing[syncing.len() - 2].sync_epoch < syncing[syncing.len() - 1].sync_epoch);
            }
        }
        assert(syncing.last() == syncing[syncing.len() - 1]);
    }
}

/// A cleared buffer holds nothing.
pub proof fn lemma_clear_bytes(v: LocalVersionView)
    ensures
        v.clear().buffer_bytes() == 0,
        v.clear().uploading_bytes() == 0,
        v.wf() ==> v.clear().wf(),
{
}

/// The largest record epoch below `epoch` stands at `index`.
pub open spec fn is_largest_below(
    syncing: Seq<SyncRecordView>,
    epoch: HummockEpoch,
    index: int,
) -> bool {
    &&& 0 <= index < syncing.len()
    &&& syncing[index].sync_epoch < epoch
    &&& forall|i: int|
        0 <= i < syncing.len() && (#[trigger] syncing[i]).sync_epoch < epoch ==> syncing[i].sync_epoch
            <= syncing[index].sync_epoch
}

/// `prev` is what comes before the sync epoch `epoch`: nothing if `epoch`
/// is not above the committed epoch, else the largest record epoch below
/// `epoch`, or, where there is no such record, the committed epoch that
/// the buffer started on.
pub open spec fn is_prev_max_sync_epoch(
    v: LocalVersionView,
    epoch: HummockEpoch,
    prev: Option<HummockEpoch>,
) -> bool {
    if epoch <= v.pinned_version.max_committed_epoch {
        prev is None
    } else {
        match prev {
            None => false,
            Some(before) => {
                ||| exists|index: int|
                    is_largest_below(v.syncing, epoch, index) && before == v.syncing[index].sync_epoch
                ||| {
                    &&& forall|i: int|
                        0 <= i < v.syncing.len() ==> (#[trigger] v.syncing[i]).sync_epoch >= epoch
                    &&& before == v.initial_max_committed_epoch
                }
            },
        }
    }
}

/// The number of batches that no upload carries.
pub open spec fn idle_count(batches: Seq<BufferedBatch>) -> nat {
    sum_by(
        batches,
        |batch: BufferedBatch|
            if batch.uploading is None {
                1nat
            } else {
                0nat
            },
    )
}

/// There are no more idle batches than batches.
pub proof fn lemma_idle_count_le(batches: Seq<BufferedBatch>)
    ensures
        idle_count(batches) <= batches.len(),
    decreases batches.len(),
{
    if batches.len() > 0 {
        lemma_idle_count_le(batches.drop_last());
    }
}

/// The oldest idle memtable stands at one position only; handing it to a
/// task leaves one idle batch less.
pub proof fn lemma_next_flush(v: LocalVersionView, i: int, j: int, task: TaskId)
    requires
        v.is_next_flush(i),
        v.is_next_flush(j),
    ensures
        i == j,
        v.has_flushable(),
        idle_count(v.start_flush(i, task).unsynced) + 1 == idle_count(v.unsynced),
        v.start_flush(i, task).unsynced.len() == v.unsynced.len(),
{
    let share = |batch: BufferedBatch|
        if batch.uploading is None {
            1nat
        } else {
            0nat
        };
    lemma_sum_update(
        v.unsynced,
        i,
        BufferedBatch { imm: v.unsynced[i].imm, uploading: Some(task) },
        share,
    );
}

/// What comes before the sync epoch `epoch`.
pub open spec fn prev_max_sync_epoch(
    v: LocalVersionView,
    epoch: HummockEpoch,
) -> Option<HummockEpoch> {
    choose|prev: Option<HummockEpoch>| is_prev_max_sync_epoch(v, epoch, prev)
}

/// Only one epoch comes before a sync epoch.
pub proof fn lemma_prev_max_sync_epoch(
    v: LocalVersionView,
    epoch: HummockEpoch,
    prev: Option<HummockEpoch>,
)
    requires
        is_prev_max_sync_epoch(v, epoch, prev),
    ensures
        prev_max_sync_epoch(v, epoch) == prev,
        prev is None <==> epoch <= v.pinned_version.max_committed_epoch,
{
    let other = prev_max_sync_epoch(v, epoch);
    assert(is_prev_max_sync_epoch(v, epoch, other));
    if epoch > v.pinned_version.max_committed_epoch {
        let a = prev->0;
        let b = other->0;
        if exists|index: int| is_largest_below(v.syncing, epoch, index) && a == v.syncing[index].sync_epoch {
            let i = choose|index: int|
                is_largest_below(v.syncing, epoch, index) && a == v.syncing[index].sync_epoch;
            if exists|index: int|
                is_largest_below(v.syncing, epoch, index) && b == v.syncing[index].sync_epoch {
                let j = choose|index: int|
                    is_largest_below(v.syncing, epoch, index) && b == v.syncing[index].sync_epoch;
                assert(v.syncing[i].sync_epoch <= v.syncing[j].sync_epoch);
                assert(v.syncing[j].sync_epoch <= v.syncing[i].sync_epoch);
            } else {
                assert(v.syncing[i].sync_epoch >= epoch);
            }
        } else {
            if exists|index: int|
                is_largest_below(v.syncing, epoch, index) && b == v.syncing[index].sync_epoch {
                let j = choose|index: int|
                    is_largest_below(v.syncing, epoch, index) && b == v.syncing[index].sync_epoch;
                assert(v.syncing[j].sync_epoch >= epoch);
            }
        }
    }
}

/// What an upload produced, as a mathematical object.
pub open spec fn produced_view(
    produced: Option<Vec<LocalSstableInfo>>,
) -> Option<Seq<LocalSstableInfo>> {
    match produced {
        Some(ssts) => Some(ssts@),
        None => None,
    }
}

/// The bytes that an ended upload had carried, and those that left the
/// buffer with it.
#[derive(Clone, Copy, Debug, PartialEq, Eq, Structural)]
pub struct SettledBytes {
    pub carried: usize,
    pub released: usize,
}

impl SyncRecord {
    /// The record after the upload `task` has ended, and the bytes that the
    /// task carried of it.
    pub fn settle(
        &self,
        task: TaskId,
        produced: &Option<Vec<LocalSstableInfo>>,
    ) -> (settled: (SyncRecord, usize))
        requires
            batches_size(self.payload@) <= usize::MAX,
        ensures
            settled.0@ == settle_record(self@, task, produced_view(*produced)),
            settled.1 == batches_size(select(self.payload@, BatchSelector::CarriedBy(task))),
    {
        let carried = select_batches(&self.payload, BatchSelector::CarriedBy(task));
        proof {
            lemma_select_split(
                self.payload@,
                BatchSelector::CarriedBy(task),
                BatchSelector::NotCarriedBy(task),
            );
        }
        let carried_bytes = sum_sizes(&carried);
        let is_sync = match self.stage {
            SyncStage::Syncing(running) => running == task,
            _ => false,
        };
        let carries = is_sync || carried.len() > 0;
        let empty: Vec<LocalSstableInfo> = Vec::new();
        let (stage, payload, ssts) = match produced {
            Some(files) => (
                if is_sync {
                    SyncStage::Synced
                } else {
                    self.stage
                },
                select_batches(&self.payload, BatchSelector::NotCarriedBy(task)),
                if carries {
                    concat_ssts(&self.ssts, files)
                } else {
                    concat_ssts(&self.ssts, &empty)
                },
            ),
            None => (
                if is_sync {
                    SyncStage::Failed
                } else {
                    self.stage
                },
                release_batches(&self.payload, task),
                concat_ssts(&self.ssts, &empty),
            ),
        };
        assert(self.ssts@ + empty@ =~= self.ssts@);
        (
            SyncRecord { sync_epoch: self.sync_epoch, stage, payload, ssts, sync_size: self.sync_size },
            carried_bytes,
        )
    }
}

impl LocalVersion {
    /// An empty buffer on top of the version `pinned_version`.
    pub fn new(pinned_version: PinnedVersion) -> (local: LocalVersion)
        ensures
            local@.wf(),
            local@.pinned_version == pinned_version@,
            local@.unsynced.len() == 0,
            local@.unsynced_ssts.len() == 0,
            local@.syncing.len() == 0,
            local@.max_sync_epoch == pinned_version@.max_committed_epoch,
            local@.sealed_epoch == pinned_version@.max_committed_epoch,
            local@.initial_max_committed_epoch == pinned_version@.max_committed_epoch,
            local@.buffer_bytes() == 0,
            local@.uploading_bytes() == 0,
    {
        let epoch = pinned_version.max_committed_epoch();
        LocalVersion {
            pinned_version,
            unsynced: Vec::new(),
            unsynced_ssts: Vec::new(),
            syncing: Vec::new(),
            max_sync_epoch: epoch,
            sealed_epoch: epoch,
            initial_max_committed_epoch: epoch,
        }
    }

    pub fn pinned_version(&self) -> (pinned: &PinnedVersion)
        ensures
            pinned@ == self@.pinned_version,
            *pinned == self.pinned_version,
    {
        &self.pinned_version
    }

    pub fn get_max_sync_epoch(&self) -> (epoch: HummockEpoch)
        ensures
            epoch == self@.max_sync_epoch,
    {
        self.max_sync_epoch
    }

    /// Puts `imm` into the buffer, behind what is there.
    pub fn write_shared_buffer_batch(&mut self, imm: Arc<ImmutableMemtable>)
        ensures
            final(self)@ == old(self)@.write(imm),
    {
        self.unsynced.push(BufferedBatch { imm, uploading: None });
    }

    /// Seals `epoch`, which has to be above the largest sync epoch: no more
    /// writes are expected up to it. With
    /// `is_checkpoint` the epoch becomes syncable: a record is made for it,
    /// which takes the unsynced memtables up to `epoch`.
    pub fn seal_epoch(&mut self, epoch: HummockEpoch, is_checkpoint: bool)
        requires
            old(self)@.wf(),
            epoch > old(self)@.max_sync_epoch,
        ensures
            final(self)@ == old(self)@.seal(epoch, is_checkpoint),
            final(self)@.wf(),
            final(self)@.buffer_bytes() == old(self)@.buffer_bytes(),
            final(self)@.uploading_bytes() == old(self)@.uploading_bytes(),
    {
        proof {
            lemma_seal_bytes(self@, epoch, is_checkpoint);
        }
        self.sealed_epoch = epoch;
        if is_checkpoint {
            let payload = select_batches(&self.unsynced, BatchSelector::EpochUpTo(epoch));
            let rest = select_batches(&self.unsynced, BatchSelector::EpochAbove(epoch));
            let ssts = copy_ssts_by_epoch(&self.unsynced_ssts, epoch, true);
            let rest_ssts = copy_ssts_by_epoch(&self.unsynced_ssts, epoch, false);
            let record = SyncRecord {
                sync_epoch: epoch,
                stage: SyncStage::Sealed,
                payload,
                ssts,
                sync_size: 0,
            };
            self.unsynced = rest;
            self.unsynced_ssts = rest_ssts;
            self.syncing.push(record);
            self.max_sync_epoch = epoch;
            assert(self@.syncing =~= old(self)@.seal(epoch, is_checkpoint).syncing);
        }
    }

    /// Where the record for `epoch` stands, if there is one.
    pub fn record_index(&self, epoch: HummockEpoch) -> (found: Option<usize>)
        requires
            self@.wf(),
        ensures
            match found {
                Some(index) => has_record(self@.syncing, epoch) && index == record_position(
                    self@.syncing,
                    epoch,
                ) && index < self.syncing@.len(),
                None => !has_record(self@.syncing, epoch),
            },
    {
        let mut i: usize = 0;
        while i < self.syncing.len()
            invariant
                i <= self.syncing.len(),
                self@.wf(),
                forall|j: int| 0 <= j < i ==> (#[trigger] self@.syncing[j]).sync_epoch != epoch,
            decreases self.syncing.len() - i,
        {
            if self.syncing[i].sync_epoch == epoch {
                proof {
                    assert(self@.syncing[i as int].sync_epoch == epoch);
                    lemma_record_position(self@.syncing, i as int);
                }
                return Some(i);
            }
            i = i + 1;
        }
        None
    }

    /// The stage of the record for `epoch`, if there is one.
    pub fn stage(&self, epoch: HummockEpoch) -> (stage: Option<SyncStage>)
        requires
            self@.wf(),
        ensures
            match stage {
                Some(stage) => has_record(self@.syncing, epoch) && stage == self@.syncing[record_position(
                    self@.syncing,
                    epoch,
                )].stage,
                None => !has_record(self@.syncing, epoch),
            },
    {
        match self.record_index(epoch) {
            Some(index) => Some(self.syncing[index].stage),
            None => None,
        }
    }

    /// What comes before the sync epoch `epoch`: the largest record epoch
    /// below it, or, if there is none, the committed epoch that the buffer
    /// started on. `None` if `epoch` is not above the committed epoch.
    pub fn get_prev_max_sync_epoch(&self, epoch: HummockEpoch) -> (prev: Option<HummockEpoch>)
        ensures
            is_prev_max_sync_epoch(self@, epoch, prev),
            prev == prev_max_sync_epoch(self@, epoch),
            prev is None <==> epoch <= self@.pinned_version.max_committed_epoch,
    {
        if epoch <= self.pinned_version.max_committed_epoch() {
            proof {
                lemma_prev_max_sync_epoch(self@, epoch, None);
            }
            return None;
        }
        let mut best: Option<usize> = None;
        let mut i: usize = 0;
        while i < self.syncing.len()
            invariant
                i <= self.syncing.len(),
                match best {
                    Some(index) => index < i && is_largest_below(self@.syncing.take(i as int), epoch, index as int),
                    None => forall|j: int| 0 <= j < i ==> (#[trigger] self@.syncing[j]).sync_epoch >= epoch,
                },
            decreases self.syncing.len() - i,
        {
            let ghost before = self@.syncing.take(i as int);
            let ghost after = self@.syncing.take(i + 1);
            let ghost old_best = best;
            let candidate = self.syncing[i].sync_epoch;
            assert(self@.syncing[i as int].sync_epoch == candidate);
            if candidate < epoch {
                let better = match best {
                    Some(index) => self.syncing[index].sync_epoch < candidate,
                    None => true,
                };
                if better {
                    best = Some(i);
                }
            }
            proof {
                if best is Some {
                    let index = best->0 as int;
                    assert forall|j: int| 0 <= j < after.len() && (#[trigger] after[j]).sync_epoch < epoch implies after[j].sync_epoch
                        <= after[index].sync_epoch by {
                        if j < i {
                            assert(before[j] == after[j]);
                        }
                        if old_best is Some {
                            assert(before[old_best->0 as int] == after[old_best->0 as int]);
                        }
                    }
                }
            }
            i = i + 1;
        }
        assert(self@.syncing.take(self.syncing.len() as int) =~= self@.syncing);
        let prev = match best {
            Some(index) => Some(self.syncing[index].sync_epoch),
            None => Some(self.initial_max_committed_epoch),
        };
        proof {
            if best is Some {
                assert(is_largest_below(self@.syncing, epoch, best->0 as int));
            }
            lemma_prev_max_sync_epoch(self@, epoch, prev);
        }
        prev
    }

    /// Starts the sync of `epoch` as the task `task`: the record goes from
    /// `Sealed` to `Syncing`, after it was made by sealing `epoch` if it was
    /// not there. Returns the memtables to upload and their bytes.
    pub fn start_syncing(&mut self, epoch: HummockEpoch, task: TaskId) -> (started: (
        Vec<Arc<ImmutableMemtable>>,
        usize,
    ))
        requires
            old(self)@.wf(),
            old(self)@.buffer_bytes() <= usize::MAX,
            !has_record(old(self)@.syncing, epoch) ==> epoch > old(self)@.max_sync_epoch,
            has_record(old(self)@.syncing, epoch) ==> old(self)@.syncing[record_position(
                old(self)@.syncing,
                epoch,
            )].stage == SyncStage::Sealed,
        ensures
            final(self)@ == old(self)@.start_sync(epoch, task),
            started.0@ == old(self)@.sync_payload(epoch),
            started.1 == old(self)@.sync_bytes(epoch),
            final(self)@.wf(),
            final(self)@.buffer_bytes() == old(self)@.buffer_bytes(),
            final(self)@.uploading_bytes() == old(self)@.uploading_bytes() + started.1,
    {
        proof {
            lemma_start_sync_bytes(self@, epoch, task);
        }
        let found = self.record_index(epoch);
        let index = match found {
            Some(index) => index,
            None => {
                proof {
                    lemma_seal_bytes(self@, epoch, true);
                }
                self.seal_epoch(epoch, true);
                self.syncing.len() - 1
            },
        };
        let ghost sealed = self@;
        assert(sealed == old(self)@.sealed_for(epoch));
        assert(index == record_position(sealed.syncing, epoch));
        let record = &self.syncing[index];
        assert(record@ == sealed.syncing[index as int]);
        proof {
            lemma_record_bounds(sealed, index as int);
        }
        let idle = select_batches(&record.payload, BatchSelector::Idle);
        let bytes = sum_sizes(&idle);
        let payload = memtables(&idle);
        let empty: Vec<LocalSstableInfo> = Vec::new();
        let started = SyncRecord {
            sync_epoch: record.sync_epoch,
            stage: SyncStage::Syncing(task),
            payload: take_batches(&record.payload, task),
            ssts: concat_ssts(&record.ssts, &empty),
            sync_size: bytes,
        };
        assert(record.ssts@ + empty@ =~= record.ssts@);
        self.syncing.set(index, started);
        assert(self@.syncing =~= old(self)@.start_sync(epoch, task).syncing);
        (payload, bytes)
    }

    /// Picks the oldest unsynced memtable that no upload carries and hands
    /// it to the task `task`. Returns its epoch and the memtable, or `None`
    /// where every unsynced memtable is being uploaded.
    pub fn flush_shared_buffer(
        &mut self,
        task: TaskId,
    ) -> (flushed: Option<(HummockEpoch, Arc<ImmutableMemtable>)>)
        ensures
            match flushed {
                Some((epoch, imm)) => exists|index: int|
                    {
                        &&& old(self)@.is_next_flush(index)
                        &&& final(self)@ == old(self)@.start_flush(index, task)
                        &&& imm == old(self)@.unsynced[index].imm
                        &&& epoch == imm.spec_epoch()
                        &&& final(self)@.buffer_bytes() == old(self)@.buffer_bytes()
                        &&& final(self)@.uploading_bytes() == old(self)@.uploading_bytes() + imm.spec_size()
                        &&& imm.spec_size() <= old(self)@.buffer_bytes()
                    },
                None => !old(self)@.has_flushable() && final(self)@ == old(self)@,
            },
            old(self)@.wf() ==> final(self)@.wf(),
    {
        let mut best: Option<usize> = None;
        let mut i: usize = 0;
        while i < self.unsynced.len()
            invariant
                i <= self.unsynced.len(),
                self@ == old(self)@,
                match best {
                    Some(index) => {
                        &&& index < i
                        &&& self.unsynced@[index as int].uploading is None
                        &&& forall|j: int|
                            0 <= j < i && (#[trigger] self.unsynced@[j]).uploading is None ==> {
                                &&& self.unsynced@[index as int].imm.spec_epoch()
                                    <= self.unsynced@[j].imm.spec_epoch()
                                &&& self.unsynced@[index as int].imm.spec_epoch()
                                    == self.unsynced@[j].imm.spec_epoch() ==> index <= j
                            }
                    },
                    None => forall|j: int| 0 <= j < i ==> (#[trigger] self.unsynced@[j]).uploading is Some,
                },
            decreases self.unsynced.len() - i,
        {
            if self.unsynced[i].uploading.is_none() {
                let better = match best {
                    Some(index) => self.unsynced[i].imm.epoch() < self.unsynced[index].imm.epoch(),
                    None => true,
                };
                if better {
                    best = Some(i);
                }
            }
            i = i + 1;
        }
        match best {
            Some(index) => {
                proof {
                    assert(self@.is_next_flush(index as int));
                    lemma_start_flush_bytes(self@, index as int, task);
                }
                let imm = share(&self.unsynced[index].imm);
                let epoch = imm.epoch();
                self.unsynced.set(index, BufferedBatch { imm: share(&imm), uploading: Some(task) });
                Some((epoch, imm))
            },
            None => None,
        }
    }

    /// Takes note that the upload `task` has ended, with the files
    /// `produced` or, if it failed, with none. Returns the bytes that the
    /// task had carried and those that left the buffer with it.
    pub fn finish_upload(
        &mut self,
        task: TaskId,
        produced: Option<Vec<LocalSstableInfo>>,
    ) -> (bytes: SettledBytes)
        requires
            old(self)@.buffer_bytes() <= usize::MAX,
        ensures
            final(self)@ == old(self)@.settle(task, produced_view(produced)),
            bytes.carried == old(self)@.carried_bytes(task),
            bytes.released == if produced is Some {
                bytes.carried
            } else {
                0
            },
            final(self)@.buffer_bytes() + bytes.released == old(self)@.buffer_bytes(),
            final(self)@.uploading_bytes() + bytes.carried == old(self)@.uploading_bytes(),
            old(self)@.wf() ==> final(self)@.wf(),
    {
        let ghost outcome = produced_view(produced);
        proof {
            lemma_settle_bytes(self@, task, outcome);
            lemma_uploading_bounds(self@);
        }
        let carried_unsynced = select_batches(&self.unsynced, BatchSelector::CarriedBy(task));
        proof {
            lemma_select_split(
                self.unsynced@,
                BatchSelector::CarriedBy(task),
                BatchSelector::NotCarriedBy(task),
            );
        }
        let mut carried: usize = sum_sizes(&carried_unsynced);
        let unsynced = match &produced {
            Some(_) => select_batches(&self.unsynced, BatchSelector::NotCarriedBy(task)),
            None => release_batches(&self.unsynced, task),
        };
        let empty: Vec<LocalSstableInfo> = Vec::new();
        let unsynced_ssts = match &produced {
            Some(files) => if carried_unsynced.len() > 0 {
                concat_ssts(&self.unsynced_ssts, files)
            } else {
                concat_ssts(&self.unsynced_ssts, &empty)
            },
            None => concat_ssts(&self.unsynced_ssts, &empty),
        };
        assert(self.unsynced_ssts@ + empty@ =~= self.unsynced_ssts@);
        let mut syncing: Vec<SyncRecord> = Vec::new();
        let mut i: usize = 0;
        while i < self.syncing.len()
            invariant
                i <= self.syncing.len(),
                self@ == old(self)@,
                self@.buffer_bytes() <= usize::MAX,
                self@.carried_bytes(task) <= self@.buffer_bytes(),
                outcome == produced_view(produced),
                carried == batches_size(select(self@.unsynced, BatchSelector::CarriedBy(task))) + sum_by(
                    self@.syncing.take(i as int),
                    record_carried_bytes(task),
                ),
                record_views(syncing@) == self@.syncing.take(i as int).map_values(
                    |record: SyncRecordView| settle_record(record, task, outcome),
                ),
            decreases self.syncing.len() - i,
        {
            proof {
                lemma_sum_prefix(self@.syncing, i as int, record_carried_bytes(task));
                lemma_record_bounds(self@, i as int);
            }
            let ghost done = record_views(syncing@);
            let (record, bytes) = self.syncing[i].settle(task, &produced);
            assert(self@.syncing[i as int] == self.syncing@[i as int]@);
            assert(record@ == settle_record(self@.syncing[i as int], task, outcome));
            carried = carried + bytes;
            syncing.push(record);
            assert(record_views(syncing@) =~= done.push(record@));
            i = i + 1;
            assert(record_views(syncing@) =~= self@.syncing.take(i as int).map_values(
                |record: SyncRecordView| settle_record(record, task, outcome),
            ));
        }
        assert(self@.syncing.take(self.syncing.len() as int) =~= self@.syncing);
        self.unsynced = unsynced;
        self.unsynced_ssts = unsynced_ssts;
        self.syncing = syncing;
        SettledBytes {
            carried,
            released: if produced.is_some() {
                carried
            } else {
                0
            },
        }
    }

    /// Adds up the bytes of all memtables in the buffer.
    pub fn buffer_size(&self) -> (size: usize)
        requires
            self@.buffer_bytes() <= usize::MAX,
        ensures
            size == self@.buffer_bytes(),
    {
        let mut size: usize = sum_sizes(&self.unsynced);
        let mut i: usize = 0;
        while i < self.syncing.len()
            invariant
                i <= self.syncing.len(),
                self@.buffer_bytes() <= usize::MAX,
                size == batches_size(self@.unsynced) + sum_by(self@.syncing.take(i as int), record_bytes()),
            decreases self.syncing.len() - i,
        {
            proof {
                lemma_sum_prefix(self@.syncing, i as int, record_bytes());
                lemma_record_bounds(self@, i as int);
            }
            size = size + sum_sizes(&self.syncing[i].payload);
            i = i + 1;
        }
        assert(self@.syncing.take(self.syncing.len() as int) =~= self@.syncing);
        size
    }

    /// Replaces the pinned version by `pinned` and drops the records up to
    /// its committed epoch. Returns the bytes that left the buffer, and
    /// those of them that uploads carried.
    pub fn apply_committed(&mut self, pinned: PinnedVersion) -> (bytes: SettledBytes)
        requires
            old(self)@.buffer_bytes() <= usize::MAX,
        ensures
            final(self)@ == old(self)@.commit(pinned@),
            bytes.released == evicted_bytes(old(self)@.syncing, pinned@.max_committed_epoch),
            bytes.carried == evicted_uploading_bytes(old(self)@.syncing, pinned@.max_committed_epoch),
            final(self)@.buffer_bytes() + bytes.released == old(self)@.buffer_bytes(),
            final(self)@.uploading_bytes() + bytes.carried == old(self)@.uploading_bytes(),
            old(self)@.wf() ==> final(self)@.wf(),
    {
        let epoch = pinned.max_committed_epoch();
        let ghost before = self@.syncing;
        let ghost stays = |record: SyncRecordView| record.sync_epoch > epoch;
        let ghost goes = |record: SyncRecordView| record.sync_epoch <= epoch;
        proof {
            lemma_commit_bytes(self@, pinned@);
            lemma_uploading_bounds(self@);
            lemma_filter_empty(before.take(0), stays);
            lemma_filter_empty(before.take(0), goes);
            assert(before.skip(0) =~= before);
        }
        let mut kept: Vec<SyncRecord> = Vec::new();
        let mut released: usize = 0;
        let mut carried: usize = 0;
        let ghost mut done: int = 0;
        while self.syncing.len() > 0
            invariant
                0 <= done <= before.len(),
                stays == |record: SyncRecordView| record.sync_epoch > epoch,
                goes == |record: SyncRecordView| record.sync_epoch <= epoch,
                record_views(self.syncing@) == before.skip(done),
                record_views(kept@) == before.take(done).filter(stays),
                released == sum_by(before.take(done).filter(goes), record_bytes()),
                carried == sum_by(before.take(done).filter(goes), record_uploading_bytes()),
                carried <= released,
                released + sum_by(before.take(done).filter(stays), record_bytes()) + sum_by(
                    before.skip(done),
                    record_bytes(),
                ) == sum_by(before, record_bytes()),
                sum_by(before, record_bytes()) <= usize::MAX,
                self.unsynced == old(self).unsynced,
                self.unsynced_ssts == old(self).unsynced_ssts,
                self.max_sync_epoch == old(self).max_sync_epoch,
                self.sealed_epoch == old(self).sealed_epoch,
                self.initial_max_committed_epoch == old(self).initial_max_committed_epoch,
            decreases self.syncing.len(),
        {
            let ghost rest = record_views(self.syncing@);
            let ghost kept_before = record_views(kept@);
            let ghost records = self.syncing@;
            let record = self.syncing.remove(0);
            proof {
                assert(rest.len() > 0);
                assert(record@ == rest[0]);
                assert(rest[0] == before[done]);
                assert(self.syncing@ =~= records.remove(0));
                assert forall|j: int| 0 <= j < self.syncing@.len() implies #[trigger] record_views(
                    self.syncing@,
                )[j] == before.skip(done + 1)[j] by {
                    assert(self.syncing@[j] == records[j + 1]);
                    assert(rest[j + 1] == records[j + 1]@);
                    assert(rest[j + 1] == before[done + j + 1]);
                }
                assert(record_views(self.syncing@) =~= before.skip(done + 1));
                assert(rest.remove(0) =~= before.skip(done + 1));
                lemma_sum_remove(rest, 0, record_bytes());
                lemma_filter_step(before, done, stays);
                lemma_filter_step(before, done, goes);
                lemma_sum_push(before.take(done).filter(stays), before[done], record_bytes());
                lemma_sum_push(before.take(done).filter(goes), before[done], record_bytes());
                lemma_sum_push(before.take(done).filter(goes), before[done], record_uploading_bytes());
                lemma_uploading_le(record.payload@);
                lemma_idle_not_uploading(record.payload@);
            }
            if record.sync_epoch > epoch {
                kept.push(record);
                assert(record_views(kept@) =~= kept_before.push(before[done]));
            } else {
                let size = sum_sizes(&record.payload);
                let idle = select_batches(&record.payload, BatchSelector::Idle);
                let idle_size = sum_sizes(&idle);
                released = released + size;
                carried = carried + (size - idle_size);
            }
            proof {
                done = done + 1;
            }
        }
        proof {
            assert(before.skip(done).len() == 0);
            assert(before.take(done) =~= before);
        }
        self.syncing = kept;
        self.pinned_version = pinned;
        SettledBytes { carried, released }
    }

    /// The files that the uploads of the record at `index` have produced,
    /// and the bytes that its sync uploaded.
    pub fn sync_result(&self, index: usize) -> (result: (Vec<LocalSstableInfo>, usize))
        requires
            index < self.syncing@.len(),
        ensures
            result.0@ == self@.syncing[index as int].ssts,
            result.1 == self@.syncing[index as int].sync_size,
    {
        let empty: Vec<LocalSstableInfo> = Vec::new();
        let ssts = concat_ssts(&self.syncing[index].ssts, &empty);
        assert(self.syncing@[index as int].ssts@ + empty@ =~= self.syncing@[index as int].ssts@);
        (ssts, self.syncing[index].sync_size)
    }

    /// Drops all unsynced memtables and all records.
    pub fn clear_shared_buffer(&mut self)
        ensures
            final(self)@ == old(self)@.clear(),
            final(self)@.buffer_bytes() == 0,
            final(self)@.uploading_bytes() == 0,
            old(self)@.wf() ==> final(self)@.wf(),
    {
        self.unsynced = Vec::new();
        self.unsynced_ssts = Vec::new();
        self.syncing = Vec::new();
        assert(self@.syncing =~= Seq::<SyncRecordView>::empty());
    }
}

} // verus!
