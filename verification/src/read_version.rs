//! What one reader instance sees: its own staged writes on top of the
//! committed version.

use vstd::prelude::*;
use std::sync::Arc;
use crate::key::{compare_keys, key_le, key_lt, lemma_key_lt_transitive, KeyOrder};
use crate::memtable::{
    copy_bytes, entries_map, has_key, lemma_sorted_position, sorted_by_key, upsert, Entry,
    HummockEpoch, HummockValue, ImmutableMemtable, TableId, ValueView,
};
use crate::seq_util::{lemma_filter_empty, lemma_filter_passes, lemma_filter_step};
use crate::shared::share;
use crate::version::{committed_ssts, PinnedVersion, SstableInfo, VersionView};

verus! {

/// The writes of an instance that are not committed yet, newest first:
/// memtables that are not uploaded, and sorted files that are not committed.
#[derive(Debug)]
pub struct StagingVersion {
    pub imm: Vec<Arc<ImmutableMemtable>>,
    pub sst: Vec<Arc<SstableInfo>>,
}

/// The read-side view of one instance.
#[derive(Debug)]
pub struct HummockReadVersion {
    pub staging: StagingVersion,
    pub committed: PinnedVersion,
}

/// A read version as a mathematical object.
pub struct ReadVersionView {
    pub imm: Seq<Arc<ImmutableMemtable>>,
    pub sst: Seq<Arc<SstableInfo>>,
    pub committed: VersionView,
}

impl View for HummockReadVersion {
    type V = ReadVersionView;

    open spec fn view(&self) -> ReadVersionView {
        ReadVersionView { imm: self.staging.imm@, sst: self.staging.sst@, committed: self.committed@ }
    }
}

/// New staged data of an instance.
#[derive(Debug)]
pub enum StagingData {
    ImmMem(Arc<ImmutableMemtable>),
    Sst(Arc<SstableInfo>),
}

/// A change to a read version.
#[derive(Debug)]
pub enum VersionUpdate {
    /// The instance has staged new data.
    Staging(StagingData),
    /// A new version was committed.
    CommittedSnapshot(PinnedVersion),
}

/// The staged memtables descend by epoch: a newer epoch stands before an
/// older one.
pub open spec fn imms_descend(imm: Seq<Arc<ImmutableMemtable>>) -> bool {
    forall|i: int, j: int|
        0 <= i < j < imm.len() ==> (#[trigger] imm[i]).spec_epoch() >= (#[trigger] imm[j]).spec_epoch()
}

/// Where a memtable of the epoch `epoch` goes among the staged ones: behind
/// those of a newer epoch and before all others.
pub open spec fn is_staging_position(
    imm: Seq<Arc<ImmutableMemtable>>,
    epoch: HummockEpoch,
    position: int,
) -> bool {
    &&& 0 <= position <= imm.len()
    &&& forall|i: int| 0 <= i < position ==> (#[trigger] imm[i]).spec_epoch() > epoch
    &&& forall|i: int| position <= i < imm.len() ==> (#[trigger] imm[i]).spec_epoch() <= epoch
}

/// Where a memtable of the epoch `epoch` goes among the staged ones.
pub open spec fn staging_position(imm: Seq<Arc<ImmutableMemtable>>, epoch: HummockEpoch) -> int {
    choose|position: int| is_staging_position(imm, epoch, position)
}

/// The staged memtables with `staged` put in: behind those of a newer
/// epoch and before all others.
pub open spec fn stage(imm: Seq<Arc<ImmutableMemtable>>, staged: Arc<ImmutableMemtable>) -> Seq<
    Arc<ImmutableMemtable>,
> {
    imm.insert(staging_position(imm, staged.spec_epoch()), staged)
}

/// The order in which `memtables` stand once they were staged one after
/// the other.
pub open spec fn staged_order(memtables: Seq<Arc<ImmutableMemtable>>) -> Seq<Arc<ImmutableMemtable>>
    decreases memtables.len(),
{
    if memtables.len() == 0 {
        Seq::empty()
    } else {
        stage(staged_order(memtables.drop_last()), memtables.last())
    }
}

/// There is one place only for a memtable of an epoch.
pub proof fn lemma_staging_position(imm: Seq<Arc<ImmutableMemtable>>, epoch: HummockEpoch, position: int)
    requires
        is_staging_position(imm, epoch, position),
    ensures
        staging_position(imm, epoch) == position,
{
    let chosen = staging_position(imm, epoch);
    if chosen < position {
        assert(imm[chosen].spec_epoch() > epoch);
    } else if position < chosen {
        assert(imm[position].spec_epoch() > epoch);
    }
}

/// Puts `staged` among the memtables `imm`, which stand newest epoch first:
/// behind those of a newer epoch and before all others.
pub fn stage_memtable(imm: &mut Vec<Arc<ImmutableMemtable>>, staged: Arc<ImmutableMemtable>)
    requires
        imms_descend(old(imm)@),
    ensures
        final(imm)@ == stage(old(imm)@, staged),
        imms_descend(final(imm)@),
        is_staging_position(old(imm)@, staged.spec_epoch(), staging_position(old(imm)@, staged.spec_epoch())),
{
    let epoch = staged.epoch();
    let mut position: usize = 0;
    while position < imm.len() && imm[position].epoch() > epoch
        invariant
            position <= imm.len(),
            imm@ == old(imm)@,
            forall|i: int| 0 <= i < position ==> (#[trigger] imm@[i]).spec_epoch() > epoch,
        decreases imm.len() - position,
    {
        position = position + 1;
    }
    proof {
        assert forall|i: int| position <= i < imm@.len() implies (#[trigger] imm@[i]).spec_epoch()
            <= epoch by {
            if position < i {
                assert(imm@[position as int].spec_epoch() >= imm@[i].spec_epoch());
            }
        }
        assert(is_staging_position(imm@, epoch, position as int));
        lemma_staging_position(imm@, epoch, position as int);
        let after = imm@.insert(position as int, staged);
        assert forall|i: int, j: int| 0 <= i < j < after.len() implies (#[trigger] after[i]).spec_epoch()
            >= (#[trigger] after[j]).spec_epoch() by {
            let oi = if i < position { i } else { i - 1 };
            let oj = if j < position { j } else { j - 1 };
            if i != position && j != position {
                assert(imm@[oi].spec_epoch() >= imm@[oj].spec_epoch());
            } else if i == position {
                assert(imm@[oj].spec_epoch() <= epoch);
            } else {
                assert(imm@[oi].spec_epoch() > epoch);
            }
        }
    }
    imm.insert(position, staged);
}

impl ReadVersionView {
    pub open spec fn wf(self) -> bool {
        imms_descend(self.imm)
    }

    /// Nothing is staged that the committed version covers: no staged
    /// file, and no staged memtable of an epoch up to the committed epoch.
    pub open spec fn staged_above_committed(self) -> bool {
        &&& self.sst.len() == 0
        &&& forall|i: int|
            0 <= i < self.imm.len() ==> (#[trigger] self.imm[i]).spec_epoch()
                > self.committed.max_committed_epoch
    }

    /// After the commit of `pinned`: what it covers has left the staging.
    pub open spec fn commit(self, pinned: VersionView) -> ReadVersionView {
        ReadVersionView {
            imm: self.imm.filter(
                |imm: Arc<ImmutableMemtable>| imm.spec_epoch() > pinned.max_committed_epoch,
            ),
            sst: self.sst.filter(
                |sst: Arc<SstableInfo>| !sst.spec_covered_by(pinned.max_committed_epoch),
            ),
            committed: pinned,
        }
    }

    /// `after` is this view after `update`.
    pub open spec fn updated(self, update: VersionUpdate, after: ReadVersionView) -> bool {
        match update {
            VersionUpdate::Staging(StagingData::ImmMem(imm)) => exists|position: int|
                {
                    &&& is_staging_position(self.imm, imm.spec_epoch(), position)
                    &&& after == ReadVersionView { imm: self.imm.insert(position, imm), ..self }
                },
            VersionUpdate::Staging(StagingData::Sst(sst)) => after == ReadVersionView {
                sst: seq![sst] + self.sst,
                ..self
            },
            VersionUpdate::CommittedSnapshot(pinned) => after == self.commit(pinned@),
        }
    }
}

/// Filtering keeps the order of the epochs.
pub proof fn lemma_filter_descend(
    imm: Seq<Arc<ImmutableMemtable>>,
    pred: spec_fn(Arc<ImmutableMemtable>) -> bool,
)
    requires
        imms_descend(imm),
    ensures
        imms_descend(imm.filter(pred)),
        forall|i: int|
            0 <= i < imm.filter(pred).len() && imm.len() > 0 ==> (#[trigger] imm.filter(pred)[i]).spec_epoch()
                >= imm.last().spec_epoch(),
    decreases imm.len(),
{
    reveal(Seq::filter);
    if imm.len() > 0 {
        let front = imm.drop_last();
        assert forall|i: int, j: int| 0 <= i < j < front.len() implies (#[trigger] front[i]).spec_epoch() >= (
        #[trigger] front[j]).spec_epoch() by {
            assert(imm[i].spec_epoch() >= imm[j].spec_epoch());
        }
        lemma_filter_descend(front, pred);
        let filtered = front.filter(pred);
        assert forall|i: int| 0 <= i < filtered.len() implies (#[trigger] filtered[i]).spec_epoch()
            >= imm.last().spec_epoch() by {
            if front.len() > 0 {
                assert(filtered[i].spec_epoch() >= front.last().spec_epoch());
                assert(front.last() == imm[imm.len() - 2]);
                assert(imm[imm.len() - 2].spec_epoch() >= imm[imm.len() - 1].spec_epoch());
            }
        }
        assert(imm.last() == imm[imm.len() - 1]);
    }
}

/// A commit leaves the staged memtables in order.
pub proof fn lemma_commit_wf(view: ReadVersionView, pinned: VersionView)
    requires
        view.wf(),
    ensures
        view.commit(pinned).wf(),
        view.commit(pinned).committed == pinned,
        view.sst.len() == 0 ==> view.commit(pinned).staged_above_committed(),
{
    lemma_filter_descend(
        view.imm,
        |imm: Arc<ImmutableMemtable>| imm.spec_epoch() > pinned.max_committed_epoch,
    );
    lemma_filter_passes(
        view.imm,
        |imm: Arc<ImmutableMemtable>| imm.spec_epoch() > pinned.max_committed_epoch,
    );
    if view.sst.len() == 0 {
        lemma_filter_empty(
            view.sst,
            |sst: Arc<SstableInfo>| !sst.spec_covered_by(pinned.max_committed_epoch),
        );
    }
}

impl HummockReadVersion {
    /// A read version with nothing staged, on top of `committed`.
    pub fn new(committed: PinnedVersion) -> (version: HummockReadVersion)
        ensures
            version@ == (ReadVersionView { imm: Seq::empty(), sst: Seq::empty(), committed: committed@ }),
            version@.wf(),
    {
        HummockReadVersion { staging: StagingVersion { imm: Vec::new(), sst: Vec::new() }, committed }
    }

    pub fn staging(&self) -> (staging: &StagingVersion)
        ensures
            *staging == self.staging,
    {
        &self.staging
    }

    pub fn committed(&self) -> (committed: &PinnedVersion)
        ensures
            *committed == self.committed,
    {
        &self.committed
    }

    /// Applies `update`. A staged memtable goes behind the staged memtables
    /// of a newer epoch and before all others; a staged file goes to the
    /// front; a committed version replaces the one before it, and what it
    /// covers leaves the staging.
    pub fn update(&mut self, update: VersionUpdate)
        requires
            old(self)@.wf(),
        ensures
            old(self)@.updated(update, final(self)@),
            final(self)@.wf(),
    {
        match update {
            VersionUpdate::Staging(StagingData::ImmMem(imm)) => {
                stage_memtable(&mut self.staging.imm, imm);
            },
            VersionUpdate::Staging(StagingData::Sst(sst)) => {
                self.staging.sst.insert(0, sst);
                assert(self@.sst =~= seq![sst] + old(self)@.sst);
            },
            VersionUpdate::CommittedSnapshot(pinned) => {
                let epoch = pinned.max_committed_epoch();
                let ghost newer = |imm: Arc<ImmutableMemtable>| imm.spec_epoch() > epoch;
                let ghost open = |sst: Arc<SstableInfo>| !sst.spec_covered_by(epoch);
                let mut imm: Vec<Arc<ImmutableMemtable>> = Vec::new();
                let mut i: usize = 0;
                proof {
                    lemma_filter_empty(self@.imm.take(0), newer);
                    lemma_filter_descend(self@.imm, newer);
                }
                while i < self.staging.imm.len()
                    invariant
                        i <= self.staging.imm.len(),
                        self@ == old(self)@,
                        newer == |imm: Arc<ImmutableMemtable>| imm.spec_epoch() > epoch,
                        imm@ == self@.imm.take(i as int).filter(newer),
                    decreases self.staging.imm.len() - i,
                {
                    proof {
                        lemma_filter_step(self@.imm, i as int, newer);
                    }
                    if self.staging.imm[i].epoch() > epoch {
                        imm.push(share(&self.staging.imm[i]));
                    }
                    i = i + 1;
                }
                assert(self@.imm.take(self.staging.imm.len() as int) =~= self@.imm);
                let mut sst: Vec<Arc<SstableInfo>> = Vec::new();
                let mut j: usize = 0;
                proof {
                    lemma_filter_empty(self@.sst.take(0), open);
                }
                while j < self.staging.sst.len()
                    invariant
                        j <= self.staging.sst.len(),
                        self@ == old(self)@,
                        open == |sst: Arc<SstableInfo>| !sst.spec_covered_by(epoch),
                        sst@ == self@.sst.take(j as int).filter(open),
                    decreases self.staging.sst.len() - j,
                {
                    proof {
                        lemma_filter_step(self@.sst, j as int, open);
                    }
                    if !self.staging.sst[j].covered_by(epoch) {
                        sst.push(share(&self.staging.sst[j]));
                    }
                    j = j + 1;
                }
                assert(self@.sst.take(self.staging.sst.len() as int) =~= self@.sst);
                self.staging.imm = imm;
                self.staging.sst = sst;
                self.committed = pinned;
            },
        }
    }
}

/// How a read is to be done.
#[derive(Debug)]
pub struct ReadOptions {
    pub table_id: TableId,
    /// Entries that are this many seconds older than the read epoch, or
    /// more, are left out of a scan.
    pub retention_seconds: Option<u32>,
    pub check_bloom_filter: bool,
    pub prefix_hint: Option<Vec<u8>>,
}

/// Where a write goes.
#[derive(Clone, Copy, Debug)]
pub struct WriteOptions {
    pub epoch: HummockEpoch,
    pub table_id: TableId,
}

/// One end of a key range.
#[derive(Debug)]
pub enum KeyBound {
    Unbounded,
    Included(Vec<u8>),
    Excluded(Vec<u8>),
}

/// The keys a scan covers.
#[derive(Debug)]
pub struct ScanRange {
    pub start: KeyBound,
    pub end: KeyBound,
}

impl ScanRange {
    /// `key` lies in the range.
    pub open spec fn spec_contains(&self, key: Seq<u8>) -> bool {
        &&& match self.start {
            KeyBound::Unbounded => true,
            KeyBound::Included(start) => key_le(start@, key),
            KeyBound::Excluded(start) => key_lt(start@, key),
        }
        &&& match self.end {
            KeyBound::Unbounded => true,
            KeyBound::Included(end) => key_le(key, end@),
            KeyBound::Excluded(end) => key_lt(key, end@),
        }
    }

    pub fn contains(&self, key: &Vec<u8>) -> (inside: bool)
        ensures
            inside == self.spec_contains(key@),
    {
        let above = match &self.start {
            KeyBound::Unbounded => true,
            KeyBound::Included(start) => !matches!(compare_keys(start, key), KeyOrder::Greater),
            KeyBound::Excluded(start) => matches!(compare_keys(start, key), KeyOrder::Less),
        };
        let below = match &self.end {
            KeyBound::Unbounded => true,
            KeyBound::Included(end) => !matches!(compare_keys(key, end), KeyOrder::Greater),
            KeyBound::Excluded(end) => matches!(compare_keys(key, end), KeyOrder::Less),
        };
        above && below
    }
}

/// The number of low bits of an epoch that do not belong to its clock.
pub const EPOCH_PHYSICAL_SHIFT_BITS: u32 = 16;

/// What the low bits of an epoch count up to: `2^16`.
pub const EPOCH_LOGICAL_SPAN: u64 = 65536;

/// The epoch of the clock value that lies `retention_seconds` seconds
/// before the clock of `epoch`, or of clock zero where that would be
/// negative. The clock of an epoch, in milliseconds, stands in its bits
/// from bit 16 up.
pub open spec fn min_epoch_of(epoch: HummockEpoch, retention_seconds: u32) -> HummockEpoch {
    let clock = epoch as int / EPOCH_LOGICAL_SPAN as int;
    let span = retention_seconds as int * 1000;
    if clock < span {
        0
    } else {
        ((clock - span) * EPOCH_LOGICAL_SPAN as int) as u64
    }
}

/// The epoch above which an entry has to be for a scan at `epoch` under
/// `retention_seconds`: none without a retention.
pub open spec fn spec_min_epoch(
    epoch: HummockEpoch,
    retention_seconds: Option<u32>,
) -> Option<HummockEpoch> {
    match retention_seconds {
        Some(seconds) => Some(min_epoch_of(epoch, seconds)),
        None => None,
    }
}

/// The epoch above which an entry has to be for a scan at `epoch` under
/// `retention_seconds`.
pub fn gen_min_epoch(
    epoch: HummockEpoch,
    retention_seconds: Option<u32>,
) -> (after: Option<HummockEpoch>)
    ensures
        after == spec_min_epoch(epoch, retention_seconds),
{
    match retention_seconds {
        Some(seconds) => {
            let clock: u64 = epoch / EPOCH_LOGICAL_SPAN;
            let span: u64 = seconds as u64 * 1000;
            if clock < span {
                Some(0)
            } else {
                assert((clock - span) * EPOCH_LOGICAL_SPAN <= epoch) by (nonlinear_arith)
                    requires
                        clock == epoch / EPOCH_LOGICAL_SPAN,
                        EPOCH_LOGICAL_SPAN == 65536,
                        span <= clock,
                ;
                Some((clock - span) * EPOCH_LOGICAL_SPAN)
            }
        },
        None => None,
    }
}

/// One sorted run that a read looks into: a staged memtable, or a run of a
/// sorted file. A read sees it if its epoch is no larger than `up_to`.
#[derive(Debug)]
pub struct Layer {
    pub imm: Arc<ImmutableMemtable>,
    pub file: Option<Arc<SstableInfo>>,
    pub up_to: HummockEpoch,
}

impl Layer {
    /// The file that the run belongs to, if any, may hold `key`: its key
    /// range covers the key, or it has none.
    pub open spec fn spec_admits(&self, key: Seq<u8>) -> bool {
        match self.file {
            Some(file) => match file.key_range {
                Some(range) => range.spec_contains(key),
                None => true,
            },
            None => true,
        }
    }

    /// A read that leaves out the epochs up to `after` sees the run.
    pub open spec fn spec_visible(&self, after: Option<HummockEpoch>) -> bool {
        &&& self.imm.spec_epoch() <= self.up_to
        &&& after matches Some(low) ==> self.imm.spec_epoch() > low
    }

    /// The run answers a read of `key`: it is visible, its file admits the
    /// key, and it holds a write to the key.
    pub open spec fn hit(&self, key: Seq<u8>, after: Option<HummockEpoch>) -> bool {
        &&& self.spec_visible(after)
        &&& self.spec_admits(key)
        &&& self.imm@.contains_key(key)
    }

    pub fn admits(&self, key: &Vec<u8>) -> (admitted: bool)
        ensures
            admitted == self.spec_admits(key@),
    {
        match &self.file {
            Some(file) => match &file.key_range {
                Some(range) => range.contains(key),
                None => true,
            },
            None => true,
        }
    }

    pub fn visible(&self, after: Option<HummockEpoch>) -> (seen: bool)
        ensures
            seen == self.spec_visible(after),
    {
        let epoch = self.imm.epoch();
        let above = match after {
            Some(low) => epoch > low,
            None => true,
        };
        epoch <= self.up_to && above
    }

    /// What the run answers to a read of `key`, if it answers.
    pub fn lookup(
        &self,
        key: &Vec<u8>,
        after: Option<HummockEpoch>,
    ) -> (found: Option<HummockValue>)
        ensures
            match found {
                Some(value) => self.hit(key@, after) && value@ == self.imm@[key@],
                None => !self.hit(key@, after),
            },
    {
        if self.visible(after) && self.admits(key) {
            self.imm.get(key)
        } else {
            None
        }
    }
}

/// The staged memtables as runs that a read at `epoch` looks into.
pub open spec fn imm_layers(imm: Seq<Arc<ImmutableMemtable>>, epoch: HummockEpoch) -> Seq<Layer> {
    imm.map_values(|imm: Arc<ImmutableMemtable>| Layer { imm, file: None, up_to: epoch })
}

/// The runs of one sorted file, newest first.
pub open spec fn file_layers(file: Arc<SstableInfo>, up_to: HummockEpoch) -> Seq<Layer> {
    file.batches@.map_values(|imm: Arc<ImmutableMemtable>| Layer { imm, file: Some(file), up_to })
}

/// The runs of the sorted files `files`, file after file.
pub open spec fn files_layers(files: Seq<Arc<SstableInfo>>, up_to: HummockEpoch) -> Seq<Layer>
    decreases files.len(),
{
    if files.len() == 0 {
        Seq::empty()
    } else {
        files_layers(files.drop_last(), up_to) + file_layers(files.last(), up_to)
    }
}

/// The committed epoch bounds what a read sees of the committed files.
pub open spec fn committed_bound(
    epoch: HummockEpoch,
    max_committed_epoch: HummockEpoch,
) -> HummockEpoch {
    if epoch <= max_committed_epoch {
        epoch
    } else {
        max_committed_epoch
    }
}

/// What the first run that answers says to a read of `key`.
pub open spec fn read_layers(
    layers: Seq<Layer>,
    key: Seq<u8>,
    after: Option<HummockEpoch>,
) -> Option<ValueView>
    decreases layers.len(),
{
    if layers.len() == 0 {
        None
    } else if layers[0].hit(key, after) {
        Some(layers[0].imm@[key])
    } else {
        read_layers(layers.drop_first(), key, after)
    }
}

/// A read sees a put as its value, and a tombstone or nothing as nothing.
pub open spec fn visible_value(found: Option<ValueView>) -> Option<Seq<u8>> {
    match found {
        Some(ValueView::Put(bytes)) => Some(bytes),
        _ => None,
    }
}

impl ReadVersionView {
    /// All runs that a read of the table `table_id` at `epoch` looks into,
    /// in the order in which it does: the staged memtables, the staged
    /// files, then the committed files of the table's group, each newest
    /// first.
    pub open spec fn layers(self, table_id: TableId, epoch: HummockEpoch) -> Seq<Layer> {
        imm_layers(self.imm, epoch) + files_layers(self.sst, epoch) + files_layers(
            committed_ssts(self.committed, table_id.table_id),
            committed_bound(epoch, self.committed.max_committed_epoch),
        )
    }

    /// What a point read returns.
    pub open spec fn get(
        self,
        table_id: TableId,
        key: Seq<u8>,
        epoch: HummockEpoch,
    ) -> Option<Seq<u8>> {
        visible_value(read_layers(self.layers(table_id, epoch), key, None))
    }

    /// What a scan yields for `key`, if anything.
    pub open spec fn scan_value(
        self,
        key: Seq<u8>,
        range: ScanRange,
        epoch: HummockEpoch,
        options: ReadOptions,
    ) -> Option<Seq<u8>> {
        if range.spec_contains(key) {
            visible_value(
                read_layers(
                    self.layers(options.table_id, epoch),
                    key,
                    spec_min_epoch(epoch, options.retention_seconds),
                ),
            )
        } else {
            None
        }
    }
}

/// A read that the first `n` runs do not answer is answered by the rest.
pub proof fn lemma_read_skip(layers: Seq<Layer>, key: Seq<u8>, after: Option<HummockEpoch>, n: int)
    requires
        0 <= n <= layers.len(),
        forall|i: int| 0 <= i < n ==> !(#[trigger] layers[i]).hit(key, after),
    ensures
        read_layers(layers, key, after) == read_layers(layers.skip(n), key, after),
    decreases n,
{
    if n == 0 {
        assert(layers.skip(0) =~= layers);
    } else {
        lemma_read_skip(layers.drop_first(), key, after, n - 1);
        assert(layers.drop_first().skip(n - 1) =~= layers.skip(n));
        assert forall|i: int| 0 <= i < n - 1 implies !(#[trigger] layers.drop_first()[i]).hit(key, after) by {
            assert(layers.drop_first()[i] == layers[i + 1]);
        }
    }
}

/// A read is answered exactly if some run answers it, and then the key is
/// in range of that run.
pub proof fn lemma_read_some(layers: Seq<Layer>, key: Seq<u8>, after: Option<HummockEpoch>)
    ensures
        read_layers(layers, key, after) is Some <==> exists|i: int|
            0 <= i < layers.len() && (#[trigger] layers[i]).hit(key, after),
    decreases layers.len(),
{
    if layers.len() > 0 {
        lemma_read_some(layers.drop_first(), key, after);
        if layers[0].hit(key, after) {
        } else if read_layers(layers, key, after) is Some {
            let i = choose|i: int|
                0 <= i < layers.drop_first().len() && (#[trigger] layers.drop_first()[i]).hit(key, after);
            assert(layers[i + 1].hit(key, after));
        } else if exists|i: int| 0 <= i < layers.len() && (#[trigger] layers[i]).hit(key, after) {
            let i = choose|i: int| 0 <= i < layers.len() && (#[trigger] layers[i]).hit(key, after);
            assert(layers.drop_first()[i - 1].hit(key, after));
        }
    }
}

/// Looks `key` up in `layers`, first run first.
pub fn read(
    layers: &Vec<Layer>,
    key: &Vec<u8>,
    after: Option<HummockEpoch>,
) -> (found: Option<HummockValue>)
    ensures
        match found {
            Some(value) => read_layers(layers@, key@, after) == Some(value@),
            None => read_layers(layers@, key@, after) is None,
        },
{
    let mut i: usize = 0;
    while i < layers.len()
        invariant
            i <= layers.len(),
            forall|j: int| 0 <= j < i ==> !(#[trigger] layers@[j]).hit(key@, after),
        decreases layers.len() - i,
    {
        match layers[i].lookup(key, after) {
            Some(value) => {
                proof {
                    lemma_read_skip(layers@, key@, after, i as int);
                    assert(layers@.skip(i as int)[0] == layers@[i as int]);
                }
                return Some(value);
            },
            None => {},
        }
        i = i + 1;
    }
    proof {
        lemma_read_skip(layers@, key@, after, layers@.len() as int);
        assert(layers@.skip(layers@.len() as int).len() == 0);
    }
    None
}

/// Appends the runs of `file` to `layers`.
pub fn push_file_layers(layers: &mut Vec<Layer>, file: &Arc<SstableInfo>, up_to: HummockEpoch)
    ensures
        final(layers)@ == old(layers)@ + file_layers(*file, up_to),
{
    let mut i: usize = 0;
    while i < file.batches.len()
        invariant
            i <= file.batches.len(),
            layers@ == old(layers)@ + file_layers(*file, up_to).take(i as int),
        decreases file.batches.len() - i,
    {
        layers.push(Layer { imm: share(&file.batches[i]), file: Some(share(file)), up_to });
        i = i + 1;
        assert(layers@ =~= old(layers)@ + file_layers(*file, up_to).take(i as int));
    }
    assert(file_layers(*file, up_to).take(file.batches.len() as int) =~= file_layers(*file, up_to));
}

/// Appends the runs of `files` to `layers`, file after file.
pub fn push_files_layers(
    layers: &mut Vec<Layer>,
    files: &Vec<Arc<SstableInfo>>,
    up_to: HummockEpoch,
)
    ensures
        final(layers)@ == old(layers)@ + files_layers(files@, up_to),
{
    let mut i: usize = 0;
    assert(layers@ =~= old(layers)@ + files_layers(files@.take(0), up_to));
    while i < files.len()
        invariant
            i <= files.len(),
            layers@ == old(layers)@ + files_layers(files@.take(i as int), up_to),
        decreases files.len() - i,
    {
        let ghost before = layers@;
        push_file_layers(layers, &files[i], up_to);
        proof {
            assert(files@.take(i + 1).drop_last() =~= files@.take(i as int));
            assert(layers@ =~= old(layers)@ + files_layers(files@.take(i + 1), up_to));
        }
        i = i + 1;
    }
    assert(files@.take(files.len() as int) =~= files@);
}

/// The keys of `pairs` ascend strictly.
pub open spec fn pairs_ascend(pairs: Seq<(Vec<u8>, Vec<u8>)>) -> bool {
    forall|i: int, j: int| 0 <= i < j < pairs.len() ==> key_lt((#[trigger] pairs[i]).0@, (#[trigger] pairs[j]).0@)
}

/// `pairs` holds the key `key`.
pub open spec fn pairs_hold(pairs: Seq<(Vec<u8>, Vec<u8>)>, key: Seq<u8>) -> bool {
    exists|i: int| 0 <= i < pairs.len() && (#[trigger] pairs[i]).0@ == key
}

/// Some run of `layers` holds a write to `key`.
pub open spec fn layers_hold(layers: Seq<Layer>, key: Seq<u8>) -> bool {
    exists|i: int| 0 <= i < layers.len() && #[trigger] layers[i].imm@.contains_key(key)
}

/// The keys of `layers` that lie in `range`, sorted, each once.
pub fn keys_in_range(layers: &Vec<Layer>, range: &ScanRange) -> (keys: Vec<Entry>)
    ensures
        sorted_by_key(keys@),
        forall|key: Seq<u8>| #[trigger] has_key(keys@, key) ==> range.spec_contains(key) && layers_hold(layers@, key),
        forall|i: int, key: Seq<u8>|
            0 <= i < layers@.len() && #[trigger] layers@[i].imm@.contains_key(key) && range.spec_contains(
                key,
            ) ==> has_key(keys@, key),
{
    let mut keys: Vec<Entry> = Vec::new();
    let mut i: usize = 0;
    while i < layers.len()
        invariant
            i <= layers.len(),
            sorted_by_key(keys@),
            forall|key: Seq<u8>| #[trigger] has_key(keys@, key) ==> range.spec_contains(key) && layers_hold(layers@, key),
            forall|l: int, key: Seq<u8>|
                0 <= l < i && #[trigger] layers@[l].imm@.contains_key(key) && range.spec_contains(key)
                    ==> has_key(keys@, key),
        decreases layers.len() - i,
    {
        let entries = layers[i].imm.entries();
        let mut j: usize = 0;
        while j < entries.len()
            invariant
                j <= entries.len(),
                i < layers.len(),
                entries_map(entries@) == layers@[i as int].imm@,
                sorted_by_key(entries@),
                sorted_by_key(keys@),
                forall|key: Seq<u8>| #[trigger] has_key(keys@, key) ==> range.spec_contains(key) && layers_hold(layers@, key),
                forall|l: int, key: Seq<u8>|
                    0 <= l < i && #[trigger] layers@[l].imm@.contains_key(key) && range.spec_contains(key)
                        ==> has_key(keys@, key),
                forall|e: int|
                    0 <= e < j && range.spec_contains((#[trigger] entries@[e]).key@) ==> has_key(
                        keys@,
                        entries@[e].key@,
                    ),
            decreases entries.len() - j,
        {
            if range.contains(&entries[j].key) {
                let ghost before = keys@;
                let entry = Entry { key: copy_bytes(&entries[j].key), value: HummockValue::Delete };
                upsert(&mut keys, entry);
                proof {
                    assert forall|key: Seq<u8>| #[trigger] has_key(before, key) implies has_key(keys@, key) by {
                        assert(entries_map(before).contains_key(key));
                        assert(entries_map(keys@).contains_key(key));
                    }
                    assert forall|key: Seq<u8>| #[trigger] has_key(keys@, key) implies key == entry.key@
                        || has_key(before, key) by {
                        assert(entries_map(keys@).contains_key(key));
                        assert(key == entry.key@ || entries_map(before).contains_key(key));
                    }
                    assert(entries_map(keys@).contains_key(entry.key@));
                    assert(has_key(keys@, entries@[j as int].key@));
                    lemma_sorted_position(entries@, j as int);
                    assert(layers@[i as int].imm@.contains_key(entry.key@));
                    assert(layers_hold(layers@, entry.key@));
                    assert forall|key: Seq<u8>| #[trigger] has_key(keys@, key) implies range.spec_contains(
                        key,
                    ) && layers_hold(layers@, key) by {
                        if key != entry.key@ {
                            assert(has_key(before, key));
                        }
                    }
                }
            }
            j = j + 1;
        }
        proof {
            assert forall|key: Seq<u8>|
                layers@[i as int].imm@.contains_key(key) && range.spec_contains(key) implies has_key(
                keys@,
                key,
            ) by {
                assert(has_key(entries@, key));
                let e = choose|e: int| 0 <= e < entries@.len() && (#[trigger] entries@[e]).key@ == key;
                assert(range.spec_contains(entries@[e].key@));
            }
        }
        i = i + 1;
    }
    keys
}

impl HummockReadVersion {
    /// Scans the keys of `range` as of `epoch`: every key whose newest
    /// write that the reader sees is a put, with that value, in ascending
    /// key order. Under a retention the writes that are too old are left
    /// out.
    pub fn iter(
        &self,
        range: &ScanRange,
        epoch: HummockEpoch,
        read_options: &ReadOptions,
    ) -> (pairs: Vec<(Vec<u8>, Vec<u8>)>)
        ensures
            pairs_ascend(pairs@),
            forall|i: int|
                0 <= i < pairs@.len() ==> self@.scan_value(
                    (#[trigger] pairs@[i]).0@,
                    *range,
                    epoch,
                    *read_options,
                ) == Some(pairs@[i].1@),
            forall|key: Seq<u8>|
                self@.scan_value(key, *range, epoch, *read_options) is Some ==> pairs_hold(pairs@, key),
    {
        let layers = self.layers(read_options.table_id, epoch);
        let after = gen_min_epoch(epoch, read_options.retention_seconds);
        let keys = keys_in_range(&layers, range);
        let mut pairs: Vec<(Vec<u8>, Vec<u8>)> = Vec::new();
        let mut j: usize = 0;
        while j < keys.len()
            invariant
                j <= keys.len(),
                layers@ == self@.layers(read_options.table_id, epoch),
                after == spec_min_epoch(epoch, read_options.retention_seconds),
                sorted_by_key(keys@),
                forall|key: Seq<u8>| has_key(keys@, key) ==> range.spec_contains(key),
                pairs_ascend(pairs@),
                forall|i: int|
                    0 <= i < pairs@.len() ==> self@.scan_value(
                        (#[trigger] pairs@[i]).0@,
                        *range,
                        epoch,
                        *read_options,
                    ) == Some(pairs@[i].1@),
                forall|i: int|
                    0 <= i < pairs@.len() && j < keys@.len() ==> key_lt(
                        (#[trigger] pairs@[i]).0@,
                        keys@[j as int].key@,
                    ),
                forall|e: int|
                    0 <= e < j && self@.scan_value((#[trigger] keys@[e]).key@, *range, epoch, *read_options)
                        is Some ==> pairs_hold(pairs@, keys@[e].key@),
            decreases keys.len() - j,
        {
            let ghost before = pairs@;
            assert(has_key(keys@, keys@[j as int].key@));
            match read(&layers, &keys[j].key, after) {
                Some(HummockValue::Put(bytes)) => {
                    pairs.push((copy_bytes(&keys[j].key), bytes));
                    proof {
                        assert(pairs@[before.len() as int].0@ == keys@[j as int].key@);
                        assert forall|e: int|
                            0 <= e < j + 1 && self@.scan_value(
                                (#[trigger] keys@[e]).key@,
                                *range,
                                epoch,
                                *read_options,
                            ) is Some implies pairs_hold(pairs@, keys@[e].key@) by {
                            if e < j {
                                let p = choose|p: int|
                                    0 <= p < before.len() && (#[trigger] before[p]).0@ == keys@[e].key@;
                                assert(pairs@[p].0@ == keys@[e].key@);
                            }
                        }
                    }
                },
                _ => {},
            }
            proof {
                if j + 1 < keys@.len() {
                    assert(key_lt(keys@[j as int].key@, keys@[j + 1].key@));
                    assert forall|i: int| 0 <= i < pairs@.len() implies key_lt(
                        (#[trigger] pairs@[i]).0@,
                        keys@[j + 1].key@,
                    ) by {
                        if i < before.len() {
                            lemma_key_lt_transitive(pairs@[i].0@, keys@[j as int].key@, keys@[j + 1].key@);
                        }
                    }
                }
            }
            j = j + 1;
        }
        proof {
            assert forall|key: Seq<u8>|
                self@.scan_value(key, *range, epoch, *read_options) is Some implies pairs_hold(
                pairs@,
                key,
            ) by {
                lemma_read_some(layers@, key, after);
                let l = choose|l: int| 0 <= l < layers@.len() && (#[trigger] layers@[l]).hit(key, after);
                assert(layers@[l].imm@.contains_key(key));
                assert(has_key(keys@, key));
                let e = choose|e: int| 0 <= e < keys@.len() && (#[trigger] keys@[e]).key@ == key;
                assert(self@.scan_value(keys@[e].key@, *range, epoch, *read_options) is Some);
            }
        }
        pairs
    }

    /// All runs that a read of the table `table_id` at `epoch` looks into,
    /// in the order in which it does.
    pub fn layers(&self, table_id: TableId, epoch: HummockEpoch) -> (layers: Vec<Layer>)
        ensures
            layers@ == self@.layers(table_id, epoch),
    {
        let mut layers: Vec<Layer> = Vec::new();
        let mut i: usize = 0;
        while i < self.staging.imm.len()
            invariant
                i <= self.staging.imm.len(),
                layers@ == imm_layers(self@.imm.take(i as int), epoch),
            decreases self.staging.imm.len() - i,
        {
            layers.push(Layer { imm: share(&self.staging.imm[i]), file: None, up_to: epoch });
            i = i + 1;
            assert(layers@ =~= imm_layers(self@.imm.take(i as int), epoch));
        }
        assert(self@.imm.take(self.staging.imm.len() as int) =~= self@.imm);
        push_files_layers(&mut layers, &self.staging.sst, epoch);
        let max_committed_epoch = self.committed.max_committed_epoch();
        let bound = if epoch <= max_committed_epoch {
            epoch
        } else {
            max_committed_epoch
        };
        match self.committed.version.committed_ssts(table_id) {
            Some(files) => {
                push_files_layers(&mut layers, files, bound);
            },
            None => {
                assert(layers@ + files_layers(Seq::empty(), bound) =~= layers@);
            },
        }
        layers
    }

    /// Reads `key` as of `epoch`: the newest write to it that the reader
    /// sees, or nothing if there is none or it is a delete.
    pub fn get(
        &self,
        key: &Vec<u8>,
        epoch: HummockEpoch,
        read_options: &ReadOptions,
    ) -> (value: Option<Vec<u8>>)
        ensures
            match value {
                Some(bytes) => self@.get(read_options.table_id, key@, epoch) == Some(bytes@),
                None => self@.get(read_options.table_id, key@, epoch) is None,
            },
    {
        let layers = self.layers(read_options.table_id, epoch);
        match read(&layers, key, None) {
            Some(HummockValue::Put(bytes)) => Some(bytes),
            _ => None,
        }
    }
}

} // verus!
