//! The committed view of the store: sorted files by compaction group, and
//! the deltas that lead from one version to the next.

use vstd::prelude::*;
use std::sync::Arc;
use crate::key::{compare_keys, key_le, KeyOrder};
use crate::memtable::{HummockEpoch, ImmutableMemtable, TableId};
use crate::seq_util::{lemma_filter_empty, lemma_filter_step};
use crate::shared::share;

verus! {

pub type CompactionGroupId = u64;

/// The keys a sorted file may hold, both ends included.
#[derive(Debug)]
pub struct KeyRange {
    pub left: Vec<u8>,
    pub right: Vec<u8>,
}

impl KeyRange {
    /// `key` lies between the two ends.
    pub open spec fn spec_contains(&self, key: Seq<u8>) -> bool {
        key_le(self.left@, key) && key_le(key, self.right@)
    }

    pub fn contains(&self, key: &Vec<u8>) -> (inside: bool)
        ensures
            inside == self.spec_contains(key@),
    {
        let low = compare_keys(&self.left, key);
        let high = compare_keys(key, &self.right);
        !matches!(low, KeyOrder::Greater) && !matches!(high, KeyOrder::Greater)
    }
}

/// A sorted file: its id, the key range it covers, and the sorted runs it
/// holds, newest first.
#[derive(Debug)]
pub struct SstableInfo {
    pub id: u64,
    pub key_range: Option<KeyRange>,
    pub batches: Vec<Arc<ImmutableMemtable>>,
}

impl SstableInfo {
    /// Every run of the file is of an epoch up to `epoch`.
    pub open spec fn spec_covered_by(&self, epoch: HummockEpoch) -> bool {
        forall|i: int| 0 <= i < self.batches@.len() ==> (#[trigger] self.batches@[i]).spec_epoch() <= epoch
    }

    pub fn covered_by(&self, epoch: HummockEpoch) -> (covered: bool)
        ensures
            covered == self.spec_covered_by(epoch),
    {
        let mut i: usize = 0;
        while i < self.batches.len()
            invariant
                i <= self.batches.len(),
                forall|j: int| 0 <= j < i ==> (#[trigger] self.batches@[j]).spec_epoch() <= epoch,
            decreases self.batches.len() - i,
        {
            if self.batches[i].epoch() > epoch {
                return false;
            }
            i = i + 1;
        }
        true
    }
}

/// An uncommitted sorted file with the compaction group it was written for.
#[derive(Debug)]
pub struct LocalSstableInfo {
    pub compaction_group_id: CompactionGroupId,
    pub sst: Arc<SstableInfo>,
}

/// The sorted files of one compaction group, newest first, and the tables
/// that belong to the group.
#[derive(Debug)]
pub struct CompactionGroup {
    pub group_id: CompactionGroupId,
    pub member_table_ids: Vec<u32>,
    pub ssts: Vec<Arc<SstableInfo>>,
}

/// A compaction group as a mathematical object.
pub struct GroupView {
    pub group_id: CompactionGroupId,
    pub member_table_ids: Seq<u32>,
    pub ssts: Seq<Arc<SstableInfo>>,
}

impl View for CompactionGroup {
    type V = GroupView;

    open spec fn view(&self) -> GroupView {
        GroupView {
            group_id: self.group_id,
            member_table_ids: self.member_table_ids@,
            ssts: self.ssts@,
        }
    }
}

/// A version of the committed store.
#[derive(Debug)]
pub struct HummockVersion {
    pub id: u64,
    pub max_committed_epoch: HummockEpoch,
    pub groups: Vec<CompactionGroup>,
}

/// A version as a mathematical object.
pub struct VersionView {
    pub id: u64,
    pub max_committed_epoch: HummockEpoch,
    pub groups: Seq<GroupView>,
}

impl View for HummockVersion {
    type V = VersionView;

    open spec fn view(&self) -> VersionView {
        VersionView {
            id: self.id,
            max_committed_epoch: self.max_committed_epoch,
            groups: Seq::new(self.groups@.len(), |i: int| self.groups@[i]@),
        }
    }
}

/// The step from the version `prev_id` to the version `id`: files that
/// enter their groups at the front, and files that leave.
#[derive(Debug)]
pub struct VersionDelta {
    pub prev_id: u64,
    pub id: u64,
    pub max_committed_epoch: HummockEpoch,
    pub inserted: Vec<LocalSstableInfo>,
    pub removed_sst_ids: Vec<u64>,
}

/// What the metadata service sends when the committed store changes.
#[derive(Debug)]
pub enum Payload {
    PinnedVersion(Arc<HummockVersion>),
    VersionDeltas(Vec<VersionDelta>),
}

/// The files among `inserted` that go to the group `group_id`, in order.
pub open spec fn inserted_for(
    inserted: Seq<LocalSstableInfo>,
    group_id: CompactionGroupId,
) -> Seq<Arc<SstableInfo>> {
    inserted.filter(|local: LocalSstableInfo| local.compaction_group_id == group_id).map_values(
        |local: LocalSstableInfo| local.sst,
    )
}

/// The files of `ssts` whose id is not among `removed`, in order.
pub open spec fn kept_ssts(
    ssts: Seq<Arc<SstableInfo>>,
    removed: Seq<u64>,
) -> Seq<Arc<SstableInfo>> {
    ssts.filter(|sst: Arc<SstableInfo>| !removed.contains(sst.id))
}

/// A group after `delta`: the files that enter, then those that stay.
pub open spec fn apply_delta_to_group(group: GroupView, delta: VersionDelta) -> GroupView {
    GroupView {
        group_id: group.group_id,
        member_table_ids: group.member_table_ids,
        ssts: inserted_for(delta.inserted@, group.group_id) + kept_ssts(
            group.ssts,
            delta.removed_sst_ids@,
        ),
    }
}

/// A version after `delta`.
pub open spec fn apply_delta(version: VersionView, delta: VersionDelta) -> VersionView {
    VersionView {
        id: delta.id,
        max_committed_epoch: delta.max_committed_epoch,
        groups: Seq::new(version.groups.len(), |i: int| apply_delta_to_group(version.groups[i], delta)),
    }
}

/// A version after all of `deltas`, applied in order.
pub open spec fn apply_deltas(version: VersionView, deltas: Seq<VersionDelta>) -> VersionView
    decreases deltas.len(),
{
    if deltas.len() == 0 {
        version
    } else {
        apply_delta(apply_deltas(version, deltas.drop_last()), deltas.last())
    }
}

/// The version that the delta at position `i` has to start from: `id` for
/// the first, else the one that the delta before it leads to.
pub open spec fn start_of(id: u64, deltas: Seq<VersionDelta>, i: int) -> u64 {
    if i == 0 {
        id
    } else {
        deltas[i - 1].id
    }
}

/// Each delta starts from the version the one before it leads to, the first
/// from `id`.
pub open spec fn deltas_follow(id: u64, deltas: Seq<VersionDelta>) -> bool {
    forall|i: int| 0 <= i < deltas.len() ==> deltas[i].prev_id == #[trigger] start_of(id, deltas, i)
}

/// Every sorted file of the version carries a key range.
pub open spec fn key_ranges_present(version: VersionView) -> bool {
    forall|g: int, s: int|
        0 <= g < version.groups.len() && 0 <= s < version.groups[g].ssts.len() ==> (
        #[trigger] version.groups[g].ssts[s]).key_range is Some
}

/// The group that `table_id` belongs to: the first that lists it.
pub open spec fn group_index_of(version: VersionView, table_id: u32) -> Option<int> {
    if exists|g: int| is_group_of(version, table_id, g) {
        Some(choose|g: int| is_first_group_of(version, table_id, g))
    } else {
        None
    }
}

/// Group `g` lists `table_id`.
pub open spec fn is_group_of(version: VersionView, table_id: u32, g: int) -> bool {
    0 <= g < version.groups.len() && version.groups[g].member_table_ids.contains(table_id)
}

/// Group `g` lists `table_id`, and no group before it does.
pub open spec fn is_first_group_of(version: VersionView, table_id: u32, g: int) -> bool {
    &&& is_group_of(version, table_id, g)
    &&& forall|h: int| 0 <= h < g ==> !is_group_of(version, table_id, h)
}

/// The committed files a reader of `table_id` searches, newest first.
pub open spec fn committed_ssts(version: VersionView, table_id: u32) -> Seq<Arc<SstableInfo>> {
    match group_index_of(version, table_id) {
        Some(g) => version.groups[g].ssts,
        None => Seq::empty(),
    }
}

/// Whether `ids` holds `id`.
pub fn contains_id(ids: &Vec<u64>, id: u64) -> (found: bool)
    ensures
        found == ids@.contains(id),
{
    let mut i: usize = 0;
    while i < ids.len()
        invariant
            i <= ids.len(),
            forall|j: int| 0 <= j < i ==> ids@[j] != id,
        decreases ids.len() - i,
    {
        if ids[i] == id {
            return true;
        }
        i = i + 1;
    }
    false
}

/// Whether `ids` holds `id`.
pub fn contains_table(ids: &Vec<u32>, id: u32) -> (found: bool)
    ensures
        found == ids@.contains(id),
{
    let mut i: usize = 0;
    while i < ids.len()
        invariant
            i <= ids.len(),
            forall|j: int| 0 <= j < i ==> ids@[j] != id,
        decreases ids.len() - i,
    {
        if ids[i] == id {
            return true;
        }
        i = i + 1;
    }
    false
}

impl CompactionGroup {
    /// The group after `delta`.
    pub fn apply_version_delta(&self, delta: &VersionDelta) -> (after: CompactionGroup)
        ensures
            after@ == apply_delta_to_group(self@, *delta),
    {
        let ghost enters = |local: LocalSstableInfo| local.compaction_group_id == self.group_id;
        let ghost file = |local: LocalSstableInfo| local.sst;
        let ghost stays = |sst: Arc<SstableInfo>| !delta.removed_sst_ids@.contains(sst.id);
        let mut ssts: Vec<Arc<SstableInfo>> = Vec::new();
        let mut i: usize = 0;
        proof {
            lemma_filter_empty(delta.inserted@.take(0), enters);
        }
        while i < delta.inserted.len()
            invariant
                i <= delta.inserted.len(),
                enters == |local: LocalSstableInfo| local.compaction_group_id == self.group_id,
                file == |local: LocalSstableInfo| local.sst,
                ssts@ == delta.inserted@.take(i as int).filter(enters).map_values(file),
            decreases delta.inserted.len() - i,
        {
            proof {
                lemma_filter_step(delta.inserted@, i as int, enters);
            }
            if delta.inserted[i].compaction_group_id == self.group_id {
                ssts.push(share(&delta.inserted[i].sst));
                assert(ssts@ =~= delta.inserted@.take(i + 1).filter(enters).map_values(file));
            }
            i = i + 1;
        }
        assert(delta.inserted@.take(delta.inserted.len() as int) =~= delta.inserted@);
        let ghost entered = ssts@;
        let mut j: usize = 0;
        proof {
            lemma_filter_empty(self.ssts@.take(0), stays);
        }
        while j < self.ssts.len()
            invariant
                j <= self.ssts.len(),
                stays == |sst: Arc<SstableInfo>| !delta.removed_sst_ids@.contains(sst.id),
                ssts@ == entered + self.ssts@.take(j as int).filter(stays),
            decreases self.ssts.len() - j,
        {
            proof {
                lemma_filter_step(self.ssts@, j as int, stays);
            }
            if !contains_id(&delta.removed_sst_ids, self.ssts[j].id) {
                ssts.push(share(&self.ssts[j]));
                assert(ssts@ =~= entered + self.ssts@.take(j + 1).filter(stays));
            }
            j = j + 1;
        }
        assert(self.ssts@.take(self.ssts.len() as int) =~= self.ssts@);
        let mut member_table_ids: Vec<u32> = Vec::new();
        let mut k: usize = 0;
        while k < self.member_table_ids.len()
            invariant
                k <= self.member_table_ids.len(),
                member_table_ids@ == self.member_table_ids@.take(k as int),
            decreases self.member_table_ids.len() - k,
        {
            member_table_ids.push(self.member_table_ids[k]);
            k = k + 1;
            assert(member_table_ids@ =~= self.member_table_ids@.take(k as int));
        }
        assert(self.member_table_ids@.take(self.member_table_ids.len() as int)
            =~= self.member_table_ids@);
        CompactionGroup { group_id: self.group_id, member_table_ids, ssts }
    }

    /// Every file of the group carries a key range.
    pub fn key_ranges_present(&self) -> (present: bool)
        ensures
            present == forall|s: int| 0 <= s < self.ssts@.len() ==> (#[trigger] self.ssts@[s]).key_range is Some,
    {
        let mut s: usize = 0;
        while s < self.ssts.len()
            invariant
                s <= self.ssts.len(),
                forall|t: int| 0 <= t < s ==> (#[trigger] self.ssts@[t]).key_range is Some,
            decreases self.ssts.len() - s,
        {
            if self.ssts[s].key_range.is_none() {
                return false;
            }
            s = s + 1;
        }
        true
    }
}

impl HummockVersion {
    /// The version after `delta`.
    pub fn apply_version_delta(&self, delta: &VersionDelta) -> (after: HummockVersion)
        ensures
            after@ == apply_delta(self@, *delta),
    {
        let mut groups: Vec<CompactionGroup> = Vec::new();
        let mut g: usize = 0;
        while g < self.groups.len()
            invariant
                g <= self.groups.len(),
                groups@.len() == g,
                forall|h: int| 0 <= h < g ==> (#[trigger] groups@[h])@ == apply_delta_to_group(self.groups@[h]@, *delta),
            decreases self.groups.len() - g,
        {
            groups.push(self.groups[g].apply_version_delta(delta));
            g = g + 1;
        }
        let after = HummockVersion {
            id: delta.id,
            max_committed_epoch: delta.max_committed_epoch,
            groups,
        };
        assert(after@.groups =~= apply_delta(self@, *delta).groups);
        after
    }

    /// The version after all of `deltas`, applied in order.
    pub fn apply_version_deltas(
        version: Arc<HummockVersion>,
        deltas: &Vec<VersionDelta>,
    ) -> (after: Arc<HummockVersion>)
        ensures
            after@ == apply_deltas(version@, deltas@),
    {
        let mut current = version;
        let mut i: usize = 0;
        while i < deltas.len()
            invariant
                i <= deltas.len(),
                current@ == apply_deltas(version@, deltas@.take(i as int)),
            decreases deltas.len() - i,
        {
            proof {
                assert(deltas@.take(i + 1).drop_last() =~= deltas@.take(i as int));
            }
            current = Arc::new(current.apply_version_delta(&deltas[i]));
            i = i + 1;
        }
        assert(deltas@.take(deltas.len() as int) =~= deltas@);
        current
    }

    /// Checks that every sorted file of the version carries a key range.
    pub fn validate_table_key_range(&self) -> (valid: bool)
        ensures
            valid == key_ranges_present(self@),
    {
        let mut g: usize = 0;
        while g < self.groups.len()
            invariant
                g <= self.groups.len(),
                forall|h: int, s: int|
                    0 <= h < g && 0 <= s < self@.groups[h].ssts.len() ==> (
                    #[trigger] self@.groups[h].ssts[s]).key_range is Some,
            decreases self.groups.len() - g,
        {
            if !self.groups[g].key_ranges_present() {
                proof {
                    let s = choose|s: int| 0 <= s < self.groups@[g as int].ssts@.len() && !(
                    #[trigger] self.groups@[g as int].ssts@[s].key_range is Some);
                    assert(!(self@.groups[g as int].ssts[s].key_range is Some));
                }
                return false;
            }
            g = g + 1;
        }
        true
    }

    /// The committed files a reader of `table_id` searches, newest first.
    pub fn committed_ssts(&self, table_id: TableId) -> (found: Option<&Vec<Arc<SstableInfo>>>)
        ensures
            match found {
                Some(ssts) => ssts@ == committed_ssts(self@, table_id.table_id) && group_index_of(
                    self@,
                    table_id.table_id,
                ) is Some,
                None => group_index_of(self@, table_id.table_id) is None,
            },
    {
        let mut g: usize = 0;
        while g < self.groups.len()
            invariant
                g <= self.groups.len(),
                forall|h: int| 0 <= h < g ==> !is_group_of(self@, table_id.table_id, h),
            decreases self.groups.len() - g,
        {
            if contains_table(&self.groups[g].member_table_ids, table_id.table_id) {
                proof {
                    assert(is_first_group_of(self@, table_id.table_id, g as int));
                    let chosen = choose|c: int| is_first_group_of(self@, table_id.table_id, c);
                    assert(chosen == g);
                }
                return Some(&self.groups[g].ssts);
            }
            g = g + 1;
        }
        None
    }
}

/// How a payload stands to the version it is meant for.
#[derive(Clone, Copy, Debug, PartialEq, Eq, Structural)]
pub enum PayloadCheck {
    /// It can be applied.
    Applies,
    /// A delta does not start from the version before it, or the result is
    /// not newer than the current version.
    DeltaMismatch,
    /// The resulting version holds a file without a key range.
    KeyRangeMissing,
}

/// The version that `payload` leads to from `current`.
pub open spec fn payload_result(current: VersionView, payload: Payload) -> VersionView {
    match payload {
        Payload::PinnedVersion(version) => version@,
        Payload::VersionDeltas(deltas) => apply_deltas(current, deltas@),
    }
}

/// The deltas of `payload` follow one another from `current`, and what the
/// payload leads to is newer than `current`: a larger id, and a committed
/// epoch that is no smaller.
pub open spec fn payload_follows(current: VersionView, payload: Payload) -> bool {
    &&& payload matches Payload::VersionDeltas(deltas) ==> deltas_follow(current.id, deltas@)
    &&& payload_result(current, payload).id > current.id
    &&& payload_result(current, payload).max_committed_epoch >= current.max_committed_epoch
}

/// How `payload` stands to `current`.
pub open spec fn check_payload(current: VersionView, payload: Payload) -> PayloadCheck {
    if !payload_follows(current, payload) {
        PayloadCheck::DeltaMismatch
    } else if !key_ranges_present(payload_result(current, payload)) {
        PayloadCheck::KeyRangeMissing
    } else {
        PayloadCheck::Applies
    }
}

/// Whether each delta starts from the version the one before it leads to.
pub fn check_deltas_follow(id: u64, deltas: &Vec<VersionDelta>) -> (follow: bool)
    ensures
        follow == deltas_follow(id, deltas@),
{
    let mut expected: u64 = id;
    let mut i: usize = 0;
    while i < deltas.len()
        invariant
            i <= deltas.len(),
            expected == start_of(id, deltas@, i as int),
            forall|j: int| 0 <= j < i ==> deltas@[j].prev_id == #[trigger] start_of(id, deltas@, j),
        decreases deltas.len() - i,
    {
        if deltas[i].prev_id != expected {
            assert(deltas@[i as int].prev_id != start_of(id, deltas@, i as int));
            return false;
        }
        expected = deltas[i].id;
        i = i + 1;
    }
    true
}

/// A shared, read-only snapshot of the committed store.
#[derive(Debug)]
pub struct PinnedVersion {
    pub version: Arc<HummockVersion>,
}

impl View for PinnedVersion {
    type V = VersionView;

    open spec fn view(&self) -> VersionView {
        self.version@
    }
}

/// The tables of one group, each with the group.
pub open spec fn group_members(group: GroupView) -> Seq<(u32, CompactionGroupId)> {
    group.member_table_ids.map_values(|table_id: u32| (table_id, group.group_id))
}

/// Each table that belongs to a group, with the group: group after group.
pub open spec fn compaction_group_index(groups: Seq<GroupView>) -> Seq<(u32, CompactionGroupId)>
    decreases groups.len(),
{
    if groups.len() == 0 {
        Seq::empty()
    } else {
        compaction_group_index(groups.drop_last()) + group_members(groups.last())
    }
}

impl PinnedVersion {
    /// Which compaction group each table belongs to.
    pub fn compaction_group_index(&self) -> (index: Vec<(u32, CompactionGroupId)>)
        ensures
            index@ == compaction_group_index(self@.groups),
    {
        let mut index: Vec<(u32, CompactionGroupId)> = Vec::new();
        let mut g: usize = 0;
        assert(self@.groups.take(0) =~= Seq::<GroupView>::empty());
        while g < self.version.groups.len()
            invariant
                g <= self.version.groups.len(),
                index@ == compaction_group_index(self@.groups.take(g as int)),
            decreases self.version.groups.len() - g,
        {
            let group = &self.version.groups[g];
            let ghost before = index@;
            let mut t: usize = 0;
            while t < group.member_table_ids.len()
                invariant
                    t <= group.member_table_ids.len(),
                    index@ == before + group_members(group@).take(t as int),
                decreases group.member_table_ids.len() - t,
            {
                index.push((group.member_table_ids[t], group.group_id));
                t = t + 1;
                assert(index@ =~= before + group_members(group@).take(t as int));
            }
            proof {
                assert(group_members(group@).take(group.member_table_ids.len() as int) =~= group_members(
                    group@,
                ));
                assert(self@.groups.take(g + 1).drop_last() =~= self@.groups.take(g as int));
                assert(self@.groups.take(g + 1).last() == group@);
            }
            g = g + 1;
        }
        assert(self@.groups.take(self.version.groups.len() as int) =~= self@.groups);
        index
    }

    pub fn new(version: Arc<HummockVersion>) -> (pinned: PinnedVersion)
        ensures
            pinned.version == version,
    {
        PinnedVersion { version }
    }

    pub fn id(&self) -> (id: u64)
        ensures
            id == self@.id,
    {
        self.version.id
    }

    pub fn max_committed_epoch(&self) -> (epoch: HummockEpoch)
        ensures
            epoch == self@.max_committed_epoch,
    {
        self.version.max_committed_epoch
    }

    pub fn version(&self) -> (version: Arc<HummockVersion>)
        ensures
            version == self.version,
    {
        share(&self.version)
    }

    /// Another pointer to the same snapshot.
    pub fn share(&self) -> (pinned: PinnedVersion)
        ensures
            pinned == *self,
    {
        PinnedVersion { version: share(&self.version) }
    }

    /// The snapshot that replaces this one.
    pub fn new_pin_version(&self, version: Arc<HummockVersion>) -> (pinned: PinnedVersion)
        requires
            version@.id > self@.id,
            version@.max_committed_epoch >= self@.max_committed_epoch,
        ensures
            pinned.version == version,
    {
        PinnedVersion { version }
    }

    /// The version that `payload` leads to from this one, and how the
    /// payload stands to it.
    pub fn resolve(&self, payload: &Payload) -> (resolved: (PayloadCheck, Arc<HummockVersion>))
        ensures
            resolved.0 == check_payload(self@, *payload),
            resolved.1@ == payload_result(self@, *payload),
            payload matches Payload::PinnedVersion(version) ==> resolved.1 == version,
    {
        let version = match payload {
            Payload::PinnedVersion(version) => share(version),
            Payload::VersionDeltas(deltas) => {
                if !check_deltas_follow(self.version.id, deltas) {
                    return (PayloadCheck::DeltaMismatch, HummockVersion::apply_version_deltas(share(&self.version), deltas));
                }
                HummockVersion::apply_version_deltas(share(&self.version), deltas)
            },
        };
        if version.id <= self.version.id || version.max_committed_epoch
            < self.version.max_committed_epoch {
            (PayloadCheck::DeltaMismatch, version)
        } else if !version.validate_table_key_range() {
            (PayloadCheck::KeyRangeMissing, version)
        } else {
            (PayloadCheck::Applies, version)
        }
    }
}

} // verus!
