//! Immutable memtables: one write batch of one epoch and one table, held
//! sorted by key with one entry per key.

use vstd::prelude::*;
use crate::key::{compare_keys, key_lt, lemma_key_lt_irreflexive, lemma_key_lt_transitive, KeyOrder};

verus! {

pub type HummockEpoch = u64;

/// Identifies a logical table.
#[derive(Clone, Copy, Debug, PartialEq, Eq, Structural)]
pub struct TableId {
    pub table_id: u32,
}

/// What a write leaves under its key: a value, or a tombstone.
#[derive(Clone, Debug, PartialEq, Eq)]
pub enum HummockValue {
    Put(Vec<u8>),
    Delete,
}

/// A written value as a mathematical object.
pub enum ValueView {
    Put(Seq<u8>),
    Delete,
}

impl View for HummockValue {
    type V = ValueView;

    open spec fn view(&self) -> ValueView {
        match self {
            HummockValue::Put(bytes) => ValueView::Put(bytes@),
            HummockValue::Delete => ValueView::Delete,
        }
    }
}

/// Copies a byte string.
pub fn copy_bytes(bytes: &Vec<u8>) -> (copy: Vec<u8>)
    ensures
        copy@ == bytes@,
{
    let mut copy: Vec<u8> = Vec::new();
    let mut i: usize = 0;
    while i < bytes.len()
        invariant
            i <= bytes.len(),
            copy@ == bytes@.take(i as int),
        decreases bytes.len() - i,
    {
        copy.push(bytes[i]);
        i = i + 1;
        assert(copy@ =~= bytes@.take(i as int));
    }
    assert(bytes@.take(bytes.len() as int) =~= bytes@);
    copy
}

impl HummockValue {
    /// The bytes this value takes in a memtable: one tag byte, and the
    /// payload of a put.
    pub open spec fn spec_encoded_len(&self) -> nat {
        match self {
            HummockValue::Put(bytes) => 1 + bytes@.len(),
            HummockValue::Delete => 1,
        }
    }

    pub fn copy(&self) -> (copy: HummockValue)
        ensures
            copy@ == self@,
            copy.spec_encoded_len() == self.spec_encoded_len(),
    {
        match self {
            HummockValue::Put(bytes) => HummockValue::Put(copy_bytes(bytes)),
            HummockValue::Delete => HummockValue::Delete,
        }
    }
}

/// One key with what was written under it.
#[derive(Clone, Debug, PartialEq, Eq)]
pub struct Entry {
    pub key: Vec<u8>,
    pub value: HummockValue,
}

impl Entry {
    /// The bytes the entry is accounted with.
    pub open spec fn spec_size(&self) -> nat {
        self.key@.len() + self.value.spec_encoded_len()
    }
}

/// Some entry of `entries` has the key `key`.
pub open spec fn has_key(entries: Seq<Entry>, key: Seq<u8>) -> bool {
    exists|i: int| 0 <= i < entries.len() && (#[trigger] entries[i]).key@ == key
}

/// The position of an entry with the key `key`.
pub open spec fn position_of(entries: Seq<Entry>, key: Seq<u8>) -> int {
    choose|i: int| 0 <= i < entries.len() && (#[trigger] entries[i]).key@ == key
}

/// The entries as a map from key to value.
pub open spec fn entries_map(entries: Seq<Entry>) -> Map<Seq<u8>, ValueView> {
    Map::new(|key: Seq<u8>| has_key(entries, key), |key: Seq<u8>| entries[position_of(entries, key)].value@)
}

/// The keys of `entries` ascend strictly.
pub open spec fn sorted_by_key(entries: Seq<Entry>) -> bool {
    forall|i: int, j: int|
        0 <= i < j < entries.len() ==> key_lt((#[trigger] entries[i]).key@, (#[trigger] entries[j]).key@)
}

/// The bytes all of `entries` are accounted with.
pub open spec fn entries_size(entries: Seq<Entry>) -> nat
    decreases entries.len(),
{
    if entries.len() == 0 {
        0
    } else {
        entries_size(entries.drop_last()) + entries.last().spec_size()
    }
}

/// What a batch of writes amounts to: each key with the last value written
/// under it.
pub open spec fn batch_map(items: Seq<(Vec<u8>, HummockValue)>) -> Map<Seq<u8>, ValueView>
    decreases items.len(),
{
    if items.len() == 0 {
        Map::empty()
    } else {
        batch_map(items.drop_last()).insert(items.last().0@, items.last().1@)
    }
}

/// In a sorted sequence each key stands at one position only.
pub proof fn lemma_sorted_position(entries: Seq<Entry>, i: int)
    requires
        sorted_by_key(entries),
        0 <= i < entries.len(),
    ensures
        has_key(entries, entries[i].key@),
        position_of(entries, entries[i].key@) == i,
        entries_map(entries).contains_key(entries[i].key@),
        entries_map(entries)[entries[i].key@] == entries[i].value@,
{
    let key = entries[i].key@;
    let p = position_of(entries, key);
    if p < i {
        lemma_key_lt_irreflexive(key);
        assert(key_lt(entries[p].key@, entries[i].key@));
    } else if i < p {
        lemma_key_lt_irreflexive(key);
        assert(key_lt(entries[i].key@, entries[p].key@));
    }
}

/// Where `key` stands in sorted `entries`: at `index` if `found`, else
/// between the entries before `index`, which are smaller, and those from
/// `index` on, which are larger.
pub open spec fn search_result(entries: Seq<Entry>, key: Seq<u8>, found: bool, index: int) -> bool {
    &&& 0 <= index <= entries.len()
    &&& found ==> index < entries.len() && entries[index].key@ == key
    &&& !found ==> {
        &&& forall|i: int| 0 <= i < index ==> key_lt((#[trigger] entries[i]).key@, key)
        &&& forall|i: int| index <= i < entries.len() ==> key_lt(key, (#[trigger] entries[i]).key@)
    }
}

/// A key that a search did not find is not there.
pub proof fn lemma_not_found(entries: Seq<Entry>, key: Seq<u8>, index: int)
    requires
        search_result(entries, key, false, index),
    ensures
        !has_key(entries, key),
{
    lemma_key_lt_irreflexive(key);
}

/// Binary search for `key` in sorted `entries`.
pub fn search(entries: &Vec<Entry>, key: &Vec<u8>) -> (result: (bool, usize))
    requires
        sorted_by_key(entries@),
    ensures
        search_result(entries@, key@, result.0, result.1 as int),
{
    let mut low: usize = 0;
    let mut high: usize = entries.len();
    while low < high
        invariant
            low <= high <= entries.len(),
            sorted_by_key(entries@),
            forall|i: int| 0 <= i < low ==> key_lt((#[trigger] entries@[i]).key@, key@),
            forall|i: int| high <= i < entries.len() ==> key_lt(key@, (#[trigger] entries@[i]).key@),
        decreases high - low,
    {
        let mid: usize = low + (high - low) / 2;
        match compare_keys(&entries[mid].key, key) {
            KeyOrder::Equal => {
                return (true, mid);
            },
            KeyOrder::Less => {
                assert forall|i: int| 0 <= i < mid + 1 implies key_lt(
                    (#[trigger] entries@[i]).key@,
                    key@,
                ) by {
                    if i < mid {
                        assert(key_lt(entries@[i].key@, entries@[mid as int].key@));
                        lemma_key_lt_transitive(entries@[i].key@, entries@[mid as int].key@, key@);
                    }
                }
                low = mid + 1;
            },
            KeyOrder::Greater => {
                assert forall|i: int| mid <= i < entries.len() implies key_lt(
                    key@,
                    (#[trigger] entries@[i]).key@,
                ) by {
                    if mid < i {
                        assert(key_lt(entries@[mid as int].key@, entries@[i].key@));
                        lemma_key_lt_transitive(key@, entries@[mid as int].key@, entries@[i].key@);
                    }
                }
                high = mid;
            },
        }
    }
    (false, low)
}

/// Putting a new key at the place a search gave keeps the order and adds
/// the key to the map.
pub proof fn lemma_insert_new(entries: Seq<Entry>, index: int, entry: Entry)
    requires
        sorted_by_key(entries),
        search_result(entries, entry.key@, false, index),
    ensures
        sorted_by_key(entries.insert(index, entry)),
        entries_map(entries.insert(index, entry)) == entries_map(entries).insert(
            entry.key@,
            entry.value@,
        ),
{
    let after = entries.insert(index, entry);
    assert forall|i: int, j: int| 0 <= i < j < after.len() implies key_lt(
        (#[trigger] after[i]).key@,
        (#[trigger] after[j]).key@,
    ) by {
        let oi = if i < index { i } else { i - 1 };
        let oj = if j < index { j } else { j - 1 };
        if i != index && j != index {
            assert(key_lt(entries[oi].key@, entries[oj].key@));
        } else if i == index {
            assert(key_lt(entry.key@, entries[oj].key@));
        } else {
            assert(key_lt(entries[oi].key@, entry.key@));
        }
    }
    let expected = entries_map(entries).insert(entry.key@, entry.value@);
    assert forall|key: Seq<u8>| #[trigger] entries_map(after).contains_key(key) implies expected.contains_key(key)
        && expected[key] == entries_map(after)[key] by {
        let p = position_of(after, key);
        lemma_sorted_position(after, p);
        if p != index {
            let op = if p < index { p } else { p - 1 };
            assert(entries[op] == after[p]);
            lemma_sorted_position(entries, op);
            lemma_not_found(entries, entry.key@, index);
        }
    }
    assert forall|key: Seq<u8>| #[trigger] expected.contains_key(key) implies entries_map(after).contains_key(key) by {
        if key == entry.key@ {
            assert(after[index].key@ == key);
        } else {
            let op = position_of(entries, key);
            let p = if op < index { op } else { op + 1 };
            assert(after[p].key@ == key);
        }
    }
    assert(entries_map(after) =~= expected);
}

/// Replacing the entry that a search found keeps the order and overwrites
/// the key in the map.
pub proof fn lemma_replace_found(entries: Seq<Entry>, index: int, entry: Entry)
    requires
        sorted_by_key(entries),
        search_result(entries, entry.key@, true, index),
    ensures
        sorted_by_key(entries.update(index, entry)),
        entries_map(entries.update(index, entry)) == entries_map(entries).insert(
            entry.key@,
            entry.value@,
        ),
{
    let after = entries.update(index, entry);
    assert forall|i: int, j: int| 0 <= i < j < after.len() implies key_lt(
        (#[trigger] after[i]).key@,
        (#[trigger] after[j]).key@,
    ) by {
        assert(key_lt(entries[i].key@, entries[j].key@));
    }
    let expected = entries_map(entries).insert(entry.key@, entry.value@);
    assert forall|key: Seq<u8>| #[trigger] entries_map(after).contains_key(key) implies expected.contains_key(key)
        && expected[key] == entries_map(after)[key] by {
        let p = position_of(after, key);
        lemma_sorted_position(after, p);
        if p != index {
            assert(entries[p] == after[p]);
            lemma_sorted_position(entries, p);
        }
    }
    assert forall|key: Seq<u8>| #[trigger] expected.contains_key(key) implies entries_map(after).contains_key(key) by {
        if key == entry.key@ {
            assert(after[index].key@ == key);
        } else {
            let op = position_of(entries, key);
            assert(after[op].key@ == key);
        }
    }
    assert(entries_map(after) =~= expected);
}

/// Puts `entry` into sorted `entries`, in place of an entry with the same
/// key if there is one.
pub fn upsert(entries: &mut Vec<Entry>, entry: Entry)
    requires
        sorted_by_key(old(entries)@),
    ensures
        sorted_by_key(final(entries)@),
        entries_map(final(entries)@) == entries_map(old(entries)@).insert(entry.key@, entry.value@),
{
    let (found, index) = search(entries, &entry.key);
    proof {
        if found {
            lemma_replace_found(entries@, index as int, entry);
        } else {
            lemma_insert_new(entries@, index as int, entry);
        }
    }
    if found {
        entries.set(index, entry);
    } else {
        entries.insert(index, entry);
    }
}

/// Adds up the sizes of `entries`, or `None` when the sum passes
/// `usize::MAX`.
pub fn total_size(entries: &Vec<Entry>) -> (size: Option<usize>)
    ensures
        match size {
            Some(bytes) => bytes == entries_size(entries@),
            None => entries_size(entries@) > usize::MAX,
        },
{
    let mut sum: usize = 0;
    let mut i: usize = 0;
    while i < entries.len()
        invariant
            i <= entries.len(),
            sum == entries_size(entries@.take(i as int)),
        decreases entries.len() - i,
    {
        proof {
            assert(entries@.take(i + 1).drop_last() =~= entries@.take(i as int));
            lemma_size_monotone(entries@, i + 1);
        }
        let key_len: usize = entries[i].key.len();
        let value_len: usize = match &entries[i].value {
            HummockValue::Put(bytes) => bytes.len(),
            HummockValue::Delete => 0,
        };
        if key_len > usize::MAX - sum {
            return None;
        }
        sum = sum + key_len;
        if 1 > usize::MAX - sum {
            return None;
        }
        sum = sum + 1;
        if value_len > usize::MAX - sum {
            return None;
        }
        sum = sum + value_len;
        i = i + 1;
    }
    assert(entries@.take(entries.len() as int) =~= entries@);
    Some(sum)
}

/// A prefix of the entries is no larger than all of them.
pub proof fn lemma_size_monotone(entries: Seq<Entry>, n: int)
    requires
        0 <= n <= entries.len(),
    ensures
        entries_size(entries.take(n)) <= entries_size(entries),
    decreases entries.len() - n,
{
    if n == entries.len() {
        assert(entries.take(n) =~= entries);
    } else {
        lemma_size_monotone(entries, n + 1);
        assert(entries.take(n + 1).drop_last() =~= entries.take(n));
    }
}

/// An immutable batch of writes of one epoch and one table. Its entries
/// ascend strictly by key, and its size is the sum of their sizes.
#[derive(Debug)]
pub struct ImmutableMemtable {
    epoch: HummockEpoch,
    table_id: TableId,
    entries: Vec<Entry>,
    size: usize,
}

impl View for ImmutableMemtable {
    type V = Map<Seq<u8>, ValueView>;

    /// The writes of the batch: each key with its value.
    closed spec fn view(&self) -> Map<Seq<u8>, ValueView> {
        entries_map(self.entries@)
    }
}

impl ImmutableMemtable {
    #[verifier::type_invariant]
    spec fn inv(&self) -> bool {
        &&& sorted_by_key(self.entries@)
        &&& self.size == entries_size(self.entries@)
    }

    /// The epoch all writes of the batch carry.
    pub closed spec fn spec_epoch(&self) -> HummockEpoch {
        self.epoch
    }

    /// The table the batch was written to.
    pub closed spec fn spec_table_id(&self) -> TableId {
        self.table_id
    }

    /// The bytes the batch is accounted with.
    pub closed spec fn spec_size(&self) -> usize {
        self.size
    }

    /// The entries in key order.
    pub closed spec fn spec_entries(&self) -> Seq<Entry> {
        self.entries@
    }

    /// Builds the memtable of a write batch. Within the batch the last write
    /// to a key wins. `None` when the batch is too large to be accounted in
    /// `usize`.
    pub fn build(
        items: Vec<(Vec<u8>, HummockValue)>,
        epoch: HummockEpoch,
        table_id: TableId,
    ) -> (built: Option<ImmutableMemtable>)
        ensures
            match built {
                Some(imm) => {
                    &&& imm.spec_epoch() == epoch
                    &&& imm.spec_table_id() == table_id
                    &&& imm@ == batch_map(items@)
                    &&& imm.spec_size() == entries_size(imm.spec_entries())
                },
                None => exists|entries: Seq<Entry>|
                    sorted_by_key(entries) && entries_map(entries) == batch_map(items@)
                        && entries_size(entries) > usize::MAX,
            },
    {
        let mut entries: Vec<Entry> = Vec::new();
        let ghost all = items@;
        let mut i: usize = 0;
        assert(entries_map(entries@) =~= batch_map(all.take(0)));
        while i < items.len()
            invariant
                i <= items.len(),
                items@ == all,
                sorted_by_key(entries@),
                entries_map(entries@) == batch_map(all.take(i as int)),
            decreases items.len() - i,
        {
            let key = copy_bytes(&items[i].0);
            let value = items[i].1.copy();
            proof {
                assert(all.take(i + 1).drop_last() =~= all.take(i as int));
            }
            upsert(&mut entries, Entry { key, value });
            i = i + 1;
        }
        assert(all.take(all.len() as int) =~= all);
        match total_size(&entries) {
            Some(size) => Some(ImmutableMemtable { epoch, table_id, entries, size }),
            None => None,
        }
    }

    #[verifier::when_used_as_spec(spec_epoch)]
    pub fn epoch(&self) -> (epoch: HummockEpoch)
        ensures
            epoch == self.spec_epoch(),
    {
        self.epoch
    }

    #[verifier::when_used_as_spec(spec_table_id)]
    pub fn table_id(&self) -> (table_id: TableId)
        ensures
            table_id == self.spec_table_id(),
    {
        self.table_id
    }

    #[verifier::when_used_as_spec(spec_size)]
    pub fn size(&self) -> (size: usize)
        ensures
            size == self.spec_size(),
    {
        self.size
    }

    /// The entries in key order.
    pub fn entries(&self) -> (entries: &Vec<Entry>)
        ensures
            entries@ == self.spec_entries(),
            sorted_by_key(entries@),
            entries_map(entries@) == self@,
    {
        proof {
            use_type_invariant(self);
        }
        &self.entries
    }

    /// What the batch wrote under `key`, if anything.
    pub fn get(&self, key: &Vec<u8>) -> (found: Option<HummockValue>)
        ensures
            match found {
                Some(value) => self@.contains_key(key@) && self@[key@] == value@,
                None => !self@.contains_key(key@),
            },
    {
        proof {
            use_type_invariant(self);
        }
        let (found, index) = search(&self.entries, key);
        if found {
            proof {
                lemma_sorted_position(self.entries@, index as int);
            }
            Some(self.entries[index].value.copy())
        } else {
            proof {
                lemma_not_found(self.entries@, key@, index as int);
            }
            None
        }
    }
}

} // verus!
