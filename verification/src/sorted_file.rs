//! What an upload makes of memtables: a sorted file that holds them as its
//! runs and covers their keys.

use vstd::prelude::*;
use std::sync::Arc;
use crate::key::{compare_keys, key_le, key_lt, lemma_key_le_transitive, KeyOrder};
use crate::memtable::{
    copy_bytes, entries_map, has_key, sorted_by_key, Entry, ImmutableMemtable,
};
use crate::read_version::{imms_descend, stage_memtable, staged_order};
use crate::shared::share;
use crate::version::{KeyRange, SstableInfo};

verus! {

/// The file may hold every key that its runs hold: its key range covers
/// them, or it has none.
pub open spec fn file_covers(file: SstableInfo) -> bool {
    file.key_range matches Some(range) ==> forall|i: int, key: Seq<u8>|
        0 <= i < file.batches@.len() && #[trigger] file.batches@[i]@.contains_key(key)
            ==> range.spec_contains(key)
}

/// `range` covers every key of `batches`.
pub open spec fn range_covers(range: KeyRange, batches: Seq<Arc<ImmutableMemtable>>) -> bool {
    forall|i: int, key: Seq<u8>|
        0 <= i < batches.len() && #[trigger] batches[i]@.contains_key(key) ==> range.spec_contains(key)
}

/// The first key of sorted entries comes before all others, and the last
/// behind.
proof fn lemma_ends_of_sorted(entries: Seq<Entry>, key: Seq<u8>)
    requires
        sorted_by_key(entries),
        has_key(entries, key),
    ensures
        entries.len() > 0,
        key_le(entries[0].key@, key),
        key_le(key, entries[entries.len() - 1].key@),
{
    let i = choose|i: int| 0 <= i < entries.len() && (#[trigger] entries[i]).key@ == key;
    if 0 < i {
        assert(key_lt(entries[0].key@, entries[i].key@));
    }
    if i < entries.len() - 1 {
        assert(key_lt(entries[i].key@, entries[entries.len() - 1].key@));
    }
}

/// The smallest range that covers every key of `batches`; from the empty
/// key to the empty key where they hold none.
pub fn key_span(batches: &Vec<Arc<ImmutableMemtable>>) -> (range: KeyRange)
    ensures
        range_covers(range, batches@),
{
    let mut left: Vec<u8> = Vec::new();
    let mut right: Vec<u8> = Vec::new();
    let mut found = false;
    let mut i: usize = 0;
    while i < batches.len()
        invariant
            i <= batches.len(),
            forall|b: int, key: Seq<u8>|
                0 <= b < i && #[trigger] batches@[b]@.contains_key(key) ==> found && key_le(left@, key)
                    && key_le(key, right@),
        decreases batches.len() - i,
    {
        let entries = batches[i].entries();
        let ghost old_left = left@;
        let ghost old_right = right@;
        let ghost had = found;
        if entries.len() > 0 {
            let first = &entries[0].key;
            let last = &entries[entries.len() - 1].key;
            if !found || matches!(compare_keys(first, &left), KeyOrder::Less) {
                left = copy_bytes(first);
            }
            if !found || matches!(compare_keys(last, &right), KeyOrder::Greater) {
                right = copy_bytes(last);
            }
            found = true;
        }
        proof {
            assert forall|b: int, key: Seq<u8>|
                0 <= b < i + 1 && #[trigger] batches@[b]@.contains_key(key) implies found && key_le(
                left@,
                key,
            ) && key_le(key, right@) by {
                if b < i {
                    assert(had && key_le(old_left, key) && key_le(key, old_right));
                    assert(key_le(left@, old_left));
                    assert(key_le(old_right, right@));
                    lemma_key_le_transitive(left@, old_left, key);
                    lemma_key_le_transitive(key, old_right, right@);
                } else {
                    assert(entries_map(entries@).contains_key(key));
                    assert(has_key(entries@, key));
                    lemma_ends_of_sorted(entries@, key);
                    let first = entries@[0].key@;
                    let last = entries@[entries@.len() - 1].key@;
                    assert(key_le(left@, first));
                    assert(key_le(last, right@));
                    lemma_key_le_transitive(left@, first, key);
                    lemma_key_le_transitive(key, last, right@);
                }
            }
        }
        i = i + 1;
    }
    KeyRange { left, right }
}

impl SstableInfo {
    /// The sorted file with the id `id` that holds `payload`: its runs are
    /// the memtables, newest epoch first, and among those of one epoch the
    /// later of `payload` first; its key range covers their keys.
    pub fn from_memtables(id: u64, payload: &Vec<Arc<ImmutableMemtable>>) -> (file: SstableInfo)
        ensures
            file.id == id,
            file.batches@ == staged_order(payload@),
            imms_descend(file.batches@),
            file.key_range is Some,
            file_covers(file),
    {
        let mut batches: Vec<Arc<ImmutableMemtable>> = Vec::new();
        let mut i: usize = 0;
        proof {
            assert(payload@.take(0) =~= Seq::<Arc<ImmutableMemtable>>::empty());
        }
        while i < payload.len()
            invariant
                i <= payload.len(),
                batches@ == staged_order(payload@.take(i as int)),
                imms_descend(batches@),
            decreases payload.len() - i,
        {
            proof {
                assert(payload@.take(i + 1).drop_last() =~= payload@.take(i as int));
            }
            stage_memtable(&mut batches, share(&payload[i]));
            i = i + 1;
        }
        proof {
            assert(payload@.take(payload.len() as int) =~= payload@);
        }
        let range = key_span(&batches);
        SstableInfo { id, key_range: Some(range), batches }
    }
}

} // verus!
