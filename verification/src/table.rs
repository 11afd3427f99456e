//! The table of one worker: a hash map from key to statistic, hashed with Fx.
//!
//! The map itself is `std`'s, with the hasher of `rustc_hash`. What its
//! methods do is not proved here but stated, in the contracts of the small
//! functions at the head of this file, over [`fx_entries`]: the map as a
//! mathematical map from byte sequences to samples. Everything else in this
//! file is proved from those statements.

use std::collections::HashMap;
use rustc_hash::FxBuildHasher;
use vstd::prelude::*;
use vstd::slice::slice_to_vec;
use crate::model::{
    distinct_keys, lemma_list_count_take, lemma_map_of, lemma_map_of_total, lemma_merge_entry,
    lemma_merge_tables_empty, lemma_total_count_empty, list_count, map_of, merge_entry,
    merge_tables, record, table_wf, total_count, Entry, TableView,
};
use crate::sample::{Sample, SampleView};

verus! {

/// `rustc_hash::FxBuildHasher`, the builder of Fx hashers. Opaque: it is
/// only handed to the hash map.
#[verifier::external_type_specification]
#[verifier::external_body]
pub struct ExFxBuildHasher(rustc_hash::FxBuildHasher);

/// What an Fx-hashed map from keys to samples holds, keys taken by their
/// bytes. `Vec<u8>` hashes and compares by its bytes and the Fx hasher is a
/// function of the bytes written to it, so two keys with the same bytes are
/// one key of the map.
pub uninterp spec fn fx_entries(map: HashMap<Vec<u8>, Sample, FxBuildHasher>) -> Map<Seq<u8>, Sample>;

/// The number of keys for which a new table reserves room.
pub const INITIAL_CAPACITY: usize = 1000;

/// The largest capacity that a new map is asked to reserve.
pub const MAX_RESERVED: usize = 65_536;

/// `HashMap::with_capacity_and_hasher` with an `FxBuildHasher`: an empty
/// map. The capacity is bounded so that the reservation is small.
#[verifier::external_body]
fn fx_with_capacity(capacity: usize) -> (fresh: HashMap<Vec<u8>, Sample, FxBuildHasher>)
    requires
        capacity <= MAX_RESERVED,
    ensures
        forall|key: Seq<u8>| !fx_entries(fresh).contains_key(key),
{
    HashMap::with_capacity_and_hasher(capacity, FxBuildHasher)
}

/// `HashMap::get`, by the bytes of the key: a copy of the sample that the
/// map holds for them, if it holds one.
#[verifier::external_body]
fn fx_get(map: &HashMap<Vec<u8>, Sample, FxBuildHasher>, key: &[u8]) -> (found: Option<Sample>)
    ensures
        found == if fx_entries(*map).contains_key(key@) {
            Some(fx_entries(*map)[key@])
        } else {
            None
        },
{
    map.get(key).copied()
}

/// `HashMap::get_mut`, by the bytes of the key: the place of the sample
/// that the map holds for them, if it holds one. What is written to that
/// place is what the map holds afterwards; nothing else changes.
#[verifier::external_body]
fn fx_get_mut<'a>(map: &'a mut HashMap<Vec<u8>, Sample, FxBuildHasher>, key: &[u8]) -> (slot: Option<
    &'a mut Sample,
>)
    ensures
        slot.is_some() == fx_entries(*old(map)).contains_key(key@),
        slot.is_some() ==> *slot.unwrap() == fx_entries(*old(map))[key@] && fx_entries(*final(map))
            == fx_entries(*old(map)).insert(key@, *final(slot.unwrap())),
        slot.is_none() ==> fx_entries(*final(map)) == fx_entries(*old(map)),
{
    map.get_mut(key)
}

/// `HashMap::insert`: afterwards the map holds `value` for the bytes of
/// `key`, and for every other key what it held before.
#[verifier::external_body]
fn fx_insert(map: &mut HashMap<Vec<u8>, Sample, FxBuildHasher>, key: Vec<u8>, value: Sample)
    ensures
        fx_entries(*final(map)) == fx_entries(*old(map)).insert(key@, value),
{
    map.insert(key, value);
}

/// `HashMap::iter`, collected: every entry of the map once, in the order in
/// which the map happens to be walked. No order is promised; what is
/// promised is that no key comes twice, that every pair listed is held by
/// the map, and that every key of the map is listed.
#[verifier::external_body]
fn fx_collect(map: &HashMap<Vec<u8>, Sample, FxBuildHasher>) -> (entries: Vec<(Vec<u8>, Sample)>)
    ensures
        forall|i: int, j: int|
            0 <= i < j < entries@.len() ==> (#[trigger] entries@[i]).0@ != (#[trigger] entries@[j]).0@,
        forall|i: int|
            0 <= i < entries@.len() ==> fx_entries(*map).contains_key((#[trigger] entries@[i]).0@)
                && fx_entries(*map)[entries@[i].0@] == entries@[i].1,
        forall|key: Seq<u8>| #[trigger]
            fx_entries(*map).contains_key(key) ==> exists|i: int|
                0 <= i < entries@.len() && (#[trigger] entries@[i]).0@ == key,
{
    map.iter().map(|(key, sample)| (key.clone(), *sample)).collect()
}

/// The model of a list of entries as it is held in memory.
pub open spec fn entry_list(entries: Seq<(Vec<u8>, Sample)>) -> Seq<Entry> {
    entries.map_values(|e: (Vec<u8>, Sample)| (e.0@, e.1@))
}

/// The model of a map of samples.
pub open spec fn table_view(entries: Map<Seq<u8>, Sample>) -> TableView {
    entries.map_values(|s: Sample| s@)
}

/// A table from key to statistic, owned by one worker while it parses and
/// handed over whole when it is done.
#[derive(Debug)]
pub struct Table {
    map: HashMap<Vec<u8>, Sample, FxBuildHasher>,
    rows: u64,
}

impl View for Table {
    type V = TableView;

    closed spec fn view(&self) -> TableView {
        table_view(fx_entries(self.map))
    }
}

impl Table {
    /// The number of rows recorded, as the table keeps it.
    pub closed spec fn rows_spec(&self) -> u64 {
        self.rows
    }

    /// Well-formedness: the model is well formed, and the number of rows
    /// kept is the sum of the counts.
    pub open spec fn wf(&self) -> bool {
        &&& table_wf(self@)
        &&& total_count(self@) == self.rows_spec()
    }

    /// An empty table.
    pub fn new() -> (table: Table)
        ensures
            table.wf(),
            table@ == Map::<Seq<u8>, SampleView>::empty(),
            total_count(table@) == 0,
    {
        let map = fx_with_capacity(INITIAL_CAPACITY);
        let table = Table { map, rows: 0 };
        proof {
            assert(fx_entries(table.map) =~= Map::<Seq<u8>, Sample>::empty());
            assert(table@ =~= Map::<Seq<u8>, SampleView>::empty());
            lemma_total_count_empty();
        }
        table
    }

    /// The number of rows recorded: the sum of the counts of all keys.
    pub fn rows(&self) -> (n: u64)
        requires
            self.wf(),
        ensures
            n == total_count(self@),
    {
        self.rows
    }

    /// The statistic of `key`, if the table has one.
    pub fn get(&self, key: &[u8]) -> (found: Option<Sample>)
        requires
            self.wf(),
        ensures
            found.is_some() == self@.contains_key(key@),
            found.is_some() ==> found.unwrap()@ == self@[key@] && found.unwrap().wf(),
    {
        let found = fx_get(&self.map, key);
        proof {
            if found.is_some() {
                assert(self@.contains_key(key@));
                assert(self@[key@] == fx_entries(self.map)[key@]@);
            }
        }
        found
    }

    /// Every entry of the table once, in no particular order.
    pub fn entries(&self) -> (entries: Vec<(Vec<u8>, Sample)>)
        requires
            self.wf(),
        ensures
            distinct_keys(entry_list(entries@)),
            map_of(entry_list(entries@)) == self@,
            list_count(entry_list(entries@)) == total_count(self@),
    {
        let entries = fx_collect(&self.map);
        proof {
            let list = entry_list(entries@);
            let held = fx_entries(self.map);
            assert forall|i: int, j: int| 0 <= i < j < list.len() implies (#[trigger] list[i]).0 != (
            #[trigger] list[j]).0 by {
                assert(list[i].0 == entries@[i].0@ && list[j].0 == entries@[j].0@);
            }
            lemma_map_of(list);
            assert forall|k: Seq<u8>| map_of(list).contains_key(k) implies self@.contains_key(k)
                && self@[k] == map_of(list)[k] by {
                let i = choose|i: int| 0 <= i < list.len() && (#[trigger] list[i]).0 == k;
                assert(held.contains_key(entries@[i].0@));
                assert(map_of(list)[list[i].0] == list[i].1);
            }
            assert forall|k: Seq<u8>| self@.contains_key(k) implies map_of(list).contains_key(k) by {
                assert(held.contains_key(k));
                let i = choose|i: int| 0 <= i < entries@.len() && (#[trigger] entries@[i]).0@ == k;
                assert(list[i].0 == k);
            }
            assert(map_of(list) =~= self@);
            lemma_map_of_total(list);
        }
        entries
    }
}

/// Records one row: merges `value` into the statistic of `key`, which is
/// created if the table has none.
pub fn insert_or_update(table: &mut Table, key: &[u8], value: i64)
    requires
        old(table).wf(),
        total_count(old(table)@) < u64::MAX,
    ensures
        final(table).wf(),
        final(table)@ == record(old(table)@, key@, value as int),
        total_count(final(table)@) == total_count(old(table)@) + 1,
{
    proof {
        lemma_merge_entry(table@, key@, SampleView::single(value as int));
    }
    let ghost before = fx_entries(table.map);
    match fx_get_mut(&mut table.map, key) {
        Some(slot) => {
            assert(table_view(before)[key@] == before[key@]@);
            slot.add(value);
        },
        None => {
            fx_insert(&mut table.map, slice_to_vec(key), Sample::single(value));
        },
    }
    table.rows = table.rows + 1;
    proof {
        assert(table@ =~= record(old(table)@, key@, value as int));
    }
}

/// Merges the statistic `sample` into the entry of `key`, which is created
/// if the table has none.
pub fn merge_sample(table: &mut Table, key: &[u8], sample: &Sample)
    requires
        old(table).wf(),
        sample.wf(),
        sample@.count > 0,
        total_count(old(table)@) + sample@.count <= u64::MAX,
    ensures
        final(table).wf(),
        final(table)@ == merge_entry(old(table)@, key@, sample@),
        total_count(final(table)@) == total_count(old(table)@) + sample@.count,
{
    proof {
        lemma_merge_entry(table@, key@, sample@);
    }
    let ghost before = fx_entries(table.map);
    match fx_get_mut(&mut table.map, key) {
        Some(slot) => {
            assert(table_view(before)[key@] == before[key@]@);
            slot.merge(sample);
        },
        None => {
            fx_insert(&mut table.map, slice_to_vec(key), *sample);
        },
    }
    table.rows = table.rows + sample.count();
    proof {
        assert(table@ =~= merge_entry(old(table)@, key@, sample@));
    }
}

/// Folds the table `src` into `dst`: for every key of `src`, its statistic
/// is merged into the entry of `dst` for that key, which is created if
/// `dst` has none. `src` is used up.
pub fn merge_into(dst: &mut Table, src: Table)
    requires
        old(dst).wf(),
        src.wf(),
        total_count(old(dst)@) + total_count(src@) <= u64::MAX,
    ensures
        final(dst).wf(),
        final(dst)@ == merge_tables(old(dst)@, src@),
        total_count(final(dst)@) == total_count(old(dst)@) + total_count(src@),
{
    let entries = src.entries();
    let ghost list = entry_list(entries@);
    let n: usize = entries.len();
    let mut i: usize = 0;
    proof {
        lemma_merge_tables_empty(dst@);
        assert(list.take(0) =~= Seq::<Entry>::empty());
    }
    while i < n
        invariant
            n == entries.len(),
            i <= n,
            list == entry_list(entries@),
            distinct_keys(list),
            map_of(list) == src@,
            table_wf(src@),
            list_count(list) == total_count(src@),
            total_count(old(dst)@) + total_count(src@) <= u64::MAX,
            dst.wf(),
            dst@ == merge_tables(old(dst)@, map_of(list.take(i as int))),
            total_count(dst@) == total_count(old(dst)@) + list_count(list.take(i as int)),
        decreases n - i,
    {
        let ghost done = list.take(i as int);
        let ghost next = list.take(i + 1);
        proof {
            assert(next.drop_last() =~= done);
            assert(next.last() == list[i as int]);
            lemma_list_count_take(list, i + 1);
            lemma_map_of(list);
            lemma_map_of(done);
            assert(src@.contains_key(list[i as int].0));
            if map_of(done).contains_key(list[i as int].0) {
                let j = choose|j: int| 0 <= j < done.len() && (#[trigger] done[j]).0 == list[i as int].0;
                assert(list[j].0 == list[i as int].0);
            }
            assert(merge_entry(dst@, list[i as int].0, list[i as int].1) =~= merge_tables(
                old(dst)@,
                map_of(next),
            ));
        }
        merge_sample(dst, entries[i].0.as_slice(), &entries[i].1);
        i = i + 1;
    }
    proof {
        assert(list.take(n as int) =~= list);
    }
}

} // verus!
