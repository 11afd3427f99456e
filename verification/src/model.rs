//! The mathematical model of a table: a finite map from keys to statistics,
//! what recording a row and merging two tables do to it, and how it relates
//! to a list of its entries.

use vstd::prelude::*;
use crate::sample::{lemma_merge_associative, lemma_merge_wf, SampleView};

verus! {

/// What a table holds: for each key seen, the statistic of its values.
pub type TableView = Map<Seq<u8>, SampleView>;

/// One key with its statistic.
pub type Entry = (Seq<u8>, SampleView);

/// Every key of a table has a well-formed statistic of at least one value,
/// and the keys are finitely many.
pub open spec fn table_wf(m: TableView) -> bool {
    &&& m.dom().finite()
    &&& forall|k: Seq<u8>| #[trigger] m.contains_key(k) ==> m[k].wf() && m[k].count > 0
}

/// The table after the statistic `s` was merged into the entry of `key`,
/// which is created if the table had none.
pub open spec fn merge_entry(m: TableView, key: Seq<u8>, s: SampleView) -> TableView {
    if m.contains_key(key) {
        m.insert(key, m[key].merge(s))
    } else {
        m.insert(key, s)
    }
}

/// The table after one row with `key` and `value` was recorded.
pub open spec fn record(m: TableView, key: Seq<u8>, value: int) -> TableView {
    merge_entry(m, key, SampleView::single(value))
}

/// The table that holds, for every key of `a` or `b`, the merge of what
/// the two hold for it.
pub open spec fn merge_tables(a: TableView, b: TableView) -> TableView {
    Map::new(
        |k: Seq<u8>| a.contains_key(k) || b.contains_key(k),
        |k: Seq<u8>|
            if a.contains_key(k) && b.contains_key(k) {
                a[k].merge(b[k])
            } else if a.contains_key(k) {
                a[k]
            } else {
                b[k]
            },
    )
}

/// The number of values that went into a table: the sum of its counts.
pub open spec fn total_count(m: TableView) -> nat
    decreases m.dom().len(),
    when m.dom().finite()
{
    if m.dom().len() == 0 {
        0
    } else {
        let k = m.dom().choose();
        m[k].count + total_count(m.remove(k))
    }
}

/// The total splits into any one entry and the rest.
pub proof fn lemma_total_count_remove(m: TableView, key: Seq<u8>)
    requires
        m.dom().finite(),
        m.contains_key(key),
    ensures
        total_count(m) == m[key].count + total_count(m.remove(key)),
    decreases m.dom().len(),
{
    let c = m.dom().choose();
    if m.dom().len() == 0 {
        assert(m.dom() =~= Set::empty());
    }
    if c != key {
        lemma_total_count_remove(m.remove(c), key);
        lemma_total_count_remove(m.remove(key), c);
        assert(m.remove(c).remove(key) =~= m.remove(key).remove(c));
    }
}

/// The total after an entry was set.
pub proof fn lemma_total_count_insert(m: TableView, key: Seq<u8>, s: SampleView)
    requires
        m.dom().finite(),
    ensures
        total_count(m.insert(key, s)) == s.count + total_count(m.remove(key)),
        !m.contains_key(key) ==> total_count(m.insert(key, s)) == s.count + total_count(m),
{
    lemma_total_count_remove(m.insert(key, s), key);
    assert(m.insert(key, s).remove(key) =~= m.remove(key));
    if !m.contains_key(key) {
        assert(m.remove(key) =~= m);
    }
}

/// The empty table holds no value.
pub proof fn lemma_total_count_empty()
    ensures
        total_count(Map::<Seq<u8>, SampleView>::empty()) == 0,
        table_wf(Map::<Seq<u8>, SampleView>::empty()),
{
}

/// Merging a statistic into a table adds its count to the total, and keeps
/// the table well formed.
pub proof fn lemma_merge_entry(m: TableView, key: Seq<u8>, s: SampleView)
    requires
        table_wf(m),
        s.wf(),
        s.count > 0,
    ensures
        table_wf(merge_entry(m, key, s)),
        total_count(merge_entry(m, key, s)) == total_count(m) + s.count,
        m.contains_key(key) ==> m[key].count <= total_count(m),
{
    if m.contains_key(key) {
        lemma_merge_wf(m[key], s);
        lemma_total_count_remove(m, key);
        lemma_total_count_insert(m, key, m[key].merge(s));
    } else {
        lemma_total_count_insert(m, key, s);
    }
}

/// Merging two tables gives the same as merging them the other way round.
pub proof fn lemma_merge_tables_commutative(a: TableView, b: TableView)
    ensures
        merge_tables(a, b) == merge_tables(b, a),
{
    assert(merge_tables(a, b) =~= merge_tables(b, a));
}

/// Merging three tables gives the same however they are grouped.
pub proof fn lemma_merge_tables_associative(a: TableView, b: TableView, c: TableView)
    ensures
        merge_tables(merge_tables(a, b), c) == merge_tables(a, merge_tables(b, c)),
{
    let l = merge_tables(merge_tables(a, b), c);
    let r = merge_tables(a, merge_tables(b, c));
    assert forall|k: Seq<u8>| l.contains_key(k) implies l[k] == r[k] by {
        if a.contains_key(k) && b.contains_key(k) && c.contains_key(k) {
            lemma_merge_associative(a[k], b[k], c[k]);
        }
    }
    assert(l =~= r);
}

/// The empty table is neutral for merging.
pub proof fn lemma_merge_tables_empty(a: TableView)
    ensures
        merge_tables(a, Map::empty()) == a,
        merge_tables(Map::empty(), a) == a,
{
    assert(merge_tables(a, Map::empty()) =~= a);
    assert(merge_tables(Map::empty(), a) =~= a);
}

/// Merging one statistic into a table is merging a table of that one entry.
pub proof fn lemma_merge_entry_is_merge_tables(m: TableView, key: Seq<u8>, s: SampleView)
    ensures
        merge_entry(m, key, s) == merge_tables(m, Map::<Seq<u8>, SampleView>::empty().insert(key, s)),
{
    assert(merge_entry(m, key, s) =~= merge_tables(
        m,
        Map::<Seq<u8>, SampleView>::empty().insert(key, s),
    ));
}

/// The table that a list of entries writes: each entry sets its key, a
/// later one replacing an earlier one of the same key.
pub open spec fn map_of(list: Seq<Entry>) -> TableView
    decreases list.len(),
{
    if list.len() == 0 {
        Map::empty()
    } else {
        map_of(list.drop_last()).insert(list.last().0, list.last().1)
    }
}

/// No key occurs twice in the list.
pub open spec fn distinct_keys(list: Seq<Entry>) -> bool {
    forall|i: int, j: int| 0 <= i < j < list.len() ==> (#[trigger] list[i]).0 != (#[trigger] list[j]).0
}

/// The sum of the counts of a list of entries.
pub open spec fn list_count(list: Seq<Entry>) -> nat
    decreases list.len(),
{
    if list.len() == 0 {
        0
    } else {
        list_count(list.drop_last()) + list.last().1.count
    }
}

/// The keys of `map_of(list)` are the keys that occur in `list`; where no
/// key occurs twice, each is mapped to the statistic listed with it.
pub proof fn lemma_map_of(list: Seq<Entry>)
    ensures
        map_of(list).dom().finite(),
        forall|k: Seq<u8>| #[trigger]
            map_of(list).contains_key(k) <==> exists|i: int| 0 <= i < list.len() && (#[trigger] list[i]).0 == k,
        distinct_keys(list) ==> forall|i: int|
            0 <= i < list.len() ==> map_of(list)[(#[trigger] list[i]).0] == list[i].1,
    decreases list.len(),
{
    if list.len() > 0 {
        let init = list.drop_last();
        let last = list.last();
        lemma_map_of(init);
        assert forall|k: Seq<u8>| #[trigger] map_of(list).contains_key(k) implies exists|i: int|
            0 <= i < list.len() && (#[trigger] list[i]).0 == k by {
            if k == last.0 {
                assert(list[list.len() - 1].0 == k);
            } else {
                let i = choose|i: int| 0 <= i < init.len() && (#[trigger] init[i]).0 == k;
                assert(list[i].0 == k);
            }
        }
        assert forall|k: Seq<u8>|
            (exists|i: int| 0 <= i < list.len() && (#[trigger] list[i]).0 == k) implies #[trigger] map_of(
            list,
        ).contains_key(k) by {
            let i = choose|i: int| 0 <= i < list.len() && (#[trigger] list[i]).0 == k;
            if i < init.len() {
                assert(init[i].0 == k);
            }
        }
        if distinct_keys(list) {
            assert(distinct_keys(init)) by {
                assert forall|i: int, j: int| 0 <= i < j < init.len() implies (#[trigger] init[i]).0 != (
                #[trigger] init[j]).0 by {
                    assert(init[i] == list[i] && init[j] == list[j]);
                }
            }
            assert forall|i: int| 0 <= i < list.len() implies map_of(list)[(#[trigger] list[i]).0]
                == list[i].1 by {
                if i < init.len() {
                    assert(init[i] == list[i]);
                    assert(list[i].0 != list[list.len() - 1].0);
                }
            }
        }
    }
}

/// A list without a repeated key holds as many values as the table it writes.
pub proof fn lemma_map_of_total(list: Seq<Entry>)
    requires
        distinct_keys(list),
    ensures
        total_count(map_of(list)) == list_count(list),
    decreases list.len(),
{
    if list.len() > 0 {
        let init = list.drop_last();
        let last = list.last();
        assert(distinct_keys(init)) by {
            assert forall|i: int, j: int| 0 <= i < j < init.len() implies (#[trigger] init[i]).0 != (
            #[trigger] init[j]).0 by {
                assert(init[i] == list[i] && init[j] == list[j]);
            }
        }
        lemma_map_of_total(init);
        lemma_map_of(init);
        if map_of(init).contains_key(last.0) {
            let i = choose|i: int| 0 <= i < init.len() && (#[trigger] init[i]).0 == last.0;
            assert(list[i].0 == list[list.len() - 1].0);
        }
        lemma_total_count_insert(map_of(init), last.0, last.1);
    } else {
        lemma_total_count_empty();
    }
}

/// A prefix of a list holds no more values than the list.
pub proof fn lemma_list_count_take(list: Seq<Entry>, n: int)
    requires
        0 <= n <= list.len(),
    ensures
        list_count(list.take(n)) <= list_count(list),
    decreases list.len(),
{
    if n < list.len() {
        let init = list.drop_last();
        lemma_list_count_take(init, n);
        assert(init.take(n) =~= list.take(n));
    } else {
        assert(list.take(n) =~= list);
    }
}

} // verus!
