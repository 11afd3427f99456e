//! The order of the report: keys compared byte by byte, and sorting the
//! entries of a table by key.

use vstd::prelude::*;
use crate::model::{distinct_keys, lemma_map_of, map_of, Entry};
use crate::sample::Sample;
use crate::table::entry_list;

verus! {

/// Whether what `a` holds from index `i` on comes before what `b` holds
/// from index `i` on.
pub open spec fn lex_less_from(a: Seq<u8>, b: Seq<u8>, i: int) -> bool
    decreases a.len() - i,
{
    if i >= b.len() {
        false
    } else if i >= a.len() {
        true
    } else if a[i] != b[i] {
        a[i] < b[i]
    } else {
        lex_less_from(a, b, i + 1)
    }
}

/// Whether `a` comes before `b` in lexicographic order: at the first index
/// where they differ `a` holds the smaller byte, or `a` is a proper prefix
/// of `b`.
pub open spec fn lex_less(a: Seq<u8>, b: Seq<u8>) -> bool {
    lex_less_from(a, b, 0)
}

/// No sequence comes before itself.
pub proof fn lemma_lex_irreflexive(a: Seq<u8>, i: int)
    requires
        0 <= i,
    ensures
        !lex_less_from(a, a, i),
    decreases a.len() - i,
{
    if i < a.len() {
        lemma_lex_irreflexive(a, i + 1);
    }
}

/// The order is transitive.
pub proof fn lemma_lex_transitive(a: Seq<u8>, b: Seq<u8>, c: Seq<u8>, i: int)
    requires
        0 <= i,
        lex_less_from(a, b, i),
        lex_less_from(b, c, i),
    ensures
        lex_less_from(a, c, i),
    decreases a.len() - i,
{
    if i < a.len() && a[i] == b[i] && b[i] == c[i] {
        lemma_lex_transitive(a, b, c, i + 1);
    }
}

/// Of two sequences that agree before `i`, one comes before the other from
/// `i` on, or they are the same.
pub proof fn lemma_lex_total(a: Seq<u8>, b: Seq<u8>, i: int)
    requires
        0 <= i <= a.len(),
        i <= b.len(),
        forall|j: int| 0 <= j < i ==> a[j] == b[j],
    ensures
        lex_less_from(a, b, i) || lex_less_from(b, a, i) || a == b,
    decreases a.len() - i,
{
    if i < a.len() && i < b.len() && a[i] == b[i] {
        lemma_lex_total(a, b, i + 1);
    } else if i >= a.len() && i >= b.len() {
        assert(a =~= b);
    }
}

/// The keys of the list increase strictly.
pub open spec fn strictly_sorted(list: Seq<Entry>) -> bool {
    forall|i: int, j: int|
        0 <= i < j < list.len() ==> lex_less((#[trigger] list[i]).0, (#[trigger] list[j]).0)
}

/// In a list whose keys increase strictly no key occurs twice.
pub proof fn lemma_sorted_distinct(list: Seq<Entry>)
    requires
        strictly_sorted(list),
    ensures
        distinct_keys(list),
{
    assert forall|i: int, j: int| 0 <= i < j < list.len() implies (#[trigger] list[i]).0 != (
    #[trigger] list[j]).0 by {
        lemma_lex_irreflexive(list[i].0, 0);
    }
}

/// Whether `a` comes before `b` in lexicographic order.
pub fn key_less(a: &[u8], b: &[u8]) -> (less: bool)
    ensures
        less == lex_less(a@, b@),
{
    let mut i: usize = 0;
    while i < a.len() && i < b.len() && a[i] == b[i]
        invariant
            i <= a.len(),
            i <= b.len(),
            lex_less(a@, b@) == lex_less_from(a@, b@, i as int),
        decreases a.len() - i,
    {
        i = i + 1;
    }
    if i >= b.len() {
        false
    } else if i >= a.len() {
        true
    } else {
        a[i] < b[i]
    }
}

/// Where `key` belongs among sorted entries: the index before which every
/// key comes before `key`, and from which on none does.
fn insertion_point(sorted: &Vec<(Vec<u8>, Sample)>, key: &[u8]) -> (p: usize)
    requires
        strictly_sorted(entry_list(sorted@)),
    ensures
        p <= sorted@.len(),
        forall|i: int| 0 <= i < p ==> lex_less((#[trigger] entry_list(sorted@)[i]).0, key@),
        forall|i: int|
            p <= i < sorted@.len() ==> !lex_less((#[trigger] entry_list(sorted@)[i]).0, key@),
{
    let ghost list = entry_list(sorted@);
    let mut lo: usize = 0;
    let mut hi: usize = sorted.len();
    while lo < hi
        invariant
            lo <= hi <= sorted@.len(),
            list == entry_list(sorted@),
            strictly_sorted(list),
            forall|i: int| 0 <= i < lo ==> lex_less((#[trigger] list[i]).0, key@),
            forall|i: int| hi <= i < list.len() ==> !lex_less((#[trigger] list[i]).0, key@),
        decreases hi - lo,
    {
        let mid: usize = lo + (hi - lo) / 2;
        assert(list[mid as int].0 == sorted@[mid as int].0@);
        if key_less(sorted[mid].0.as_slice(), key) {
            proof {
                assert forall|i: int| 0 <= i < mid + 1 implies lex_less(
                    (#[trigger] list[i]).0,
                    key@,
                ) by {
                    if i < mid {
                        assert(lex_less(list[i].0, list[mid as int].0));
                        lemma_lex_transitive(list[i].0, list[mid as int].0, key@, 0);
                    }
                }
            }
            lo = mid + 1;
        } else {
            proof {
                assert forall|i: int| mid <= i < list.len() implies !lex_less(
                    (#[trigger] list[i]).0,
                    key@,
                ) by {
                    if i > mid && lex_less(list[i].0, key@) {
                        assert(lex_less(list[mid as int].0, list[i].0));
                        lemma_lex_transitive(list[mid as int].0, list[i].0, key@, 0);
                    }
                }
            }
            hi = mid;
        }
    }
    lo
}

/// Every entry of `a` is an entry of `b`.
pub open spec fn entries_within(a: Seq<Entry>, b: Seq<Entry>) -> bool {
    forall|i: int| 0 <= i < a.len() ==> b.contains(#[trigger] a[i])
}

/// Two lists of the same entries, neither with a repeated key, write the
/// same table.
pub proof fn lemma_same_entries_same_map(a: Seq<Entry>, b: Seq<Entry>)
    requires
        distinct_keys(a),
        distinct_keys(b),
        entries_within(a, b),
        entries_within(b, a),
    ensures
        map_of(a) == map_of(b),
{
    lemma_map_of(a);
    lemma_map_of(b);
    assert forall|k: Seq<u8>| map_of(a).contains_key(k) implies map_of(b).contains_key(k)
        && map_of(b)[k] == map_of(a)[k] by {
        let i = choose|i: int| 0 <= i < a.len() && (#[trigger] a[i]).0 == k;
        assert(b.contains(a[i]));
        let j = choose|j: int| 0 <= j < b.len() && b[j] == a[i];
        assert(b[j].0 == k);
    }
    assert forall|k: Seq<u8>| map_of(b).contains_key(k) implies map_of(a).contains_key(k) by {
        let i = choose|i: int| 0 <= i < b.len() && (#[trigger] b[i]).0 == k;
        assert(a.contains(b[i]));
        let j = choose|j: int| 0 <= j < a.len() && a[j] == b[i];
        assert(a[j].0 == k);
    }
    assert(map_of(a) =~= map_of(b));
}

/// Inserting an entry where its key belongs keeps the keys increasing.
proof fn lemma_insert_keeps_sorted(before: Seq<Entry>, p: int, e: Entry)
    requires
        strictly_sorted(before),
        0 <= p <= before.len(),
        forall|i: int| 0 <= i < p ==> lex_less((#[trigger] before[i]).0, e.0),
        forall|i: int| p <= i < before.len() ==> !lex_less((#[trigger] before[i]).0, e.0),
        forall|i: int| 0 <= i < before.len() ==> (#[trigger] before[i]).0 != e.0,
    ensures
        strictly_sorted(before.insert(p, e)),
{
    let after = before.insert(p, e);
    assert forall|i: int, j: int| 0 <= i < j < after.len() implies lex_less(
        (#[trigger] after[i]).0,
        (#[trigger] after[j]).0,
    ) by {
        if j == p {
            assert(after[i] == before[i]);
        } else if i == p {
            assert(after[j] == before[j - 1]);
            lemma_lex_total(before[j - 1].0, e.0, 0);
        } else {
            let i0 = if i < p { i } else { i - 1 };
            let j0 = if j < p { j } else { j - 1 };
            assert(after[i] == before[i0] && after[j] == before[j0]);
        }
    }
}

/// Inserting an entry into one of two lists of the same entries, and
/// putting it in front of the other, leaves two lists of the same entries.
proof fn lemma_insert_keeps_entries(before: Seq<Entry>, others: Seq<Entry>, p: int, e: Entry)
    requires
        0 <= p <= before.len(),
        entries_within(before, others),
        entries_within(others, before),
    ensures
        entries_within(before.insert(p, e), seq![e] + others),
        entries_within(seq![e] + others, before.insert(p, e)),
{
    let after = before.insert(p, e);
    let all = seq![e] + others;
    assert forall|i: int| 0 <= i < after.len() implies all.contains(#[trigger] after[i]) by {
        if i == p {
            assert(all[0] == after[i]);
        } else {
            let i0 = if i < p { i } else { i - 1 };
            assert(after[i] == before[i0]);
            assert(others.contains(before[i0]));
            let j = choose|j: int| 0 <= j < others.len() && others[j] == before[i0];
            assert(all[j + 1] == after[i]);
        }
    }
    assert forall|i: int| 0 <= i < all.len() implies after.contains(#[trigger] all[i]) by {
        if i == 0 {
            assert(after[p] == all[i]);
        } else {
            assert(all[i] == others[i - 1]);
            assert(before.contains(others[i - 1]));
            let j = choose|j: int| 0 <= j < before.len() && before[j] == others[i - 1];
            let j1 = if j < p { j } else { j + 1 };
            assert(after[j1] == before[j]);
        }
    }
}

/// An entry of a list without repeated key has another key than every
/// entry that comes after it.
proof fn lemma_key_is_new(input: Seq<Entry>, m: int, before: Seq<Entry>)
    requires
        distinct_keys(input),
        0 <= m < input.len(),
        entries_within(before, input.skip(m + 1)),
    ensures
        forall|i: int| 0 <= i < before.len() ==> (#[trigger] before[i]).0 != input[m].0,
{
    let later = input.skip(m + 1);
    assert forall|i: int| 0 <= i < before.len() implies (#[trigger] before[i]).0 != input[m].0 by {
        assert(later.contains(before[i]));
        let j = choose|j: int| 0 <= j < later.len() && later[j] == before[i];
        assert(input[m + 1 + j] == before[i]);
    }
}

/// Sorts entries by key.
pub fn sort_entries(entries: Vec<(Vec<u8>, Sample)>) -> (sorted: Vec<(Vec<u8>, Sample)>)
    requires
        distinct_keys(entry_list(entries@)),
    ensures
        strictly_sorted(entry_list(sorted@)),
        map_of(entry_list(sorted@)) == map_of(entry_list(entries@)),
        sorted@.len() == entries@.len(),
{
    let ghost input = entry_list(entries@);
    let n: usize = entries.len();
    let mut rest = entries;
    let mut sorted: Vec<(Vec<u8>, Sample)> = Vec::new();
    while rest.len() > 0
        invariant
            n == input.len(),
            distinct_keys(input),
            rest@.len() <= n,
            entry_list(rest@) == input.take(rest@.len() as int),
            sorted@.len() == n - rest@.len(),
            strictly_sorted(entry_list(sorted@)),
            entries_within(entry_list(sorted@), input.skip(rest@.len() as int)),
            entries_within(input.skip(rest@.len() as int), entry_list(sorted@)),
        decreases rest@.len(),
    {
        let ghost m = rest@.len() - 1;
        let ghost before = entry_list(sorted@);
        let ghost held = entry_list(rest@);
        let entry = rest.pop().unwrap();
        let ghost e: Entry = (entry.0@, entry.1@);
        proof {
            assert(held[m] == input.take(m + 1)[m]);
            assert(e == input[m]);
            assert(entry_list(rest@) =~= input.take(m));
            lemma_key_is_new(input, m, before);
        }
        let p: usize = insertion_point(&sorted, entry.0.as_slice());
        sorted.insert(p, entry);
        proof {
            assert(entry_list(sorted@) =~= before.insert(p as int, e));
            assert(input.skip(m) =~= seq![e] + input.skip(m + 1));
            lemma_insert_keeps_sorted(before, p as int, e);
            lemma_insert_keeps_entries(before, input.skip(m + 1), p as int, e);
        }
    }
    proof {
        assert(input.skip(0) =~= input);
        lemma_sorted_distinct(entry_list(sorted@));
        lemma_same_entries_same_map(entry_list(sorted@), input);
    }
    sorted
}

} // verus!
