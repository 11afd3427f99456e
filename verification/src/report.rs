//! The report: every key of a table with its minimum, mean and maximum to
//! one decimal place, in the order of the keys.

use vstd::prelude::*;
use crate::bytes::{
    CLOSE_BRACE, COMMA, DIGIT_ZERO, EQUALS, MINUS, NEWLINE, OPEN_BRACE, POINT, SLASH, SPACE,
};
use crate::decimal::{tenths_of, to_tenths};
use crate::model::{lemma_map_of, map_of, Entry, TableView};
use crate::order::{
    lemma_lex_irreflexive, lemma_lex_transitive, lemma_sorted_distinct, sort_entries,
    strictly_sorted,
};
use crate::sample::Sample;
use crate::table::{entry_list, Table};

verus! {

/// The byte that writes the digit `d`.
pub open spec fn digit_byte(d: int) -> u8 {
    (DIGIT_ZERO + d) as u8
}

/// `n` written in base ten, without leading zeros.
pub open spec fn nat_text(n: nat) -> Seq<u8>
    decreases n,
{
    if n < 10 {
        seq![digit_byte(n as int)]
    } else {
        nat_text(n / 10).push(digit_byte((n % 10) as int))
    }
}

/// A number of tenths written with one digit after the point: `-12.3` for
/// -123, `0.0` for 0.
pub open spec fn tenths_text(t: int) -> Seq<u8> {
    let m = if t < 0 { -t } else { t };
    let body = nat_text((m / 10) as nat) + seq![POINT, digit_byte(m % 10)];
    if t < 0 {
        seq![MINUS] + body
    } else {
        body
    }
}

/// One entry of the report: `key=min/mean/max`.
pub open spec fn entry_text(e: Entry) -> Seq<u8> {
    e.0 + seq![EQUALS] + tenths_text(tenths_of(e.1.min)) + seq![SLASH] + tenths_text(
        e.1.mean_tenths(),
    ) + seq![SLASH] + tenths_text(tenths_of(e.1.max))
}

/// The entries of the report, parted by `", "`.
pub open spec fn entries_text(list: Seq<Entry>) -> Seq<u8>
    decreases list.len(),
{
    if list.len() == 0 {
        Seq::empty()
    } else if list.len() == 1 {
        entry_text(list[0])
    } else {
        entries_text(list.drop_last()) + seq![COMMA, SPACE] + entry_text(list.last())
    }
}

/// The report of a list of entries: the entries in braces, then a newline.
pub open spec fn render_spec(list: Seq<Entry>) -> Seq<u8> {
    seq![OPEN_BRACE] + entries_text(list) + seq![CLOSE_BRACE, NEWLINE]
}

/// The entries of a table in the order of their keys.
pub open spec fn sorted_list(m: TableView) -> Seq<Entry> {
    choose|list: Seq<Entry>| strictly_sorted(list) && map_of(list) == m
}

/// The report of a table.
pub open spec fn report_spec(m: TableView) -> Seq<u8> {
    render_spec(sorted_list(m))
}

/// A table has one list of its entries in the order of their keys.
pub proof fn lemma_sorted_list_unique(a: Seq<Entry>, b: Seq<Entry>)
    requires
        strictly_sorted(a),
        strictly_sorted(b),
        map_of(a) == map_of(b),
    ensures
        a == b,
    decreases a.len(),
{
    lemma_sorted_distinct(a);
    lemma_sorted_distinct(b);
    lemma_map_of(a);
    lemma_map_of(b);
    if a.len() == 0 {
        if b.len() > 0 {
            assert(map_of(b).contains_key(b[0].0));
        }
        assert(a =~= b);
    } else {
        assert(map_of(a).contains_key(a[0].0));
        let i = choose|i: int| 0 <= i < b.len() && (#[trigger] b[i]).0 == a[0].0;
        let la = a.last();
        let lb = b.last();
        assert(map_of(a).contains_key(la.0));
        assert(map_of(b).contains_key(lb.0));
        let j = choose|j: int| 0 <= j < b.len() && (#[trigger] b[j]).0 == la.0;
        let k = choose|k: int| 0 <= k < a.len() && (#[trigger] a[k]).0 == lb.0;
        if j < b.len() - 1 && k < a.len() - 1 {
            assert(lex_less_pair(b[j], b[b.len() - 1]));
            assert(lex_less_pair(a[k], a[a.len() - 1]));
            lemma_lex_transitive(la.0, lb.0, la.0, 0);
            lemma_lex_irreflexive(la.0, 0);
        } else if j < b.len() - 1 {
            assert(lex_less_pair(b[j], b[b.len() - 1]));
            lemma_lex_irreflexive(la.0, 0);
        } else if k < a.len() - 1 {
            assert(lex_less_pair(a[k], a[a.len() - 1]));
            lemma_lex_irreflexive(la.0, 0);
        }
        assert(la.0 == lb.0);
        assert(map_of(a)[a[a.len() - 1].0] == la.1);
        assert(map_of(b)[b[b.len() - 1].0] == lb.1);
        assert(la == lb);
        let ia = a.drop_last();
        let ib = b.drop_last();
        lemma_drop_last_sorted(a);
        lemma_drop_last_sorted(b);
        assert(map_of(ia) =~= map_of(a).remove(la.0));
        assert(map_of(ib) =~= map_of(b).remove(lb.0));
        lemma_sorted_list_unique(ia, ib);
        assert(a =~= ia.push(la));
        assert(b =~= ib.push(lb));
    }
}

/// Whether the key of `x` comes before the key of `y`.
pub open spec fn lex_less_pair(x: Entry, y: Entry) -> bool {
    crate::order::lex_less(x.0, y.0)
}

/// A sorted list without its last entry is sorted, and does not hold the
/// key of that entry.
pub proof fn lemma_drop_last_sorted(list: Seq<Entry>)
    requires
        strictly_sorted(list),
        list.len() > 0,
    ensures
        strictly_sorted(list.drop_last()),
        !map_of(list.drop_last()).contains_key(list.last().0),
{
    let init = list.drop_last();
    assert forall|i: int, j: int| 0 <= i < j < init.len() implies crate::order::lex_less(
        (#[trigger] init[i]).0,
        (#[trigger] init[j]).0,
    ) by {
        assert(init[i] == list[i] && init[j] == list[j]);
    }
    lemma_map_of(init);
    if map_of(init).contains_key(list.last().0) {
        let i = choose|i: int| 0 <= i < init.len() && (#[trigger] init[i]).0 == list.last().0;
        assert(lex_less_pair(list[i], list[list.len() - 1]));
        lemma_lex_irreflexive(list.last().0, 0);
    }
}

/// Writes `n` in base ten at the end of `out`.
pub fn push_nat(out: &mut Vec<u8>, n: u64)
    ensures
        final(out)@ == old(out)@ + nat_text(n as nat),
    decreases n,
{
    if n >= 10 {
        push_nat(out, n / 10);
    }
    out.push(DIGIT_ZERO + (n % 10) as u8);
    assert(out@ =~= old(out)@ + nat_text(n as nat));
}

/// Writes a number of tenths, with one digit after the point, at the end
/// of `out`.
pub fn push_tenths(out: &mut Vec<u8>, tenths: i64)
    ensures
        final(out)@ == old(out)@ + tenths_text(tenths as int),
{
    let negative: bool = tenths < 0;
    let m: u64 = if negative { (-(tenths as i128)) as u64 } else { tenths as u64 };
    if negative {
        out.push(MINUS);
    }
    push_nat(out, m / 10);
    out.push(POINT);
    out.push(DIGIT_ZERO + (m % 10) as u8);
    proof {
        assert(out@ =~= old(out)@ + tenths_text(tenths as int));
    }
}

/// Writes one entry of the report at the end of `out`.
pub fn push_entry(out: &mut Vec<u8>, key: &[u8], sample: &Sample)
    requires
        sample.wf(),
        sample@.count > 0,
    ensures
        final(out)@ == old(out)@ + entry_text((key@, sample@)),
{
    out.extend_from_slice(key);
    assert(out@ =~= old(out)@ + key@);
    out.push(EQUALS);
    push_tenths(out, to_tenths(sample.min()));
    out.push(SLASH);
    push_tenths(out, sample.mean_tenths());
    out.push(SLASH);
    push_tenths(out, to_tenths(sample.max()));
    proof {
        assert(out@ =~= old(out)@ + entry_text((key@, sample@)));
    }
}

/// The report of a list of entries, in the order of the list.
pub fn render(entries: &Vec<(Vec<u8>, Sample)>) -> (text: Vec<u8>)
    requires
        forall|i: int|
            0 <= i < entries@.len() ==> (#[trigger] entries@[i]).1.wf() && entries@[i].1@.count > 0,
    ensures
        text@ == render_spec(entry_list(entries@)),
{
    let ghost list = entry_list(entries@);
    let mut text: Vec<u8> = Vec::new();
    text.push(OPEN_BRACE);
    let n: usize = entries.len();
    let mut i: usize = 0;
    assert(list.take(0) =~= Seq::<Entry>::empty());
    while i < n
        invariant
            n == entries@.len(),
            i <= n,
            list == entry_list(entries@),
            forall|i: int|
                0 <= i < entries@.len() ==> (#[trigger] entries@[i]).1.wf() && entries@[i].1@.count
                    > 0,
            text@ == seq![OPEN_BRACE] + entries_text(list.take(i as int)),
        decreases n - i,
    {
        let ghost done = list.take(i as int);
        let ghost next = list.take(i + 1);
        if i > 0 {
            text.push(COMMA);
            text.push(SPACE);
        }
        push_entry(&mut text, entries[i].0.as_slice(), &entries[i].1);
        proof {
            assert(next.drop_last() =~= done);
            assert(next.last() == (entries@[i as int].0@, entries@[i as int].1@));
            if i == 0 {
                assert(done =~= Seq::<Entry>::empty());
                assert(entries_text(done) =~= Seq::<u8>::empty());
                assert(next[0] == next.last());
            }
            assert(text@ =~= seq![OPEN_BRACE] + entries_text(next));
        }
        i = i + 1;
    }
    text.push(CLOSE_BRACE);
    text.push(NEWLINE);
    proof {
        assert(list.take(n as int) =~= list);
        assert(text@ =~= render_spec(list));
    }
    text
}

/// The entries of a table in the order of their keys: the keys increase
/// strictly, so every key of the table comes exactly once.
pub fn sorted_entries(table: &Table) -> (entries: Vec<(Vec<u8>, Sample)>)
    requires
        table.wf(),
    ensures
        strictly_sorted(entry_list(entries@)),
        map_of(entry_list(entries@)) == table@,
        entry_list(entries@) == sorted_list(table@),
        forall|k: Seq<u8>| #[trigger]
            table@.contains_key(k) <==> exists|i: int|
                0 <= i < entries@.len() && (#[trigger] entries@[i]).0@ == k,
        forall|i: int|
            0 <= i < entries@.len() ==> (#[trigger] entries@[i]).1.wf() && entries@[i].1@.count > 0,
{
    let entries = sort_entries(table.entries());
    proof {
        let list = entry_list(entries@);
        lemma_sorted_list_unique(list, sorted_list(table@));
        lemma_sorted_distinct(list);
        lemma_map_of(list);
        assert forall|k: Seq<u8>| #[trigger] table@.contains_key(k) implies exists|i: int|
            0 <= i < entries@.len() && (#[trigger] entries@[i]).0@ == k by {
            let i = choose|i: int| 0 <= i < list.len() && (#[trigger] list[i]).0 == k;
            assert(entries@[i].0@ == k);
        }
        assert forall|k: Seq<u8>|
            (exists|i: int| 0 <= i < entries@.len() && (#[trigger] entries@[i]).0@ == k) implies #[trigger] table@.contains_key(
            k,
        ) by {
            let i = choose|i: int| 0 <= i < entries@.len() && (#[trigger] entries@[i]).0@ == k;
            assert(list[i].0 == k);
        }
        assert forall|i: int| 0 <= i < entries@.len() implies (#[trigger] entries@[i]).1.wf()
            && entries@[i].1@.count > 0 by {
            assert(table@.contains_key(list[i].0));
            assert(table@[list[i].0] == list[i].1);
        }
    }
    entries
}

/// The report of a table: `{key=min/mean/max, ...}` and a newline, the keys
/// in increasing order, each number rounded to one decimal place.
pub fn report(table: &Table) -> (text: Vec<u8>)
    requires
        table.wf(),
    ensures
        text@ == report_spec(table@),
{
    let entries = sorted_entries(table);
    render(&entries)
}

} // verus!
