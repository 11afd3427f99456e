//! The row format `key ';' value '\n'`: what a row means, what aggregating
//! a whole input means, and recording one row in a table.

use vstd::prelude::*;
use vstd::slice::slice_subrange;
use crate::bytes::{
    find_byte, first_index, lemma_first_index, lemma_first_index_prefix, NEWLINE, SEPARATOR,
};
use crate::decimal::{parse_decimal, parse_decimal_spec};
use crate::error::ParseError;
use crate::model::{
    lemma_merge_entry, lemma_merge_entry_is_merge_tables, lemma_merge_tables_associative,
    lemma_merge_tables_empty, merge_tables, record, table_wf, total_count, TableView,
};
use crate::sample::SampleView;
use crate::table::{insert_or_update, Table};

verus! {

/// The key and the value of a row (without its newline): the key is what
/// stands before the first `;`, the value what stands after it.
pub open spec fn parse_row(row: Seq<u8>) -> Result<(Seq<u8>, i64), ParseError> {
    let sep = first_index(row, SEPARATOR);
    if sep == row.len() {
        Err(ParseError::MissingSeparator)
    } else {
        match parse_decimal_spec(row.subrange(sep + 1, row.len() as int)) {
            Ok(value) => Ok((row.subrange(0, sep), value)),
            Err(e) => Err(e),
        }
    }
}

/// The table after `row` was recorded in it, or why `row` is rejected.
pub open spec fn with_row(m: TableView, row: Seq<u8>) -> Result<TableView, ParseError> {
    match parse_row(row) {
        Ok(fields) => Ok(record(m, fields.0, fields.1 as int)),
        Err(e) => Err(e),
    }
}

/// The table after every row of `data` was recorded in `m`, in order; the
/// first row that is rejected gives the error. Rows end at a newline; the
/// end of `data` ends a last row that has none.
pub open spec fn aggregate_from(m: TableView, data: Seq<u8>) -> Result<TableView, ParseError>
    decreases data.len(),
{
    if data.len() == 0 {
        Ok(m)
    } else {
        let end = first_index(data, NEWLINE);
        match with_row(m, data.subrange(0, end)) {
            Err(e) => Err(e),
            Ok(next) => if end >= data.len() {
                Ok(next)
            } else {
                proof {
                    lemma_first_index(data, NEWLINE);
                }
                aggregate_from(next, data.subrange(end + 1, data.len() as int))
            },
        }
    }
}

/// The table of a whole input.
pub open spec fn aggregate(data: Seq<u8>) -> Result<TableView, ParseError> {
    aggregate_from(Map::empty(), data)
}

/// The number of rows of `data`, a last row without newline included.
pub open spec fn row_count(data: Seq<u8>) -> nat
    decreases data.len(),
{
    if data.len() == 0 {
        0
    } else {
        let end = first_index(data, NEWLINE);
        if end >= data.len() {
            1
        } else {
            proof {
                lemma_first_index(data, NEWLINE);
            }
            1 + row_count(data.subrange(end + 1, data.len() as int))
        }
    }
}

/// Records the row whose first separator stands at `sep`.
pub(crate) fn record_split_row(table: &mut Table, row: &[u8], sep: usize) -> (r: Result<(), ParseError>)
    requires
        old(table).wf(),
        total_count(old(table)@) < u64::MAX,
        sep == first_index(row@, SEPARATOR),
    ensures
        final(table).wf(),
        match with_row(old(table)@, row@) {
            Ok(m) => r is Ok && final(table)@ == m && total_count(final(table)@) == total_count(
                old(table)@,
            ) + 1,
            Err(e) => r == Err::<(), ParseError>(e) && final(table)@ == old(table)@,
        },
{
    proof {
        lemma_first_index(row@, SEPARATOR);
    }
    if sep >= row.len() {
        return Err(ParseError::MissingSeparator);
    }
    match parse_decimal(slice_subrange(row, sep + 1, row.len())) {
        Ok(value) => {
            insert_or_update(table, slice_subrange(row, 0, sep), value);
            Ok(())
        },
        Err(e) => Err(e),
    }
}

/// Records one row, given without its newline.
pub fn record_row(table: &mut Table, row: &[u8]) -> (r: Result<(), ParseError>)
    requires
        old(table).wf(),
        total_count(old(table)@) < u64::MAX,
    ensures
        final(table).wf(),
        match with_row(old(table)@, row@) {
            Ok(m) => r is Ok && final(table)@ == m && total_count(final(table)@) == total_count(
                old(table)@,
            ) + 1,
            Err(e) => r == Err::<(), ParseError>(e) && final(table)@ == old(table)@,
        },
{
    let sep: usize = find_byte(row, 0, SEPARATOR);
    assert(row@.subrange(0, row@.len() as int) =~= row@);
    record_split_row(table, row, sep)
}

/// Recording a row keeps a table well formed and adds one to its total.
pub proof fn lemma_with_row(m: TableView, row: Seq<u8>)
    requires
        table_wf(m),
    ensures
        with_row(m, row) is Ok ==> table_wf(with_row(m, row).unwrap()) && total_count(
            with_row(m, row).unwrap(),
        ) == total_count(m) + 1,
{
    if let Ok(fields) = parse_row(row) {
        let one = SampleView::single(fields.1 as int);
        assert(1 * (fields.1 as int) == fields.1 as int);
        lemma_merge_entry(m, fields.0, one);
    }
}

/// Every row of the input is counted once: the counts of the table of an
/// input sum up to the number of its rows.
pub proof fn lemma_aggregate_counts_rows(m: TableView, data: Seq<u8>)
    requires
        table_wf(m),
    ensures
        aggregate_from(m, data) is Ok ==> table_wf(aggregate_from(m, data).unwrap()) && total_count(
            aggregate_from(m, data).unwrap(),
        ) == total_count(m) + row_count(data),
    decreases data.len(),
{
    if data.len() > 0 {
        let end = first_index(data, NEWLINE);
        lemma_first_index(data, NEWLINE);
        lemma_with_row(m, data.subrange(0, end));
        if let Ok(next) = with_row(m, data.subrange(0, end)) {
            if end < data.len() {
                lemma_aggregate_counts_rows(next, data.subrange(end + 1, data.len() as int));
            }
        }
    }
}

/// An input holds at most as many rows as bytes.
pub proof fn lemma_row_count_bound(data: Seq<u8>)
    ensures
        row_count(data) <= data.len(),
    decreases data.len(),
{
    if data.len() > 0 {
        let end = first_index(data, NEWLINE);
        lemma_first_index(data, NEWLINE);
        if end < data.len() {
            lemma_row_count_bound(data.subrange(end + 1, data.len() as int));
        }
    }
}

/// Whether `data` ends where a row ends: it is empty or its last byte is a
/// newline.
pub open spec fn newline_aligned(data: Seq<u8>) -> bool {
    data.len() == 0 || data.last() == NEWLINE
}

/// Aggregating `a` and then `b` is aggregating `a + b`, where `a` ends at
/// the end of a row.
pub proof fn lemma_aggregate_continues(m: TableView, a: Seq<u8>, b: Seq<u8>)
    requires
        newline_aligned(a),
    ensures
        aggregate_from(m, a + b) == match aggregate_from(m, a) {
            Ok(next) => aggregate_from(next, b),
            Err(e) => Err(e),
        },
    decreases a.len(),
{
    if a.len() == 0 {
        assert(a + b =~= b);
    } else {
        let end = first_index(a, NEWLINE);
        lemma_first_index(a, NEWLINE);
        assert(end < a.len()) by {
            if end >= a.len() {
                assert(a[a.len() - 1] == NEWLINE);
            }
        }
        lemma_first_index_prefix(a, b, NEWLINE);
        let rest = a.subrange(end + 1, a.len() as int);
        assert((a + b).subrange(0, end) =~= a.subrange(0, end));
        assert((a + b).subrange(end + 1, (a + b).len() as int) =~= rest + b);
        assert(newline_aligned(rest)) by {
            if rest.len() > 0 {
                assert(rest.last() == a.last());
            }
        }
        if let Ok(next) = with_row(m, a.subrange(0, end)) {
            lemma_aggregate_continues(next, rest, b);
            if rest.len() == 0 {
                assert(aggregate_from(next, rest) == Ok::<TableView, ParseError>(next));
            }
        }
    }
}

/// Starting from a table `m` is the same as starting from the empty table
/// and merging the result into `m`.
pub proof fn lemma_aggregate_from_is_merge(m: TableView, data: Seq<u8>)
    ensures
        aggregate_from(m, data) == match aggregate(data) {
            Ok(t) => Ok(merge_tables(m, t)),
            Err(e) => Err(e),
        },
    decreases data.len(),
{
    let empty = Map::<Seq<u8>, SampleView>::empty();
    if data.len() == 0 {
        lemma_merge_tables_empty(m);
    } else {
        let end = first_index(data, NEWLINE);
        lemma_first_index(data, NEWLINE);
        let row = data.subrange(0, end);
        if let Ok(fields) = parse_row(row) {
            let one = empty.insert(fields.0, SampleView::single(fields.1 as int));
            lemma_merge_entry_is_merge_tables(m, fields.0, SampleView::single(fields.1 as int));
            lemma_merge_entry_is_merge_tables(empty, fields.0, SampleView::single(fields.1 as int));
            lemma_merge_tables_empty(one);
            let next = with_row(m, row).unwrap();
            let first = with_row(empty, row).unwrap();
            assert(first == one);
            assert(next == merge_tables(m, one));
            if end < data.len() {
                let rest = data.subrange(end + 1, data.len() as int);
                lemma_aggregate_from_is_merge(next, rest);
                lemma_aggregate_from_is_merge(first, rest);
                if let Ok(t) = aggregate(rest) {
                    lemma_merge_tables_associative(m, one, t);
                }
            } else {
                lemma_merge_tables_empty(next);
            }
        }
    }
}

/// Splitting an input where a row ends, aggregating the two parts apart and
/// merging the two tables gives the table of the whole input; the first
/// part that is rejected gives the error of the whole.
pub proof fn lemma_partitioned_aggregate(a: Seq<u8>, b: Seq<u8>)
    requires
        newline_aligned(a),
    ensures
        aggregate(a + b) == match aggregate(a) {
            Err(e) => Err(e),
            Ok(ta) => match aggregate(b) {
                Err(e) => Err(e),
                Ok(tb) => Ok(merge_tables(ta, tb)),
            },
        },
{
    lemma_aggregate_continues(Map::empty(), a, b);
    if let Ok(ta) = aggregate(a) {
        lemma_aggregate_from_is_merge(ta, b);
    }
}

/// The tables of the parts of an input, merged in order; the first part
/// that is rejected gives the error.
pub open spec fn merge_partials(parts: Seq<Seq<u8>>) -> Result<TableView, ParseError>
    decreases parts.len(),
{
    if parts.len() == 0 {
        Ok(Map::empty())
    } else {
        match aggregate(parts.first()) {
            Err(e) => Err(e),
            Ok(t) => match merge_partials(parts.drop_first()) {
                Err(e) => Err(e),
                Ok(rest) => Ok(merge_tables(t, rest)),
            },
        }
    }
}

/// Whether no part cuts a row in two: each part ends where a row ends,
/// unless nothing comes after it.
pub open spec fn whole_rows(parts: Seq<Seq<u8>>) -> bool {
    forall|i: int|
        0 <= i < parts.len() - 1 ==> newline_aligned(#[trigger] parts[i]) || nothing_after(parts, i)
}

/// Whether the parts after the `i`-th are all empty.
pub open spec fn nothing_after(parts: Seq<Seq<u8>>, i: int) -> bool {
    forall|j: int| i < j < parts.len() ==> (#[trigger] parts[j]).len() == 0
}

/// Parts that are all empty hold no row.
pub proof fn lemma_empty_parts(parts: Seq<Seq<u8>>)
    requires
        nothing_after(parts, -1),
    ensures
        parts.flatten() == Seq::<u8>::empty(),
        merge_partials(parts) == Ok::<TableView, ParseError>(Map::empty()),
    decreases parts.len(),
{
    if parts.len() > 0 {
        let tail = parts.drop_first();
        assert(parts[0].len() == 0);
        assert forall|j: int| -1 < j < tail.len() implies (#[trigger] tail[j]).len() == 0 by {
            assert(tail[j] == parts[j + 1]);
        }
        lemma_empty_parts(tail);
        lemma_merge_tables_empty(Map::empty());
        assert(parts.flatten() =~= Seq::<u8>::empty());
    }
}

/// However an input is cut into parts of whole rows, aggregating each part
/// apart and merging the tables gives the table of the whole; the first
/// part that is rejected gives the error.
pub proof fn lemma_partitions_do_not_matter(parts: Seq<Seq<u8>>)
    requires
        whole_rows(parts),
    ensures
        aggregate(parts.flatten()) == merge_partials(parts),
    decreases parts.len(),
{
    if parts.len() > 0 {
        let head = parts.first();
        let tail = parts.drop_first();
        assert forall|i: int| 0 <= i < tail.len() - 1 implies newline_aligned(#[trigger] tail[i])
            || nothing_after(tail, i) by {
            assert(tail[i] == parts[i + 1]);
            if nothing_after(parts, i + 1) {
                assert forall|j: int| i < j < tail.len() implies (#[trigger] tail[j]).len() == 0 by {
                    assert(tail[j] == parts[j + 1]);
                }
            }
        }
        lemma_partitions_do_not_matter(tail);
        if parts.len() == 1 || !newline_aligned(head) {
            assert forall|j: int| -1 < j < tail.len() implies (#[trigger] tail[j]).len() == 0 by {
                assert(tail[j] == parts[j + 1]);
            }
            lemma_empty_parts(tail);
            assert(parts.flatten() =~= head);
            if let Ok(t) = aggregate(head) {
                lemma_merge_tables_empty(t);
            }
        } else {
            lemma_partitioned_aggregate(head, tail.flatten());
        }
    }
}

} // verus!
