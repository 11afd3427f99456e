//! The reducer: folds the tables of the workers into one, in whatever order
//! they arrive, and fails as a whole if any worker failed.

use vstd::prelude::*;
use vstd::seq_lib::{commutative_foldl, lemma_fold_left_permutation};
use vstd::slice::slice_subrange;
use crate::error::ParseError;
use crate::model::{
    lemma_merge_tables_associative, lemma_merge_tables_commutative, lemma_merge_tables_empty,
    merge_tables, table_wf, total_count, TableView,
};
use crate::partition::{
    is_partitioning, lemma_part_bounds, lemma_partitioning_is_immaterial,
    lemma_partitioning_slices, partition, partition_spec, slices, Partition,
};
use crate::rows::{
    aggregate, lemma_partitions_do_not_matter, lemma_row_count_bound, merge_partials,
    whole_rows,
};
use crate::table::{merge_into, Table};
use crate::tokenizer::{
    lemma_fitting_rows, lemma_pages_do_not_matter, lemma_pages_of_flatten, lemma_rows_fit_parts,
    pages_of, produce_table, rows_fit, tokenize,
};

verus! {

/// The state of a reducer: what was merged so far, how many outcomes are
/// expected and how many have arrived, and the first failure that arrived.
pub struct ReducerView {
    pub merged: TableView,
    pub expected: nat,
    pub received: nat,
    pub failure: Option<ParseError>,
}

impl ReducerView {
    /// The state before any outcome has arrived.
    pub open spec fn initial(expected: nat) -> ReducerView {
        ReducerView { merged: Map::empty(), expected, received: 0, failure: None }
    }

    /// The state after one more outcome. After a failure nothing is merged
    /// any more; the first failure is kept.
    pub open spec fn accept(self, outcome: Result<TableView, ParseError>) -> ReducerView {
        ReducerView {
            merged: match (self.failure, outcome) {
                (None, Ok(table)) => merge_tables(self.merged, table),
                _ => self.merged,
            },
            expected: self.expected,
            received: self.received + 1,
            failure: match (self.failure, outcome) {
                (None, Err(e)) => Some(e),
                _ => self.failure,
            },
        }
    }

    /// Whether every expected outcome has arrived.
    pub open spec fn complete(self) -> bool {
        self.received == self.expected
    }

    /// What the run as a whole gives: the failure if there was one, the
    /// merged table otherwise.
    pub open spec fn result(self) -> Result<TableView, ParseError> {
        match self.failure {
            Some(e) => Err(e),
            None => Ok(self.merged),
        }
    }
}

/// The coordination point that takes the outcome of each worker.
#[derive(Debug)]
pub struct Reducer {
    merged: Table,
    expected: usize,
    received: usize,
    failure: Option<ParseError>,
}

impl View for Reducer {
    type V = ReducerView;

    closed spec fn view(&self) -> ReducerView {
        ReducerView {
            merged: self.merged@,
            expected: self.expected as nat,
            received: self.received as nat,
            failure: self.failure,
        }
    }
}

impl Reducer {
    /// Well-formedness: the merged table is well formed and no more
    /// outcomes have arrived than are expected.
    pub closed spec fn wf(&self) -> bool {
        &&& self.merged.wf()
        &&& self.received <= self.expected
    }

    /// What well-formedness says of the state.
    pub proof fn lemma_wf(&self)
        requires
            self.wf(),
        ensures
            table_wf(self@.merged),
            total_count(self@.merged) <= u64::MAX,
            self@.received <= self@.expected,
    {
    }

    /// A reducer that expects the outcomes of `expected` workers.
    pub fn new(expected: usize) -> (reducer: Reducer)
        ensures
            reducer.wf(),
            reducer@ == ReducerView::initial(expected as nat),
    {
        Reducer { merged: Table::new(), expected, received: 0, failure: None }
    }

    /// Whether every expected outcome has arrived.
    pub fn is_complete(&self) -> (complete: bool)
        ensures
            complete == self@.complete(),
    {
        self.received == self.expected
    }

    /// The number of rows merged so far.
    pub fn rows(&self) -> (n: u64)
        requires
            self.wf(),
        ensures
            n == total_count(self@.merged),
    {
        self.merged.rows()
    }

    /// Whether the rows of `table` can be merged: whether the number of rows
    /// stays within what a row counter holds.
    pub fn fits(&self, table: &Table) -> (ok: bool)
        requires
            self.wf(),
            table.wf(),
        ensures
            ok == (total_count(self@.merged) + total_count(table@) <= u64::MAX),
    {
        table.rows() <= u64::MAX - self.merged.rows()
    }

    /// Takes the outcome of one worker: its table is merged into the
    /// result, unless a failure has arrived before; its failure is kept if
    /// it is the first.
    pub fn accept(&mut self, outcome: Result<Table, ParseError>)
        requires
            old(self).wf(),
            !old(self)@.complete(),
            outcome matches Ok(table) ==> table.wf() && total_count(old(self)@.merged) + total_count(
                table@,
            ) <= u64::MAX,
        ensures
            final(self).wf(),
            final(self)@ == old(self)@.accept(outcome_view(outcome)),
            total_count(final(self)@.merged) == total_count(old(self)@.merged) + (match outcome {
                Ok(table) if old(self)@.failure is None => total_count(table@),
                _ => 0,
            }),
    {
        match outcome {
            Ok(table) => {
                if self.failure.is_none() {
                    merge_into(&mut self.merged, table);
                }
            },
            Err(e) => {
                if self.failure.is_none() {
                    self.failure = Some(e);
                }
            },
        }
        self.received = self.received + 1;
    }

    /// Ends the run: the merged table, or the first failure that arrived.
    pub fn finish(self) -> (r: Result<Table, ParseError>)
        requires
            self.wf(),
            self@.complete(),
        ensures
            outcome_view(r) == self@.result(),
            r matches Ok(table) ==> table.wf(),
    {
        match self.failure {
            Some(e) => Err(e),
            None => Ok(self.merged),
        }
    }
}

/// The model of a worker's outcome.
pub open spec fn outcome_view(outcome: Result<Table, ParseError>) -> Result<TableView, ParseError> {
    match outcome {
        Ok(table) => Ok(table@),
        Err(e) => Err(e),
    }
}

/// Two tables that arrive one after the other may arrive the other way
/// round: the reducer ends in the same state.
pub proof fn lemma_accept_commutes(s: ReducerView, a: TableView, b: TableView)
    ensures
        s.accept(Ok(a)).accept(Ok(b)) == s.accept(Ok(b)).accept(Ok(a)),
{
    lemma_merge_tables_associative(s.merged, a, b);
    lemma_merge_tables_associative(s.merged, b, a);
    lemma_merge_tables_commutative(a, b);
}

/// The state after a sequence of outcomes, taken in order.
pub open spec fn accept_all(s: ReducerView, outcomes: Seq<Result<TableView, ParseError>>) -> ReducerView
    decreases outcomes.len(),
{
    if outcomes.len() == 0 {
        s
    } else {
        accept_all(s.accept(outcomes.first()), outcomes.drop_first())
    }
}

/// The tables of a sequence of outcomes merged in order, or the first
/// failure among them.
pub open spec fn merge_all(outcomes: Seq<Result<TableView, ParseError>>) -> Result<
    TableView,
    ParseError,
>
    decreases outcomes.len(),
{
    if outcomes.len() == 0 {
        Ok(Map::empty())
    } else {
        match outcomes.first() {
            Err(e) => Err(e),
            Ok(t) => match merge_all(outcomes.drop_first()) {
                Err(e) => Err(e),
                Ok(rest) => Ok(merge_tables(t, rest)),
            },
        }
    }
}

/// What a reducer gives after a sequence of outcomes: the failure that it
/// held, or else the first failure among the outcomes, or else what it had
/// merged before, merged with the tables of the outcomes.
pub proof fn lemma_accept_all(s: ReducerView, outcomes: Seq<Result<TableView, ParseError>>)
    ensures
        accept_all(s, outcomes).received == s.received + outcomes.len(),
        accept_all(s, outcomes).expected == s.expected,
        accept_all(s, outcomes).result() == match s.failure {
            Some(e) => Err(e),
            None => match merge_all(outcomes) {
                Err(e) => Err(e),
                Ok(t) => Ok(merge_tables(s.merged, t)),
            },
        },
    decreases outcomes.len(),
{
    if outcomes.len() == 0 {
        lemma_merge_tables_empty(s.merged);
    } else {
        let next = s.accept(outcomes.first());
        lemma_accept_all(next, outcomes.drop_first());
        if s.failure is None {
            if let Ok(t) = outcomes.first() {
                if let Ok(rest) = merge_all(outcomes.drop_first()) {
                    lemma_merge_tables_associative(s.merged, t, rest);
                }
            }
        }
    }
}

/// Merging one more table into what was merged so far.
pub open spec fn merge_step() -> spec_fn(TableView, TableView) -> TableView {
    |merged: TableView, table: TableView| merge_tables(merged, table)
}

/// The tables of a sequence merged one after the other, from the empty
/// table on.
pub open spec fn merge_in_order(tables: Seq<TableView>) -> TableView {
    tables.fold_left(Map::empty(), merge_step())
}

/// The outcomes of workers that all gave a table.
pub open spec fn all_ok(tables: Seq<TableView>) -> Seq<Result<TableView, ParseError>> {
    Seq::new(tables.len(), |i: int| Ok(tables[i]))
}

/// The order in which tables are merged does not matter: two sequences of
/// the same tables, in whatever order, merge to the same table.
pub proof fn lemma_merge_order_is_immaterial(a: Seq<TableView>, b: Seq<TableView>)
    requires
        a.to_multiset() == b.to_multiset(),
    ensures
        merge_in_order(a) == merge_in_order(b),
{
    let f = merge_step();
    assert forall|x: TableView, y: TableView, v: TableView| #[trigger]
        f(f(v, x), y) == f(f(v, y), x) by {
        lemma_merge_tables_associative(v, x, y);
        lemma_merge_tables_associative(v, y, x);
        lemma_merge_tables_commutative(x, y);
    }
    assert(commutative_foldl(f));
    lemma_fold_left_permutation(a, b, f, Map::empty());
}

/// A reducer without failure that takes a sequence of tables has merged
/// them, one after the other, into what it had merged before.
pub proof fn lemma_accept_tables(s: ReducerView, tables: Seq<TableView>)
    requires
        s.failure is None,
    ensures
        accept_all(s, all_ok(tables)) == (ReducerView {
            merged: tables.fold_left(s.merged, merge_step()),
            expected: s.expected,
            received: s.received + tables.len(),
            failure: None,
        }),
    decreases tables.len(),
{
    tables.lemma_fold_left_alt(s.merged, merge_step());
    if tables.len() > 0 {
        let later = tables.subrange(1, tables.len() as int);
        let next = s.accept(Ok(tables[0]));
        assert(all_ok(tables).first() == Ok::<TableView, ParseError>(tables[0]));
        assert(all_ok(tables).drop_first() =~= all_ok(later));
        lemma_accept_tables(next, later);
        later.lemma_fold_left_alt(next.merged, merge_step());
    }
}

/// In whatever order the tables of the parts of an input arrive, a reducer
/// that takes them all gives the table of the whole input, where no part
/// cuts a row in two: `tables` are the tables of the parts, `arrived` the
/// same tables in the order of their arrival.
pub proof fn lemma_reduce_in_any_order(
    parts: Seq<Seq<u8>>,
    tables: Seq<TableView>,
    arrived: Seq<TableView>,
)
    requires
        whole_rows(parts),
        tables.len() == parts.len(),
        forall|i: int|
            0 <= i < parts.len() ==> aggregate(#[trigger] parts[i]) == Ok::<TableView, ParseError>(
                tables[i],
            ),
        arrived.to_multiset() == tables.to_multiset(),
    ensures
        aggregate(parts.flatten()) == Ok::<TableView, ParseError>(merge_in_order(arrived)),
        accept_all(ReducerView::initial(parts.len()), all_ok(arrived)).result() == aggregate(
            parts.flatten(),
        ),
{
    let start = ReducerView::initial(parts.len());
    let outcomes = all_ok(tables);
    assert forall|i: int| 0 <= i < parts.len() implies #[trigger] outcomes[i] == aggregate(
        parts[i],
    ) by {}
    lemma_merge_all_tables(parts, outcomes);
    lemma_accept_all(start, outcomes);
    lemma_accept_tables(start, tables);
    lemma_partitions_do_not_matter(parts);
    if let Ok(t) = merge_all(outcomes) {
        lemma_merge_tables_empty(t);
    }
    lemma_merge_order_is_immaterial(arrived, tables);
    lemma_accept_tables(start, arrived);
}

/// What the tokenizers of the workers give for the parts of an input,
/// each read `size` bytes at a time.
pub open spec fn part_outcomes(parts: Seq<Seq<u8>>, size: nat) -> Seq<Result<TableView, ParseError>> {
    Seq::new(parts.len(), |i: int| tokenize(pages_of(parts[i], size)))
}

/// What a run over the parts of an input gives, the outcomes taken in the
/// order of the parts.
pub open spec fn reduce_spec(parts: Seq<Seq<u8>>, size: nat) -> Result<TableView, ParseError> {
    accept_all(ReducerView::initial(parts.len()), part_outcomes(parts, size)).result()
}

/// Unless a row is too large for its pages, the outcomes of the workers
/// merged in order are the tables of the parts merged in order.
pub proof fn lemma_merge_all_parts(parts: Seq<Seq<u8>>, size: nat)
    requires
        size > 0,
    ensures
        merge_all(part_outcomes(parts, size)) == Err::<TableView, ParseError>(ParseError::RowTooLarge)
            || merge_all(part_outcomes(parts, size)) == merge_partials(parts),
    decreases parts.len(),
{
    if parts.len() > 0 {
        let outcomes = part_outcomes(parts, size);
        lemma_pages_do_not_matter(pages_of(parts.first(), size));
        lemma_pages_of_flatten(parts.first(), size);
        lemma_merge_all_parts(parts.drop_first(), size);
        assert(outcomes.drop_first() =~= part_outcomes(parts.drop_first(), size));
    }
}

/// Unless a row is too large for its pages, a run over the parts of a
/// partitioning gives what aggregating the whole input in one piece gives.
pub proof fn lemma_reduce_is_aggregate(data: Seq<u8>, parts: Seq<Partition>, size: nat)
    requires
        is_partitioning(data, parts),
        size > 0,
    ensures
        reduce_spec(slices(data, parts), size) == Err::<TableView, ParseError>(ParseError::RowTooLarge)
            || reduce_spec(slices(data, parts), size) == aggregate(data),
{
    let cut = slices(data, parts);
    lemma_accept_all(ReducerView::initial(cut.len()), part_outcomes(cut, size));
    lemma_merge_all_parts(cut, size);
    lemma_partitioning_is_immaterial(data, parts);
    if let Ok(t) = merge_all(part_outcomes(cut, size)) {
        lemma_merge_tables_empty(t);
    }
}

/// Where every row of the input is at most one page long, a run over the
/// parts of a partitioning gives what aggregating the whole input in one
/// piece gives.
pub proof fn lemma_reduce_fitting(data: Seq<u8>, parts: Seq<Partition>, size: nat)
    requires
        is_partitioning(data, parts),
        size > 0,
        rows_fit(data, size),
    ensures
        reduce_spec(slices(data, parts), size) == aggregate(data),
{
    let cut = slices(data, parts);
    lemma_partitioning_slices(data, parts);
    lemma_rows_fit_parts(cut, size);
    assert forall|i: int| 0 <= i < cut.len() implies #[trigger] part_outcomes(cut, size)[i]
        == aggregate(cut[i]) by {
        lemma_fitting_rows(cut[i], size);
    }
    lemma_merge_all_tables(cut, part_outcomes(cut, size));
    lemma_accept_all(ReducerView::initial(cut.len()), part_outcomes(cut, size));
    lemma_partitions_do_not_matter(cut);
    if let Ok(t) = merge_all(part_outcomes(cut, size)) {
        lemma_merge_tables_empty(t);
    }
}

/// Merging, in order, outcomes that are the tables of the parts is merging
/// the tables of the parts.
pub proof fn lemma_merge_all_tables(parts: Seq<Seq<u8>>, outcomes: Seq<Result<TableView, ParseError>>)
    requires
        outcomes.len() == parts.len(),
        forall|i: int| 0 <= i < parts.len() ==> #[trigger] outcomes[i] == aggregate(parts[i]),
    ensures
        merge_all(outcomes) == merge_partials(parts),
    decreases parts.len(),
{
    if parts.len() > 0 {
        let later = outcomes.drop_first();
        let tail = parts.drop_first();
        assert(outcomes[0] == aggregate(parts[0]));
        assert forall|i: int| 0 <= i < tail.len() implies #[trigger] later[i] == aggregate(
            tail[i],
        ) by {
            assert(later[i] == outcomes[i + 1]);
            assert(tail[i] == parts[i + 1]);
        }
        lemma_merge_all_tables(tail, later);
    }
}

/// Aggregates an input that is held in memory as a pool of `workers` would:
/// the input is cut into `workers` ranges of whole rows, each range goes
/// through a tokenizer of its own, `page_size` bytes at a time, and a
/// reducer merges the tables in the order of the ranges. Unless a row is
/// too large for its pages, the result is that of aggregating the input in
/// one piece.
pub fn aggregate_in_parts(data: &[u8], workers: usize, page_size: usize) -> (r: Result<
    Table,
    ParseError,
>)
    requires
        workers > 0,
        page_size > 0,
    ensures
        outcome_view(r) == reduce_spec(
            slices(data@, partition_spec(data@, workers as nat)),
            page_size as nat,
        ),
        r matches Ok(table) ==> table.wf() && aggregate(data@) == Ok::<TableView, ParseError>(table@),
        r matches Err(e) ==> e == ParseError::RowTooLarge || aggregate(data@) == Err::<
            TableView,
            ParseError,
        >(e),
        rows_fit(data@, page_size as nat) ==> outcome_view(r) == aggregate(data@),
{
    let parts = partition(data, workers);
    proof {
        if rows_fit(data@, page_size as nat) {
            lemma_reduce_fitting(data@, parts@, page_size as nat);
        }
    }
    reduce_parts(data, parts, page_size)
}

/// Runs one tokenizer after the other over the parts of `data` and merges
/// their tables.
fn reduce_parts(data: &[u8], parts: Vec<Partition>, page_size: usize) -> (r: Result<Table, ParseError>)
    requires
        page_size > 0,
        is_partitioning(data@, parts@),
    ensures
        outcome_view(r) == reduce_spec(slices(data@, parts@), page_size as nat),
        r matches Ok(table) ==> table.wf() && aggregate(data@) == Ok::<TableView, ParseError>(table@),
        r matches Err(e) ==> e == ParseError::RowTooLarge || aggregate(data@) == Err::<
            TableView,
            ParseError,
        >(e),
{
    let workers: usize = parts.len();
    let ghost cut = slices(data@, parts@);
    let ghost outcomes = part_outcomes(cut, page_size as nat);
    let ghost start = ReducerView::initial(workers as nat);
    let mut reducer = Reducer::new(workers);
    let mut i: usize = 0;
    proof {
        lemma_reduce_is_aggregate(data@, parts@, page_size as nat);
        assert(outcomes.skip(0) =~= outcomes);
    }
    while i < workers
        invariant
            workers == parts@.len(),
            page_size > 0,
            i <= workers,
            is_partitioning(data@, parts@),
            cut == slices(data@, parts@),
            outcomes == part_outcomes(cut, page_size as nat),
            start == ReducerView::initial(workers as nat),
            reducer.wf(),
            reducer@.received == i,
            reducer@.expected == workers,
            reducer@.failure is None,
            i < workers ==> total_count(reducer@.merged) <= parts@[i as int].start,
            accept_all(reducer@, outcomes.skip(i as int)).result() == accept_all(start, outcomes).result(),
        decreases workers - i,
    {
        let part = parts[i];
        let len: usize = data.len();
        proof {
            lemma_part_bounds(data@, parts@, i as int);
            reducer.lemma_wf();
        }
        let bytes = slice_subrange(data, part.start as usize, part.end as usize);
        let outcome = produce_table(bytes, page_size);
        proof {
            let later = outcomes.skip(i as int);
            assert(bytes@ == cut[i as int]);
            assert(later.first() == outcomes[i as int]);
            assert(later.first() == outcome_view(outcome));
            assert(later.drop_first() =~= outcomes.skip(i + 1));
            assert(accept_all(reducer@, later) == accept_all(
                reducer@.accept(later.first()),
                later.drop_first(),
            ));
            lemma_row_count_bound(bytes@);
            lemma_accept_all(reducer@.accept(later.first()), later.drop_first());
            lemma_reduce_is_aggregate(data@, parts@, page_size as nat);
        }
        if outcome.is_err() {
            return outcome;
        }
        reducer.accept(outcome);
        i = i + 1;
    }
    proof {
        assert(outcomes.skip(workers as int) =~= Seq::empty());
    }
    reducer.finish()
}

} // verus!
