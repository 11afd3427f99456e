//! The line tokenizer: a state machine that is fed the input page by page
//! and records every row that a page completes, whatever the page
//! boundaries split.

use vstd::prelude::*;
use vstd::slice::slice_subrange;
use crate::bytes::{
    find_byte, first_index, has_byte, lemma_first_index, lemma_first_index_prefix,
    lemma_first_index_skip, NEWLINE, SEPARATOR,
};
use crate::error::ParseError;
use crate::model::{lemma_total_count_empty, table_wf, total_count, TableView};
use crate::rows::{
    aggregate, aggregate_from, lemma_aggregate_counts_rows, lemma_empty_parts, lemma_with_row,
    newline_aligned, nothing_after, record_row, record_split_row, row_count, whole_rows,
    with_row,
};
use crate::table::Table;

verus! {

/// The number of pages on which one row may lie: the page on which it
/// begins and the next one. A row that reaches a third page is too large.
pub const MAX_SPANS: u8 = 2;

/// What the tokenizer is looking for in the row that it has begun.
#[derive(Debug, Clone, Copy, PartialEq, Eq, Structural)]
pub enum ScanState {
    /// No separator of the row has been seen yet.
    ScanningForSeparator,
    /// The separator has been seen; the newline has not.
    ScanningForNewline,
}

/// The state of a tokenizer: the table of the rows completed so far, the
/// bytes of the row begun and not yet completed, and the number of pages
/// that those bytes came from.
pub struct TokenizerView {
    pub table: TableView,
    pub pending: Seq<u8>,
    pub spans: nat,
}

impl TokenizerView {
    /// The state before any input.
    pub open spec fn initial() -> TokenizerView {
        TokenizerView { table: Map::empty(), pending: Seq::empty(), spans: 0 }
    }

    /// What holds of every state that is reached: the pending bytes hold no
    /// newline, and they are counted as spanning no page exactly when there
    /// are none.
    pub open spec fn wf(self) -> bool {
        &&& table_wf(self.table)
        &&& !has_byte(self.pending, NEWLINE)
        &&& self.spans <= MAX_SPANS
        &&& (self.spans == 0) == (self.pending.len() == 0)
    }

    /// What the tokenizer is looking for.
    pub open spec fn state(self) -> ScanState {
        if has_byte(self.pending, SEPARATOR) {
            ScanState::ScanningForNewline
        } else {
            ScanState::ScanningForSeparator
        }
    }
}

/// The state after the rows of `rest` were recorded in `table`; `rest`
/// begins at the start of a row. What follows the last newline is pending.
pub open spec fn drain(table: TableView, rest: Seq<u8>) -> Result<TokenizerView, ParseError>
    decreases rest.len(),
{
    if !has_byte(rest, NEWLINE) {
        Ok(TokenizerView { table, pending: rest, spans: if rest.len() > 0 { 1 } else { 0 } })
    } else {
        let end = first_index(rest, NEWLINE);
        match with_row(table, rest.subrange(0, end)) {
            Err(e) => Err(e),
            Ok(next) => {
                proof {
                    lemma_first_index(rest, NEWLINE);
                }
                drain(next, rest.subrange(end + 1, rest.len() as int))
            },
        }
    }
}

/// The state after one more page. An empty page changes nothing. Where
/// the pending bytes already lie on [`MAX_SPANS`] pages, the page would be a
/// third page of their row: the row is too large, whatever the page holds.
/// Otherwise a page without newline is added to the pending bytes, and in a
/// page with a newline the first newline completes the pending row and the
/// rows that follow it in the page are recorded in turn.
///
/// So a row that the second page it lies on does not complete is rejected
/// as soon as a third page arrives. If the input ends instead, the row is
/// the last one, and [`finish_spec`] says what becomes of it.
pub open spec fn feed_spec(s: TokenizerView, page: Seq<u8>) -> Result<TokenizerView, ParseError> {
    if page.len() == 0 {
        Ok(s)
    } else if s.spans >= MAX_SPANS {
        Err(ParseError::RowTooLarge)
    } else if !has_byte(page, NEWLINE) {
        Ok(TokenizerView { table: s.table, pending: s.pending + page, spans: s.spans + 1 })
    } else {
        let end = first_index(page, NEWLINE);
        match with_row(s.table, s.pending + page.subrange(0, end)) {
            Err(e) => Err(e),
            Ok(next) => drain(next, page.subrange(end + 1, page.len() as int)),
        }
    }
}

/// The table at the end of the input. Pending bytes are a last row without
/// newline: at the end of the file the end of input terminates it; anywhere
/// else its newline is missing.
pub open spec fn finish_spec(s: TokenizerView, at_eof: bool) -> Result<TableView, ParseError> {
    if s.pending.len() == 0 {
        Ok(s.table)
    } else if at_eof {
        with_row(s.table, s.pending)
    } else {
        Err(ParseError::MissingNewline)
    }
}

/// A tokenizer with the table that it fills.
#[derive(Debug)]
pub struct LineTokenizer {
    table: Table,
    stash: Vec<u8>,
    sep: usize,
    spans: u8,
}

impl View for LineTokenizer {
    type V = TokenizerView;

    closed spec fn view(&self) -> TokenizerView {
        TokenizerView { table: self.table@, pending: self.stash@, spans: self.spans as nat }
    }
}

/// Appends `bytes` to the stash and keeps track of its first separator.
fn stash_bytes(stash: &mut Vec<u8>, sep: &mut usize, bytes: &[u8])
    requires
        *old(sep) == first_index(old(stash)@, SEPARATOR),
    ensures
        final(stash)@ == old(stash)@ + bytes@,
        *final(sep) == first_index(final(stash)@, SEPARATOR),
{
    let held: usize = stash.len();
    stash.extend_from_slice(bytes);
    let grown: usize = stash.len();
    assert(stash@ =~= old(stash)@ + bytes@);
    assert(grown == held + bytes@.len());
    proof {
        lemma_first_index(old(stash)@, SEPARATOR);
    }
    if *sep >= held {
        let found: usize = find_byte(bytes, 0, SEPARATOR);
        proof {
            assert(bytes@.subrange(0, bytes@.len() as int) =~= bytes@);
            lemma_first_index_skip(old(stash)@, bytes@, SEPARATOR);
        }
        *sep = held + found;
    } else {
        proof {
            lemma_first_index_prefix(old(stash)@, bytes@, SEPARATOR);
        }
    }
}

impl LineTokenizer {
    /// Well-formedness: the state is well formed and the table is as it
    /// keeps its books.
    pub closed spec fn wf(&self) -> bool {
        &&& self@.wf()
        &&& self.table.wf()
        &&& self.sep == first_index(self.stash@, SEPARATOR)
    }

    /// A tokenizer at the start of its input, with an empty table.
    pub fn new() -> (tokenizer: LineTokenizer)
        ensures
            tokenizer.wf(),
            tokenizer@.wf(),
            tokenizer@ == TokenizerView::initial(),
    {
        let tokenizer = LineTokenizer { table: Table::new(), stash: Vec::new(), sep: 0, spans: 0 };
        proof {
            lemma_first_index(tokenizer.stash@, NEWLINE);
            lemma_total_count_empty();
            assert(tokenizer.stash@ =~= Seq::<u8>::empty());
        }
        tokenizer
    }

    /// What the tokenizer is looking for in the row that it has begun.
    pub fn state(&self) -> (state: ScanState)
        requires
            self.wf(),
        ensures
            state == self@.state(),
    {
        if self.sep < self.stash.len() {
            ScanState::ScanningForNewline
        } else {
            ScanState::ScanningForSeparator
        }
    }

    /// The number of rows recorded so far.
    pub fn rows(&self) -> (n: u64)
        requires
            self.wf(),
        ensures
            n == total_count(self@.table),
    {
        self.table.rows()
    }

    /// The number of bytes of the row begun and not yet completed.
    pub fn pending_len(&self) -> (n: usize)
        ensures
            n == self@.pending.len(),
    {
        self.stash.len()
    }

    /// Whether a page of `page_len` bytes can be fed: whether the rows
    /// recorded, the pending bytes and the page together stay within what a
    /// row counter holds.
    pub fn fits(&self, page_len: usize) -> (ok: bool)
        requires
            self.wf(),
        ensures
            ok == (total_count(self@.table) + self@.pending.len() + page_len <= u64::MAX),
    {
        let used: u128 = self.table.rows() as u128 + self.stash.len() as u128 + page_len as u128;
        used <= u64::MAX as u128
    }

    /// Takes one page of input: records every row that the page completes
    /// and keeps what follows its last newline for the next page.
    pub fn feed(&mut self, page: &[u8]) -> (r: Result<(), ParseError>)
        requires
            old(self).wf(),
            total_count(old(self)@.table) + old(self)@.pending.len() + page@.len() <= u64::MAX,
        ensures
            final(self).wf(),
            final(self)@.wf(),
            match feed_spec(old(self)@, page@) {
                Ok(s) => r is Ok && final(self)@ == s,
                Err(e) => r == Err::<(), ParseError>(e),
            },
            r is Ok ==> total_count(final(self)@.table) + final(self)@.pending.len() <= total_count(
                old(self)@.table,
            ) + old(self)@.pending.len() + page@.len(),
    {
        let n: usize = page.len();
        if n == 0 {
            return Ok(());
        }
        if self.spans >= MAX_SPANS {
            return Err(ParseError::RowTooLarge);
        }
        let first: usize = find_byte(page, 0, NEWLINE);
        assert(page@.subrange(0, n as int) =~= page@);
        if first == n {
            stash_bytes(&mut self.stash, &mut self.sep, page);
            self.spans = self.spans + 1;
            proof {
                lemma_first_index_skip(old(self).stash@, page@, NEWLINE);
            }
            return Ok(());
        }
        let head = slice_subrange(page, 0, first);
        let done = if self.stash.len() == 0 {
            assert(self.stash@ + head@ =~= head@);
            record_row(&mut self.table, head)
        } else {
            stash_bytes(&mut self.stash, &mut self.sep, head);
            let done = record_split_row(&mut self.table, self.stash.as_slice(), self.sep);
            self.stash.clear();
            done
        };
        self.sep = 0;
        self.spans = 0;
        proof {
            lemma_first_index(self.stash@, NEWLINE);
            lemma_first_index(self.stash@, SEPARATOR);
        }
        if let Err(e) = done {
            return Err(e);
        }
        let mut pos: usize = first + 1;
        loop
            invariant
                n == page.len(),
                pos <= n,
                self.wf(),
                self.stash@.len() == 0,
                feed_spec(old(self)@, page@) == drain(self.table@, page@.subrange(pos as int, n as int)),
                total_count(self.table@) + (n - pos) < total_count(old(self)@.table) + old(
                    self,
                )@.pending.len() + n,
                total_count(old(self)@.table) + old(self)@.pending.len() + n <= u64::MAX,
            decreases n - pos,
        {
            let ghost rest = page@.subrange(pos as int, n as int);
            let end: usize = find_byte(page, pos, NEWLINE);
            if end == n {
                if pos < n {
                    stash_bytes(&mut self.stash, &mut self.sep, slice_subrange(page, pos, n));
                    self.spans = 1;
                }
                assert(self.stash@ =~= rest);
                return Ok(());
            }
            let row = slice_subrange(page, pos, end);
            proof {
                assert(row@ =~= rest.subrange(0, end - pos));
                assert(page@.subrange(end + 1, n as int) =~= rest.subrange(
                    end - pos + 1,
                    rest.len() as int,
                ));
            }
            if let Err(e) = record_row(&mut self.table, row) {
                return Err(e);
            }
            pos = end + 1;
        }
    }

    /// Ends the input and hands the table over. Pending bytes are a last row
    /// without newline: with `at_eof` they are recorded as that row, without
    /// it they are an error.
    pub fn finish(self, at_eof: bool) -> (r: Result<Table, ParseError>)
        requires
            self.wf(),
            total_count(self@.table) + self@.pending.len() <= u64::MAX,
        ensures
            match finish_spec(self@, at_eof) {
                Ok(m) => r is Ok && r.unwrap()@ == m && r.unwrap().wf(),
                Err(e) => r == Err::<Table, ParseError>(e),
            },
    {
        let mut tokenizer = self;
        if tokenizer.stash.len() == 0 {
            return Ok(tokenizer.table);
        }
        if !at_eof {
            return Err(ParseError::MissingNewline);
        }
        match record_split_row(&mut tokenizer.table, tokenizer.stash.as_slice(), tokenizer.sep) {
            Ok(()) => Ok(tokenizer.table),
            Err(e) => Err(e),
        }
    }
}

/// A row that the second page on which it lies does not complete is
/// rejected when a third page arrives: where bytes of a row are pending and
/// a page without newline follows, that page or the next one gives
/// `RowTooLarge`, whatever the next one holds.
pub proof fn lemma_third_page_is_rejected(s: TokenizerView, second: Seq<u8>, third: Seq<u8>)
    requires
        s.wf(),
        s.pending.len() > 0,
        second.len() > 0,
        !has_byte(second, NEWLINE),
        third.len() > 0,
    ensures
        match feed_spec(s, second) {
            Ok(next) => feed_spec(next, third) == Err::<TokenizerView, ParseError>(
                ParseError::RowTooLarge,
            ),
            Err(e) => e == ParseError::RowTooLarge,
        },
{
}

/// The state after a sequence of pages, fed in order; the first page that
/// is rejected gives the error.
pub open spec fn run(s: TokenizerView, pages: Seq<Seq<u8>>) -> Result<TokenizerView, ParseError>
    decreases pages.len(),
{
    if pages.len() == 0 {
        Ok(s)
    } else {
        match feed_spec(s, pages.first()) {
            Err(e) => Err(e),
            Ok(next) => run(next, pages.drop_first()),
        }
    }
}

/// The table of an input that is read as the sequence of pages `pages` and
/// ends at the end of the file.
pub open spec fn tokenize(pages: Seq<Seq<u8>>) -> Result<TableView, ParseError> {
    match run(TokenizerView::initial(), pages) {
        Err(e) => Err(e),
        Ok(s) => finish_spec(s, true),
    }
}

/// Recording the rows of `tail` and then going on with `rest` is aggregating
/// `tail + rest`.
pub proof fn lemma_drain_continues(table: TableView, tail: Seq<u8>, rest: Seq<u8>)
    requires
        table_wf(table),
    ensures
        match drain(table, tail) {
            Ok(s) => s.wf() && aggregate_from(table, tail + rest) == aggregate_from(
                s.table,
                s.pending + rest,
            ),
            Err(e) => aggregate_from(table, tail + rest) == Err::<TableView, ParseError>(e),
        },
    decreases tail.len(),
{
    if has_byte(tail, NEWLINE) {
        let end = first_index(tail, NEWLINE);
        let data = tail + rest;
        lemma_first_index(tail, NEWLINE);
        lemma_first_index_prefix(tail, rest, NEWLINE);
        let next_tail = tail.subrange(end + 1, tail.len() as int);
        assert(data.subrange(0, end) =~= tail.subrange(0, end));
        assert(data.subrange(end + 1, data.len() as int) =~= next_tail + rest);
        lemma_with_row(table, tail.subrange(0, end));
        if let Ok(next) = with_row(table, tail.subrange(0, end)) {
            lemma_drain_continues(next, next_tail, rest);
        }
    }
}

/// Feeding a page and then going on with `rest` is aggregating what was
/// pending, the page and `rest` in one piece, unless the page makes the
/// pending row too large.
pub proof fn lemma_feed_continues(s: TokenizerView, page: Seq<u8>, rest: Seq<u8>)
    requires
        s.wf(),
    ensures
        match feed_spec(s, page) {
            Ok(next) => next.wf() && aggregate_from(s.table, s.pending + page + rest)
                == aggregate_from(next.table, next.pending + rest),
            Err(e) => e == ParseError::RowTooLarge || aggregate_from(s.table, s.pending + page + rest)
                == Err::<TableView, ParseError>(e),
        },
{
    let data = s.pending + page + rest;
    if page.len() == 0 {
        assert(data =~= s.pending + rest);
    } else if !has_byte(page, NEWLINE) {
        lemma_first_index_skip(s.pending, page, NEWLINE);
    } else {
        let end = first_index(page, NEWLINE);
        lemma_first_index(page, NEWLINE);
        lemma_first_index_prefix(page, rest, NEWLINE);
        lemma_first_index_skip(s.pending, page + rest, NEWLINE);
        assert(data =~= s.pending + (page + rest));
        let row = s.pending + page.subrange(0, end);
        let tail = page.subrange(end + 1, page.len() as int);
        assert(data.subrange(0, s.pending.len() + end) =~= row);
        assert(data.subrange(s.pending.len() + end + 1, data.len() as int) =~= tail + rest);
        lemma_with_row(s.table, row);
        if let Ok(next) = with_row(s.table, row) {
            lemma_drain_continues(next, tail, rest);
        }
    }
}

/// Ending the input at the end of the file is aggregating what was pending.
pub proof fn lemma_finish_at_eof(s: TokenizerView)
    requires
        s.wf(),
    ensures
        finish_spec(s, true) == aggregate_from(s.table, s.pending),
{
    if s.pending.len() > 0 {
        lemma_first_index(s.pending, NEWLINE);
        assert(s.pending.subrange(0, s.pending.len() as int) =~= s.pending);
    }
}

/// Feeding pages and then going on with `rest` is aggregating what was
/// pending, the pages and `rest` in one piece, unless a page makes a row
/// too large.
pub proof fn lemma_run_continues(s: TokenizerView, pages: Seq<Seq<u8>>, rest: Seq<u8>)
    requires
        s.wf(),
    ensures
        match run(s, pages) {
            Ok(next) => next.wf() && aggregate_from(s.table, s.pending + pages.flatten() + rest)
                == aggregate_from(next.table, next.pending + rest),
            Err(e) => e == ParseError::RowTooLarge || aggregate_from(
                s.table,
                s.pending + pages.flatten() + rest,
            ) == Err::<TableView, ParseError>(e),
        },
    decreases pages.len(),
{
    if pages.len() == 0 {
        assert(s.pending + pages.flatten() + rest =~= s.pending + rest);
    } else {
        let page = pages.first();
        let later = pages.drop_first();
        assert(s.pending + pages.flatten() + rest =~= s.pending + page + (later.flatten() + rest));
        lemma_feed_continues(s, page, later.flatten() + rest);
        if let Ok(next) = feed_spec(s, page) {
            lemma_run_continues(next, later, rest);
            assert(next.pending + (later.flatten() + rest) =~= next.pending + later.flatten() + rest);
        }
    }
}

/// Where the pages are cut does not matter: unless a row is too large for
/// its pages, reading an input page by page gives what aggregating it in one
/// piece gives, the table or the error.
pub proof fn lemma_pages_do_not_matter(pages: Seq<Seq<u8>>)
    ensures
        match tokenize(pages) {
            Ok(m) => aggregate(pages.flatten()) == Ok::<TableView, ParseError>(m),
            Err(e) => e == ParseError::RowTooLarge || aggregate(pages.flatten()) == Err::<
                TableView,
                ParseError,
            >(e),
        },
{
    let start = TokenizerView::initial();
    let none = Seq::<u8>::empty();
    lemma_first_index(start.pending, NEWLINE);
    lemma_total_count_empty();
    lemma_run_continues(start, pages, none);
    assert(start.pending + pages.flatten() + none =~= pages.flatten());
    if let Ok(s) = run(start, pages) {
        assert(s.pending + none =~= s.pending);
        lemma_finish_at_eof(s);
    }
}

/// The pages of `data` when it is read `size` bytes at a time: all of
/// `size` bytes but the last, which holds what is left.
pub open spec fn pages_of(data: Seq<u8>, size: nat) -> Seq<Seq<u8>>
    decreases data.len(),
{
    if data.len() == 0 || size == 0 {
        Seq::empty()
    } else if data.len() <= size {
        seq![data]
    } else {
        seq![data.subrange(0, size as int)] + pages_of(
            data.subrange(size as int, data.len() as int),
            size,
        )
    }
}

/// The pages of an input, one after the other, are the input.
pub proof fn lemma_pages_of_flatten(data: Seq<u8>, size: nat)
    requires
        size > 0,
    ensures
        pages_of(data, size).flatten() == data,
    decreases data.len(),
{
    let pages = pages_of(data, size);
    if data.len() == 0 {
        assert(pages.flatten() =~= data);
    } else if data.len() <= size {
        assert(pages.first() == data);
        assert(pages.drop_first() =~= Seq::<Seq<u8>>::empty());
        assert(pages.drop_first().flatten() =~= Seq::<u8>::empty());
        assert(pages.flatten() =~= data);
    } else {
        let later = data.subrange(size as int, data.len() as int);
        lemma_pages_of_flatten(later, size);
        assert(pages.drop_first() =~= pages_of(later, size));
        assert(pages.flatten() =~= data);
    }
}

/// Whether every row of `data` is at most `size` bytes long, its newline
/// counted.
pub open spec fn rows_fit(data: Seq<u8>, size: nat) -> bool
    decreases data.len(),
{
    if data.len() == 0 {
        true
    } else {
        let end = first_index(data, NEWLINE);
        if end >= data.len() {
            data.len() <= size
        } else {
            proof {
                lemma_first_index(data, NEWLINE);
            }
            end + 1 <= size && rows_fit(data.subrange(end + 1, data.len() as int), size)
        }
    }
}

/// The rows of a page are never rejected as too large, and leave pending
/// bytes of one page at most; where the rows of the page and of what
/// follows it fit a page, so do the rows of what is then pending and of
/// what follows.
pub proof fn lemma_drain_fits(table: TableView, tail: Seq<u8>, rest: Seq<u8>, size: nat)
    ensures
        drain(table, tail) matches Err(e) ==> e != ParseError::RowTooLarge,
        drain(table, tail) matches Ok(s) ==> s.spans <= 1 && (rows_fit(tail + rest, size)
            ==> rows_fit(s.pending + rest, size)),
    decreases tail.len(),
{
    if has_byte(tail, NEWLINE) {
        let end = first_index(tail, NEWLINE);
        let data = tail + rest;
        lemma_first_index(tail, NEWLINE);
        lemma_first_index_prefix(tail, rest, NEWLINE);
        let next_tail = tail.subrange(end + 1, tail.len() as int);
        assert(data.subrange(end + 1, data.len() as int) =~= next_tail + rest);
        if let Ok(next) = with_row(table, tail.subrange(0, end)) {
            lemma_drain_fits(next, next_tail, rest, size);
        }
    }
}

/// Read a page of `size` bytes at a time, an input whose rows are at most
/// `size` bytes long is never rejected as holding a row too large.
pub proof fn lemma_run_fits(s: TokenizerView, data: Seq<u8>, size: nat)
    requires
        s.wf(),
        s.spans <= 1,
        size > 0,
        rows_fit(s.pending + data, size),
    ensures
        run(s, pages_of(data, size)) matches Err(e) ==> e != ParseError::RowTooLarge,
    decreases data.len(),
{
    let pages = pages_of(data, size);
    if data.len() == 0 {
        assert(run(s, pages) == Ok::<TokenizerView, ParseError>(s));
    } else if data.len() <= size {
        assert(pages.len() == 1);
        assert(pages.first() == data);
        assert(pages.drop_first() =~= Seq::<Seq<u8>>::empty());
        if let Ok(next) = feed_spec(s, data) {
            assert(run(next, pages.drop_first()) == Ok::<TokenizerView, ParseError>(next));
        }
        assert(run(s, pages) == match feed_spec(s, data) {
            Err(e) => Err(e),
            Ok(next) => Ok(next),
        });
        lemma_first_index(data, NEWLINE);
        if has_byte(data, NEWLINE) {
            let end = first_index(data, NEWLINE);
            if let Ok(next) = with_row(s.table, s.pending + data.subrange(0, end)) {
                lemma_drain_fits(
                    next,
                    data.subrange(end + 1, data.len() as int),
                    Seq::<u8>::empty(),
                    size,
                );
            }
        }
    } else {
        let page = data.subrange(0, size as int);
        let later = data.subrange(size as int, data.len() as int);
        let whole = s.pending + data;
        assert(pages.len() > 0);
        assert(pages.first() == page);
        assert(pages.drop_first() =~= pages_of(later, size));
        assert(run(s, pages) == match feed_spec(s, page) {
            Err(e) => Err(e),
            Ok(next) => run(next, pages_of(later, size)),
        });
        lemma_first_index(whole, NEWLINE);
        lemma_first_index(s.pending, NEWLINE);
        lemma_first_index(page, NEWLINE);
        let at = first_index(whole, NEWLINE);
        assert(at < size);
        assert(at >= s.pending.len()) by {
            if at < s.pending.len() {
                assert(whole[at] == s.pending[at]);
            }
        }
        assert(page[at - s.pending.len()] == whole[at]);
        assert(has_byte(page, NEWLINE));
        let end = first_index(page, NEWLINE);
        assert(s.pending.len() + end == at) by {
            lemma_first_index_prefix(page, later, NEWLINE);
            assert(page + later =~= data);
            lemma_first_index_skip(s.pending, data, NEWLINE);
        }
        let tail = page.subrange(end + 1, page.len() as int);
        assert(whole.subrange(at + 1, whole.len() as int) =~= tail + later);
        lemma_with_row(s.table, s.pending + page.subrange(0, end));
        if let Ok(next) = with_row(s.table, s.pending + page.subrange(0, end)) {
            lemma_drain_fits(next, tail, later, size);
            lemma_drain_continues(next, tail, later);
            if let Ok(after) = drain(next, tail) {
                lemma_run_fits(after, later, size);
            }
        }
    }
}

/// Where every row of the input is at most one page long, reading it page
/// by page gives what aggregating it in one piece gives.
pub proof fn lemma_fitting_rows(data: Seq<u8>, size: nat)
    requires
        size > 0,
        rows_fit(data, size),
    ensures
        tokenize(pages_of(data, size)) == aggregate(data),
{
    let start = TokenizerView::initial();
    lemma_first_index(start.pending, NEWLINE);
    lemma_total_count_empty();
    assert(start.pending + data =~= data);
    lemma_run_fits(start, data, size);
    lemma_pages_do_not_matter(pages_of(data, size));
    lemma_pages_of_flatten(data, size);
}

/// Where the rows of an input fit a page, so do the rows of its two parts,
/// if the input is cut where a row ends.
pub proof fn lemma_rows_fit_split(a: Seq<u8>, b: Seq<u8>, size: nat)
    requires
        newline_aligned(a),
        rows_fit(a + b, size),
    ensures
        rows_fit(a, size),
        rows_fit(b, size),
    decreases a.len(),
{
    if a.len() == 0 {
        assert(a + b =~= b);
    } else {
        let end = first_index(a, NEWLINE);
        lemma_first_index(a, NEWLINE);
        assert(end < a.len()) by {
            if end >= a.len() {
                assert(a[a.len() - 1] == NEWLINE);
            }
        }
        lemma_first_index_prefix(a, b, NEWLINE);
        let rest = a.subrange(end + 1, a.len() as int);
        assert((a + b).subrange(end + 1, (a + b).len() as int) =~= rest + b);
        assert(newline_aligned(rest)) by {
            if rest.len() > 0 {
                assert(rest.last() == a.last());
            }
        }
        lemma_rows_fit_split(rest, b, size);
    }
}

/// Where the rows of an input fit a page, so do the rows of each of its
/// parts, if no part cuts a row in two.
pub proof fn lemma_rows_fit_parts(parts: Seq<Seq<u8>>, size: nat)
    requires
        whole_rows(parts),
        rows_fit(parts.flatten(), size),
    ensures
        forall|i: int| 0 <= i < parts.len() ==> rows_fit(#[trigger] parts[i], size),
    decreases parts.len(),
{
    if parts.len() > 0 {
        let head = parts.first();
        let tail = parts.drop_first();
        assert forall|i: int| 0 <= i < tail.len() - 1 implies newline_aligned(#[trigger] tail[i])
            || nothing_after(tail, i) by {
            assert(tail[i] == parts[i + 1]);
            if nothing_after(parts, i + 1) {
                assert forall|j: int| i < j < tail.len() implies (#[trigger] tail[j]).len() == 0 by {
                    assert(tail[j] == parts[j + 1]);
                }
            }
        }
        if parts.len() == 1 || !newline_aligned(head) {
            assert forall|j: int| -1 < j < tail.len() implies (#[trigger] tail[j]).len() == 0 by {
                assert(tail[j] == parts[j + 1]);
            }
            lemma_empty_parts(tail);
            assert(parts.flatten() =~= head);
        } else {
            lemma_rows_fit_split(head, tail.flatten(), size);
        }
        lemma_rows_fit_parts(tail, size);
        assert forall|i: int| 0 <= i < parts.len() implies rows_fit(#[trigger] parts[i], size) by {
            if i > 0 {
                assert(parts[i] == tail[i - 1]);
            }
        }
    }
}

/// Aggregates a whole input that is held in memory, reading it through the
/// tokenizer `page_size` bytes at a time; the end of `data` is the end of
/// the file. Unless a row is too large for its pages, the result is the
/// table of `data`, or the error of its first rejected row.
pub fn produce_table(data: &[u8], page_size: usize) -> (r: Result<Table, ParseError>)
    requires
        page_size > 0,
    ensures
        match tokenize(pages_of(data@, page_size as nat)) {
            Ok(m) => r is Ok && r.unwrap()@ == m && r.unwrap().wf() && aggregate(data@) == Ok::<
                TableView,
                ParseError,
            >(m) && total_count(m) == row_count(data@),
            Err(e) => r == Err::<Table, ParseError>(e) && (e == ParseError::RowTooLarge || aggregate(
                data@,
            ) == Err::<TableView, ParseError>(e)),
        },
        rows_fit(data@, page_size as nat) ==> tokenize(pages_of(data@, page_size as nat))
            == aggregate(data@),
{
    proof {
        if rows_fit(data@, page_size as nat) {
            lemma_fitting_rows(data@, page_size as nat);
        }
    }
    feed_pages(data, page_size)
}

/// Feeds `data` to a new tokenizer, `page_size` bytes at a time, and ends
/// the input at the end of the file.
fn feed_pages(data: &[u8], page_size: usize) -> (r: Result<Table, ParseError>)
    requires
        page_size > 0,
    ensures
        match tokenize(pages_of(data@, page_size as nat)) {
            Ok(m) => r is Ok && r.unwrap()@ == m && r.unwrap().wf() && aggregate(data@) == Ok::<
                TableView,
                ParseError,
            >(m) && total_count(m) == row_count(data@),
            Err(e) => r == Err::<Table, ParseError>(e) && (e == ParseError::RowTooLarge || aggregate(
                data@,
            ) == Err::<TableView, ParseError>(e)),
        },
{
    let n: usize = data.len();
    let ghost all = pages_of(data@, page_size as nat);
    proof {
        lemma_pages_do_not_matter(all);
        lemma_pages_of_flatten(data@, page_size as nat);
        lemma_total_count_empty();
        lemma_aggregate_counts_rows(Map::empty(), data@);
        assert(data@.subrange(0, n as int) =~= data@);
    }
    let mut tokenizer = LineTokenizer::new();
    let mut pos: usize = 0;
    while pos < n
        invariant
            n == data.len(),
            pos <= n,
            page_size > 0,
            tokenizer.wf(),
            total_count(tokenizer@.table) + tokenizer@.pending.len() <= pos,
            tokenize(pages_of(data@, page_size as nat)) == match run(
                tokenizer@,
                pages_of(data@.subrange(pos as int, n as int), page_size as nat),
            ) {
                Err(e) => Err(e),
                Ok(s) => finish_spec(s, true),
            },
        decreases n - pos,
    {
        let end: usize = if n - pos <= page_size { n } else { pos + page_size };
        let page = slice_subrange(data, pos, end);
        proof {
            let left = data@.subrange(pos as int, n as int);
            let pages = pages_of(left, page_size as nat);
            let later = pages_of(data@.subrange(end as int, n as int), page_size as nat);
            assert(page@ =~= left.subrange(0, end - pos));
            assert(data@.subrange(end as int, n as int) =~= left.subrange(
                end - pos,
                left.len() as int,
            ));
            if end == n {
                assert(page@ =~= left);
            }
            assert(pages.len() > 0);
            assert(pages.first() == page@);
            assert(pages.drop_first() =~= later);
            assert(run(tokenizer@, pages) == match feed_spec(tokenizer@, page@) {
                Err(e) => Err(e),
                Ok(next) => run(next, later),
            });
        }
        if let Err(e) = tokenizer.feed(page) {
            proof {
                lemma_pages_do_not_matter(pages_of(data@, page_size as nat));
                lemma_pages_of_flatten(data@, page_size as nat);
            }
            return Err(e);
        }
        pos = end;
    }
    proof {
        assert(data@.subrange(n as int, n as int) =~= Seq::<u8>::empty());
    }
    tokenizer.finish(true)
}

} // verus!
