//! Cutting an input into byte ranges that hold whole rows.

use vstd::prelude::*;
use crate::bytes::{find_byte, first_index, lemma_first_index, NEWLINE};
use crate::rows::{
    aggregate, lemma_partitions_do_not_matter, merge_partials, newline_aligned, nothing_after,
    whole_rows,
};

verus! {

/// A half-open range `[start, end)` of the bytes of an input.
#[derive(Debug, Clone, Copy, PartialEq, Eq, Structural)]
pub struct Partition {
    pub start: u64,
    pub end: u64,
}

impl Partition {
    /// Whether the range reaches the end of an input of `len` bytes. Only
    /// there does the end of the input terminate a last row that has no
    /// newline; anywhere else such a row is cut off.
    pub fn reaches_end(&self, len: u64) -> (reaches: bool)
        ensures
            reaches == (self.end == len),
    {
        self.end == len
    }

    /// The number of bytes in the range; 0 where the end lies before the start.
    pub fn len(&self) -> (n: u64)
        ensures
            n == if self.start <= self.end {
                self.end - self.start
            } else {
                0
            },
    {
        if self.start <= self.end {
            self.end - self.start
        } else {
            0
        }
    }
}

/// The `i`-th naive split point of an input of `len` bytes that is cut into
/// `n` parts: `i` times the `n`-th part of `len`, rounded down.
pub open spec fn split_point_spec(len: int, n: int, i: int) -> int {
    i * (len / n)
}

/// The boundary that a split point `p` is moved to: the position right
/// after the first newline at or after `p`, or the end of the input if no
/// newline follows.
pub open spec fn aligned(data: Seq<u8>, p: int) -> int {
    if p >= data.len() {
        data.len() as int
    } else {
        let found = p + first_index(data.subrange(p, data.len() as int), NEWLINE);
        if found < data.len() {
            found + 1
        } else {
            data.len() as int
        }
    }
}

/// The `i`-th boundary of an input that is cut into `n` parts: the start of
/// the input, its aligned split points, and its end.
pub open spec fn boundary(data: Seq<u8>, n: int, i: int) -> int {
    if i <= 0 {
        0
    } else if i >= n {
        data.len() as int
    } else {
        aligned(data, split_point_spec(data.len() as int, n, i))
    }
}

/// The ranges that an input is cut into for `n` workers: each from one
/// boundary to the next.
pub open spec fn partition_spec(data: Seq<u8>, n: nat) -> Seq<Partition> {
    Seq::new(
        n,
        |i: int|
            Partition {
                start: boundary(data, n as int, i) as u64,
                end: boundary(data, n as int, i + 1) as u64,
            },
    )
}

/// Whether `at` is a place where a row of `data` begins or the input ends:
/// the start, the end, or right after a newline.
pub open spec fn row_boundary(data: Seq<u8>, at: int) -> bool {
    at == 0 || at == data.len() || (0 < at < data.len() && data[at - 1] == NEWLINE)
}

/// Whether `parts` cut `data` into consecutive ranges of whole rows: the
/// first starts at 0, each starts where the one before ends, the last ends
/// at the end of `data`, and every cut is a row boundary.
pub open spec fn is_partitioning(data: Seq<u8>, parts: Seq<Partition>) -> bool {
    &&& parts.len() > 0
    &&& parts[0].start == 0
    &&& parts.last().end == data.len()
    &&& forall|i: int| 0 <= i < parts.len() ==> (#[trigger] parts[i]).start <= parts[i].end
    &&& forall|i: int, j: int|
        0 <= i && j == i + 1 && j < parts.len() ==> (#[trigger] parts[i]).end == (#[trigger] parts[j]).start
    &&& forall|i: int| 0 <= i < parts.len() ==> row_boundary(data, (#[trigger] parts[i]).end as int)
}

/// The bytes of each part.
pub open spec fn slices(data: Seq<u8>, parts: Seq<Partition>) -> Seq<Seq<u8>> {
    Seq::new(parts.len(), |i: int| data.subrange(parts[i].start as int, parts[i].end as int))
}

/// An aligned boundary lies at or after its split point, within the input,
/// and is a row boundary.
pub proof fn lemma_aligned(data: Seq<u8>, p: int)
    requires
        0 <= p,
    ensures
        aligned(data, p) <= data.len(),
        p <= data.len() ==> p <= aligned(data, p),
        row_boundary(data, aligned(data, p)),
{
    if p < data.len() {
        lemma_first_index(data.subrange(p, data.len() as int), NEWLINE);
        let i = first_index(data.subrange(p, data.len() as int), NEWLINE);
        if p + i < data.len() {
            assert(data.subrange(p, data.len() as int)[i] == data[p + i]);
        }
    }
}

/// A later split point is moved to the same boundary or to a later one.
pub proof fn lemma_aligned_monotone(data: Seq<u8>, p: int, q: int)
    requires
        0 <= p <= q,
    ensures
        aligned(data, p) <= aligned(data, q),
{
    lemma_aligned(data, p);
    lemma_aligned(data, q);
    if q < data.len() {
        let tail_p = data.subrange(p, data.len() as int);
        let tail_q = data.subrange(q, data.len() as int);
        lemma_first_index(tail_p, NEWLINE);
        lemma_first_index(tail_q, NEWLINE);
        let j = q + first_index(tail_q, NEWLINE);
        if j < data.len() {
            assert(tail_q[j - q] == data[j]);
            if first_index(tail_p, NEWLINE) > j - p {
                assert(tail_p[j - p] == data[j]);
            }
        }
    }
}

/// The `i`-th naive split point of an input of `len` bytes cut into `n` parts.
pub fn split_point(len: u64, n: u64, i: u64) -> (p: u64)
    requires
        n > 0,
        i <= n,
    ensures
        p == split_point_spec(len as int, n as int, i as int),
        p <= len,
{
    let step: u64 = len / n;
    proof {
        assert(i * step <= len) by (nonlinear_arith)
            requires
                i <= n,
                n > 0,
                step == len / n,
        ;
    }
    i * step
}

/// The boundary that a chunk of the input decides: `chunk` holds the bytes
/// from position `offset` on. Where it holds a newline, the boundary is
/// the position right after its first one; where it holds none, the
/// boundary lies further on, or at the end of the input.
pub fn boundary_in_chunk(chunk: &[u8], offset: u64) -> (at: Option<u64>)
    requires
        offset + chunk@.len() <= u64::MAX,
    ensures
        at == if first_index(chunk@, NEWLINE) < chunk@.len() {
            Some((offset + first_index(chunk@, NEWLINE) + 1) as u64)
        } else {
            None
        },
{
    let found: usize = find_byte(chunk, 0, NEWLINE);
    assert(chunk@.subrange(0, chunk@.len() as int) =~= chunk@);
    if found < chunk.len() {
        Some(offset + found as u64 + 1)
    } else {
        None
    }
}

/// The ranges between consecutive boundaries: from 0 to the first, from each
/// to the next, and from the last to `len`. None unless the boundaries
/// increase, weakly, and none lies beyond `len`.
pub fn partitions_between(len: u64, boundaries: &Vec<u64>) -> (parts: Option<Vec<Partition>>)
    ensures
        parts is Some <==> (forall|i: int| 0 <= i < boundaries@.len() ==> #[trigger] boundaries@[i] <= len)
            && (forall|i: int, j: int|
            0 <= i <= j < boundaries@.len() ==> #[trigger] boundaries@[i] <= #[trigger] boundaries@[j]),
        parts is Some ==> {
            let made = parts.unwrap()@;
            &&& made.len() == boundaries@.len() + 1
            &&& forall|i: int|
                0 <= i < made.len() ==> (#[trigger] made[i]).start == (if i == 0 {
                    0
                } else {
                    boundaries@[i - 1]
                }) && made[i].end == (if i == boundaries@.len() {
                    len
                } else {
                    boundaries@[i]
                })
        },
{
    let n: usize = boundaries.len();
    let mut parts: Vec<Partition> = Vec::new();
    let mut start: u64 = 0;
    let mut i: usize = 0;
    while i < n
        invariant
            n == boundaries@.len(),
            i <= n,
            parts@.len() == i,
            start <= len,
            start == (if i == 0 { 0 } else { boundaries@[i - 1] }),
            forall|k: int| 0 <= k < i ==> #[trigger] boundaries@[k] <= len,
            forall|k: int, j: int| 0 <= k <= j < i ==> #[trigger] boundaries@[k] <= #[trigger] boundaries@[j],
            forall|k: int|
                0 <= k < i ==> (#[trigger] parts@[k]).start == (if k == 0 {
                    0
                } else {
                    boundaries@[k - 1]
                }) && parts@[k].end == boundaries@[k],
        decreases n - i,
    {
        let end: u64 = boundaries[i];
        if end < start || end > len {
            proof {
                if end < start {
                    assert(i > 0);
                    assert(boundaries@[i - 1] > boundaries@[i as int]);
                }
            }
            return None;
        }
        proof {
            assert forall|k: int, j: int| 0 <= k <= j < i + 1 implies #[trigger] boundaries@[k]
                <= #[trigger] boundaries@[j] by {
                if j == i && k < i {
                    assert(boundaries@[k] <= boundaries@[i - 1]);
                }
            }
        }
        parts.push(Partition { start, end });
        start = end;
        i = i + 1;
    }
    parts.push(Partition { start, end: len });
    Some(parts)
}

/// Cuts an input that is held in memory into `n` ranges of whole rows: the
/// `n - 1` naive split points are each moved forward to right after the
/// next newline. Split points that fall into one row give empty ranges;
/// where no newline follows a split point, the ranges from there on are
/// empty but the one before, which reaches the end.
pub fn partition(data: &[u8], n: usize) -> (parts: Vec<Partition>)
    requires
        n > 0,
    ensures
        parts@ == partition_spec(data@, n as nat),
        is_partitioning(data@, parts@),
{
    let len: usize = data.len();
    let mut parts: Vec<Partition> = Vec::new();
    let mut start: usize = 0;
    let mut i: usize = 1;
    while i < n
        invariant
            len == data@.len(),
            1 <= i <= n,
            parts@.len() == i - 1,
            start <= len,
            start == boundary(data@, n as int, i - 1),
            row_boundary(data@, start as int),
            forall|k: int|
                0 <= k < i - 1 ==> (#[trigger] parts@[k]).start == boundary(data@, n as int, k)
                    && parts@[k].end == boundary(data@, n as int, k + 1),
            forall|k: int| 0 <= k < i - 1 ==> (#[trigger] parts@[k]).start <= parts@[k].end,
            forall|k: int| 0 <= k < i - 1 ==> row_boundary(data@, (#[trigger] parts@[k]).end as int),
        decreases n - i,
    {
        let p: usize = split_point(len as u64, n as u64, i as u64) as usize;
        let found: usize = find_byte(data, p, NEWLINE);
        let end: usize = if found < len { found + 1 } else { len };
        proof {
            let q = split_point_spec(len as int, n as int, i - 1);
            assert(0 <= q <= p) by (nonlinear_arith)
                requires
                    q == (i - 1) * (len as int / n as int),
                    p == i * (len as int / n as int),
                    i >= 1,
                    len >= 0,
                    n > 0,
            ;
            lemma_aligned(data@, p as int);
            if i > 1 {
                lemma_aligned_monotone(data@, q, p as int);
            }
        }
        parts.push(Partition { start: start as u64, end: end as u64 });
        start = end;
        i = i + 1;
    }
    parts.push(Partition { start: start as u64, end: len as u64 });
    assert(parts@ =~= partition_spec(data@, n as nat));
    parts
}

/// The parts of a partitioning, one after the other, are the input, and
/// no part cuts a row in two.
pub proof fn lemma_partitioning_slices(data: Seq<u8>, parts: Seq<Partition>)
    requires
        is_partitioning(data, parts),
    ensures
        slices(data, parts).flatten() == data,
        whole_rows(slices(data, parts)),
{
    let cut = slices(data, parts);
    lemma_slices_from(data, parts, 0);
    assert(data.subrange(0, data.len() as int) =~= data);
    assert(cut.skip(0) =~= cut);
    assert forall|i: int| 0 <= i < cut.len() - 1 implies newline_aligned(#[trigger] cut[i])
        || nothing_after(cut, i) by {
        lemma_part_bounds(data, parts, i);
        assert(row_boundary(data, parts[i].end as int));
        if parts[i].end == data.len() {
            assert forall|j: int| i < j < cut.len() implies (#[trigger] cut[j]).len() == 0 by {
                lemma_starts_increase(data, parts, i + 1, j);
                lemma_part_bounds(data, parts, j);
            }
        } else if cut[i].len() > 0 {
            assert(cut[i].last() == data[parts[i].end - 1]);
        }
    }
}

/// A later part starts at or after the start of an earlier one.
proof fn lemma_starts_increase(data: Seq<u8>, parts: Seq<Partition>, i: int, j: int)
    requires
        is_partitioning(data, parts),
        0 <= i <= j < parts.len(),
    ensures
        parts[i].start <= parts[j].start,
    decreases j - i,
{
    if i < j {
        lemma_starts_increase(data, parts, i + 1, j);
        lemma_part_bounds(data, parts, i);
    }
}

/// The cuts of a partitioning increase and lie within the input.
pub proof fn lemma_part_bounds(data: Seq<u8>, parts: Seq<Partition>, i: int)
    requires
        is_partitioning(data, parts),
        0 <= i < parts.len(),
    ensures
        0 <= parts[i].start <= parts[i].end <= data.len(),
    decreases parts.len() - i,
{
    if i < parts.len() - 1 {
        lemma_part_bounds(data, parts, i + 1);
    }
}

/// The parts from the `i`-th on, one after the other, are the input from
/// the start of the `i`-th part on.
proof fn lemma_slices_from(data: Seq<u8>, parts: Seq<Partition>, i: int)
    requires
        is_partitioning(data, parts),
        0 <= i <= parts.len(),
    ensures
        i < parts.len() ==> slices(data, parts).skip(i).flatten() == data.subrange(
            parts[i].start as int,
            data.len() as int,
        ),
        i == parts.len() ==> slices(data, parts).skip(i).flatten() == Seq::<u8>::empty(),
    decreases parts.len() - i,
{
    let rest = slices(data, parts).skip(i);
    if i < parts.len() {
        lemma_slices_from(data, parts, i + 1);
        lemma_part_bounds(data, parts, i);
        assert(rest.first() == data.subrange(parts[i].start as int, parts[i].end as int));
        assert(rest.drop_first() =~= slices(data, parts).skip(i + 1));
        if i + 1 < parts.len() {
            lemma_part_bounds(data, parts, i + 1);
        }
        assert(rest.flatten() =~= data.subrange(parts[i].start as int, data.len() as int));
    } else {
        assert(rest =~= Seq::<Seq<u8>>::empty());
    }
}

/// Aggregating the parts of a partitioning apart and merging their tables
/// gives the table of the whole input.
pub proof fn lemma_partitioning_is_immaterial(data: Seq<u8>, parts: Seq<Partition>)
    requires
        is_partitioning(data, parts),
    ensures
        merge_partials(slices(data, parts)) == aggregate(data),
{
    lemma_partitioning_slices(data, parts);
    lemma_partitions_do_not_matter(slices(data, parts));
}

} // verus!
