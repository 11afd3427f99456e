//! The bytes of the row format, and searching byte sequences.

use vstd::prelude::*;

verus! {

/// The byte `'0'`.
pub const DIGIT_ZERO: u8 = 0x30;

/// The byte `'9'`.
pub const DIGIT_NINE: u8 = 0x39;

/// The byte `'-'`.
pub const MINUS: u8 = 0x2d;

/// The byte `'.'`.
pub const POINT: u8 = 0x2e;

/// The byte `';'`, which parts a row's key from its value.
pub const SEPARATOR: u8 = 0x3b;

/// The byte `'\n'`, which ends a row.
pub const NEWLINE: u8 = 0x0a;

/// The byte `'{'`, which opens the report.
pub const OPEN_BRACE: u8 = 0x7b;

/// The byte `'}'`, which closes the report.
pub const CLOSE_BRACE: u8 = 0x7d;

/// The byte `'='`, which parts a key of the report from its numbers.
pub const EQUALS: u8 = 0x3d;

/// The byte `'/'`, which parts the numbers of one key.
pub const SLASH: u8 = 0x2f;

/// The byte `','`.
pub const COMMA: u8 = 0x2c;

/// The byte `' '`.
pub const SPACE: u8 = 0x20;

/// The index of the first `b` in `s`, or `s.len()` if `s` holds none.
pub open spec fn first_index(s: Seq<u8>, b: u8) -> int
    decreases s.len(),
{
    if s.len() == 0 {
        0
    } else if s[0] == b {
        0
    } else {
        1 + first_index(s.subrange(1, s.len() as int), b)
    }
}

/// `first_index` lies within `s`, points at a `b` unless it is `s.len()`,
/// and no `b` stands before it.
pub proof fn lemma_first_index(s: Seq<u8>, b: u8)
    ensures
        0 <= first_index(s, b) <= s.len(),
        first_index(s, b) < s.len() ==> s[first_index(s, b)] == b,
        forall|j: int| 0 <= j < first_index(s, b) ==> s[j] != b,
    decreases s.len(),
{
    if s.len() > 0 && s[0] != b {
        let rest = s.subrange(1, s.len() as int);
        lemma_first_index(rest, b);
        assert forall|j: int| 0 <= j < first_index(s, b) implies s[j] != b by {
            if j > 0 {
                assert(rest[j - 1] == s[j]);
            }
        }
    }
}

/// An index that no `b` precedes, and that points at a `b` or at the end,
/// is `first_index`.
pub proof fn lemma_first_index_is(s: Seq<u8>, b: u8, i: int)
    requires
        0 <= i <= s.len(),
        i < s.len() ==> s[i] == b,
        forall|j: int| 0 <= j < i ==> s[j] != b,
    ensures
        first_index(s, b) == i,
{
    lemma_first_index(s, b);
}

/// Whether `s` holds a `b`.
pub open spec fn has_byte(s: Seq<u8>, b: u8) -> bool {
    first_index(s, b) < s.len()
}

/// The first `b` of `s` is also the first `b` of `s` followed by anything.
pub proof fn lemma_first_index_prefix(s: Seq<u8>, t: Seq<u8>, b: u8)
    requires
        has_byte(s, b),
    ensures
        first_index(s + t, b) == first_index(s, b),
{
    lemma_first_index(s, b);
    lemma_first_index_is(s + t, b, first_index(s, b));
}

/// Where `s` holds no `b`, the first `b` of `s + t` is the first `b` of `t`.
pub proof fn lemma_first_index_skip(s: Seq<u8>, t: Seq<u8>, b: u8)
    requires
        !has_byte(s, b),
    ensures
        first_index(s + t, b) == s.len() + first_index(t, b),
{
    lemma_first_index(s, b);
    lemma_first_index(t, b);
    let i = s.len() + first_index(t, b);
    assert forall|j: int| 0 <= j < i implies (s + t)[j] != b by {
        if j >= s.len() {
            assert((s + t)[j] == t[j - s.len()]);
        }
    }
    lemma_first_index_is(s + t, b, i);
}

/// Finds the first `b` in `s` at or after `start`; `s.len()` if there is none.
pub fn find_byte(s: &[u8], start: usize, b: u8) -> (i: usize)
    requires
        start <= s.len(),
    ensures
        i == start + first_index(s@.subrange(start as int, s.len() as int), b),
        start <= i <= s.len(),
{
    let n: usize = s.len();
    let mut i: usize = start;
    while i < n && s[i] != b
        invariant
            n == s.len(),
            start <= i <= n,
            forall|j: int| start <= j < i ==> s[j] != b,
        decreases n - i,
    {
        i = i + 1;
    }
    proof {
        let tail = s@.subrange(start as int, n as int);
        lemma_first_index_is(tail, b, i - start);
    }
    i
}

} // verus!
