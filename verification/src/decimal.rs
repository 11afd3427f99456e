//! Signed decimals in fixed point: the grammar, the parser, and rounding.
//!
//! A value is held as the integer number of its billionths, so that sums,
//! comparisons and means are exact. A value written with more than nine
//! fractional digits is taken to the nearest billionth.

use vstd::arithmetic::div_mod::lemma_fundamental_div_mod_converse;
use vstd::prelude::*;
use crate::bytes::{first_index, lemma_first_index, lemma_first_index_is};
use crate::bytes::{DIGIT_NINE, DIGIT_ZERO, MINUS, POINT};
use crate::error::ParseError;

verus! {

/// The number of fractional digits that a value holds. Digits beyond them
/// decide how the last one is rounded.
pub const FRACTION_DIGITS: usize = 9;

/// The number of units that make up 1.
pub const UNITS_PER_ONE: i64 = 1_000_000_000;

/// Ten to the power `n`.
pub open spec fn pow10(n: nat) -> nat
    decreases n,
{
    if n == 0 {
        1
    } else {
        10 * pow10((n - 1) as nat)
    }
}

/// Whether `b` is one of `'0'` to `'9'`.
pub open spec fn is_digit(b: u8) -> bool {
    DIGIT_ZERO <= b <= DIGIT_NINE
}

/// Whether every byte of `s` is a digit.
pub open spec fn all_digits(s: Seq<u8>) -> bool {
    forall|i: int| 0 <= i < s.len() ==> is_digit(#[trigger] s[i])
}

/// The number that the digits of `s` write in base ten.
pub open spec fn digits_value(s: Seq<u8>) -> nat
    decreases s.len(),
{
    if s.len() == 0 {
        0
    } else {
        digits_value(s.drop_last()) * 10 + (s.last() - DIGIT_ZERO) as nat
    }
}

/// Whether `s` begins with a minus sign.
pub open spec fn is_negative(s: Seq<u8>) -> bool {
    s.len() > 0 && s[0] == MINUS
}

/// `s` without its minus sign.
pub open spec fn unsigned_part(s: Seq<u8>) -> Seq<u8> {
    if is_negative(s) {
        s.subrange(1, s.len() as int)
    } else {
        s
    }
}

/// Whether `s` holds a decimal point after its sign.
pub open spec fn has_point(s: Seq<u8>) -> bool {
    first_index(unsigned_part(s), POINT) < unsigned_part(s).len()
}

/// What stands between the sign and the first decimal point.
pub open spec fn integer_digits(s: Seq<u8>) -> Seq<u8> {
    unsigned_part(s).subrange(0, first_index(unsigned_part(s), POINT))
}

/// What follows the first decimal point; empty if there is none.
pub open spec fn fraction_digits(s: Seq<u8>) -> Seq<u8> {
    let u = unsigned_part(s);
    if has_point(s) {
        u.subrange(first_index(u, POINT) + 1, u.len() as int)
    } else {
        Seq::empty()
    }
}

/// The grammar of a value: `'-'? digit+ ('.' digit+)?`.
pub open spec fn is_decimal(s: Seq<u8>) -> bool {
    &&& integer_digits(s).len() > 0
    &&& all_digits(integer_digits(s))
    &&& has_point(s) ==> fraction_digits(s).len() > 0 && all_digits(fraction_digits(s))
}

/// The signed integer formed by all digits of `s`, the point left out.
pub open spec fn mantissa(s: Seq<u8>) -> int {
    let m = digits_value(integer_digits(s) + fraction_digits(s));
    if is_negative(s) {
        -m
    } else {
        m as int
    }
}

/// The value of `s` in units: its mantissa divided by ten to the number of
/// its fractional digits, times [`UNITS_PER_ONE`]. With at most
/// [`FRACTION_DIGITS`] fractional digits that is the mantissa times a power
/// of ten, exactly. With more it is the mantissa divided by a power of ten,
/// rounded to the nearest unit, ties to the even neighbour.
pub open spec fn decimal_units(s: Seq<u8>) -> int {
    let f = fraction_digits(s).len();
    if f <= FRACTION_DIGITS {
        mantissa(s) * pow10((FRACTION_DIGITS - f) as nat)
    } else {
        rounded_quotient(mantissa(s), pow10((f - FRACTION_DIGITS) as nat) as int)
    }
}

/// Whether a value of `units` units can be held: its magnitude is at most
/// `i64::MAX`.
pub open spec fn representable(units: int) -> bool {
    -(i64::MAX as int) <= units <= i64::MAX as int
}

/// What parsing `s` gives: `InvalidDigit` if `s` is no decimal, `OutOfRange`
/// if it is one whose value in units is too large to be held, and that
/// value otherwise.
pub open spec fn parse_decimal_spec(s: Seq<u8>) -> Result<i64, ParseError> {
    if !is_decimal(s) {
        Err(ParseError::InvalidDigit)
    } else if !representable(decimal_units(s)) {
        Err(ParseError::OutOfRange)
    } else {
        Ok(decimal_units(s) as i64)
    }
}

/// Whether the digits `tail`, which follow the last digit held, round it
/// up: they write more than a half, or exactly a half while the digits held
/// write an odd number.
pub open spec fn rounds_up(held: nat, tail: Seq<u8>) -> bool {
    let first = tail[0] - DIGIT_ZERO;
    let rest = digits_value(tail.subrange(1, tail.len() as int));
    first > 5 || (first == 5 && (rest > 0 || held % 2 == 1))
}

/// Digits written after other digits: the value of the first is shifted by
/// one place for each digit that follows.
pub proof fn lemma_digits_value_concat(head: Seq<u8>, tail: Seq<u8>)
    ensures
        digits_value(head + tail) == digits_value(head) * pow10(tail.len()) + digits_value(tail),
    decreases tail.len(),
{
    if tail.len() == 0 {
        assert(head + tail =~= head);
        assert(digits_value(head) * 1 == digits_value(head)) by (nonlinear_arith);
    } else {
        let init = tail.drop_last();
        lemma_digits_value_concat(head, init);
        assert((head + tail).drop_last() =~= head + init);
        assert((head + tail).last() == tail.last());
        let h = digits_value(head);
        let p = pow10(init.len());
        let t = digits_value(init);
        let d = (tail.last() - DIGIT_ZERO) as nat;
        assert(pow10(tail.len()) == 10 * p);
        assert(digits_value(tail) == t * 10 + d);
        assert(digits_value(head + tail) == (h * p + t) * 10 + d);
        assert((h * p + t) * 10 + d == h * (10 * p) + (t * 10 + d)) by (nonlinear_arith);
    }
}

/// `n` digits write a number below ten to the `n`.
pub proof fn lemma_digits_value_bound(s: Seq<u8>)
    requires
        all_digits(s),
    ensures
        digits_value(s) < pow10(s.len()),
    decreases s.len(),
{
    if s.len() > 0 {
        let init = s.drop_last();
        assert(all_digits(init)) by {
            assert forall|i: int| 0 <= i < init.len() implies is_digit(#[trigger] init[i]) by {
                assert(init[i] == s[i]);
            }
        }
        lemma_digits_value_bound(init);
        assert(is_digit(s[s.len() - 1]));
    }
}

/// Dividing the number that digits write by ten to the number of the last
/// of them, and rounding, gives the number that the first digits write, or
/// one more where the last digits round up.
pub proof fn lemma_rounded_digits(head: Seq<u8>, tail: Seq<u8>)
    requires
        all_digits(tail),
        tail.len() > 0,
    ensures
        rounded_quotient_nat(digits_value(head + tail), pow10(tail.len())) == digits_value(head) + (
        if rounds_up(digits_value(head), tail) {
            1nat
        } else {
            0nat
        }),
{
    let q = digits_value(head);
    let r = digits_value(tail);
    let d = pow10(tail.len());
    let rest = tail.subrange(1, tail.len() as int);
    let one = tail.subrange(0, 1);
    let first = (tail[0] - DIGIT_ZERO) as nat;
    let v = digits_value(rest);
    let p = pow10(rest.len());
    lemma_digits_value_concat(head, tail);
    lemma_digits_value_bound(tail);
    assert(all_digits(rest)) by {
        assert forall|i: int| 0 <= i < rest.len() implies is_digit(#[trigger] rest[i]) by {
            assert(rest[i] == tail[i + 1]);
        }
    }
    lemma_digits_value_bound(rest);
    assert(is_digit(tail[0]));
    assert(digits_value(one) == first) by {
        lemma_digits_value_push(Seq::<u8>::empty(), tail[0]);
        assert(Seq::<u8>::empty().push(tail[0]) =~= one);
    }
    assert(one + rest =~= tail);
    lemma_digits_value_concat(one, rest);
    assert(d == 10 * p);
    assert(r == first * p + v);
    assert(q * d == d * q) by (nonlinear_arith);
    lemma_fundamental_div_mod_converse(digits_value(head + tail) as int, d as int, q as int, r as int);
    assert(first <= 4 ==> 2 * r < d) by (nonlinear_arith)
        requires r == first * p + v, v < p, d == 10 * p;
    assert(first >= 6 ==> 2 * r > d) by (nonlinear_arith)
        requires r == first * p + v, v < p, d == 10 * p, p >= 1;
    assert(first == 5 ==> (2 * r >= d && (2 * r == d <==> v == 0))) by (nonlinear_arith)
        requires r == first * p + v, v < p, d == 10 * p;
}

/// Appending a digit multiplies the value by ten and adds the digit.
pub proof fn lemma_digits_value_push(s: Seq<u8>, b: u8)
    ensures
        digits_value(s.push(b)) == digits_value(s) * 10 + (b - DIGIT_ZERO) as nat,
{
    assert(s.push(b).drop_last() =~= s);
}

/// The powers of ten that the parser uses.
pub proof fn lemma_pow10_values()
    ensures
        pow10(0) == 1,
        pow10(1) == 10,
        pow10(2) == 100,
        pow10(3) == 1_000,
        pow10(4) == 10_000,
        pow10(5) == 100_000,
        pow10(6) == 1_000_000,
        pow10(7) == 10_000_000,
        pow10(8) == 100_000_000,
        pow10(9) == 1_000_000_000,
{
    reveal_with_fuel(pow10, 10);
}

/// Ten to the power `n`, for the powers that fit the fraction.
pub fn power_of_ten(n: usize) -> (p: u64)
    requires
        n <= FRACTION_DIGITS,
    ensures
        p == pow10(n as nat),
        1 <= p <= 1_000_000_000,
{
    proof {
        lemma_pow10_values();
    }
    let mut p: u64 = 1;
    let mut i: usize = 0;
    while i < n
        invariant
            i <= n <= 9,
            p == pow10(i as nat),
            1 <= p <= 1_000_000_000,
            i < 9 ==> p <= 100_000_000,
        decreases n - i,
    {
        proof {
            reveal_with_fuel(pow10, 2);
            lemma_pow10_values();
        }
        p = p * 10;
        i = i + 1;
    }
    p
}

/// The digits read so far, as a magnitude that saturates: once the digits
/// write more than `i64::MAX`, only that fact is kept.
struct Magnitude {
    value: u64,
    over: bool,
}

impl Magnitude {
    spec fn holds(&self, digits: Seq<u8>) -> bool {
        if self.over {
            digits_value(digits) > i64::MAX
        } else {
            self.value == digits_value(digits) && self.value <= i64::MAX
        }
    }

    fn push(&mut self, b: u8, Ghost(digits): Ghost<Seq<u8>>)
        requires
            is_digit(b),
            old(self).holds(digits),
        ensures
            final(self).holds(digits.push(b)),
    {
        proof {
            lemma_digits_value_push(digits, b);
        }
        let d: u64 = (b - DIGIT_ZERO) as u64;
        if !self.over {
            if self.value > (i64::MAX as u64 - d) / 10 {
                self.over = true;
            } else {
                self.value = self.value * 10 + d;
            }
        }
    }
}

/// Reads digits of `bs` from `start` on, up to the first byte that is
/// none, and `limit` of them at most.
fn scan_digits(
    bs: &[u8],
    start: usize,
    limit: usize,
    acc: &mut Magnitude,
    Ghost(before): Ghost<Seq<u8>>,
) -> (end: usize)
    requires
        start <= bs.len(),
        old(acc).holds(before),
    ensures
        start <= end <= bs.len(),
        end - start <= limit,
        all_digits(bs@.subrange(start as int, end as int)),
        end < bs.len() && end - start < limit ==> !is_digit(bs[end as int]),
        final(acc).holds(before + bs@.subrange(start as int, end as int)),
{
    let n: usize = bs.len();
    let mut i: usize = start;
    assert(before + bs@.subrange(start as int, start as int) =~= before);
    while i < n && i - start < limit && DIGIT_ZERO <= bs[i] && bs[i] <= DIGIT_NINE
        invariant
            n == bs.len(),
            start <= i <= n,
            i - start <= limit,
            all_digits(bs@.subrange(start as int, i as int)),
            acc.holds(before + bs@.subrange(start as int, i as int)),
        decreases n - i,
    {
        let ghost read = before + bs@.subrange(start as int, i as int);
        acc.push(bs[i], Ghost(read));
        proof {
            assert(read.push(bs[i as int]) =~= before + bs@.subrange(start as int, i + 1));
        }
        i = i + 1;
    }
    i
}

/// Reads the digits that follow the last digit held, from `start` on up to
/// the first byte that is no digit. Gives where they end, the first of them
/// and whether any later one is not zero: what rounding needs of them.
fn scan_excess(bs: &[u8], start: usize) -> (r: (usize, u8, bool))
    requires
        start <= bs.len(),
    ensures
        start <= r.0 <= bs.len(),
        all_digits(bs@.subrange(start as int, r.0 as int)),
        r.0 < bs.len() ==> !is_digit(bs[r.0 as int]),
        r.0 == start ==> r.1 == 0 && !r.2,
        r.0 > start ==> r.1 == bs[start as int] - DIGIT_ZERO && r.2 == (digits_value(
            bs@.subrange(start + 1, r.0 as int),
        ) > 0),
{
    let n: usize = bs.len();
    if start >= n || bs[start] < DIGIT_ZERO || bs[start] > DIGIT_NINE {
        return (start, 0, false);
    }
    let first: u8 = bs[start] - DIGIT_ZERO;
    let mut sticky: bool = false;
    let mut i: usize = start + 1;
    while i < n && DIGIT_ZERO <= bs[i] && bs[i] <= DIGIT_NINE
        invariant
            n == bs.len(),
            start < i <= n,
            is_digit(bs[start as int]),
            all_digits(bs@.subrange(start as int, i as int)),
            sticky == (digits_value(bs@.subrange(start + 1, i as int)) > 0),
        decreases n - i,
    {
        proof {
            let read = bs@.subrange(start + 1, i as int);
            lemma_digits_value_push(read, bs[i as int]);
            assert(read.push(bs[i as int]) =~= bs@.subrange(start + 1, i + 1));
        }
        if bs[i] != DIGIT_ZERO {
            sticky = true;
        }
        i = i + 1;
    }
    (i, first, sticky)
}

/// Parses a value of the form `'-'? digit+ ('.' digit+)?` into its number of
/// units. Any number of digits is read: up to [`FRACTION_DIGITS`]
/// fractional digits are held exactly and further ones round the last.
pub fn parse_decimal(bs: &[u8]) -> (r: Result<i64, ParseError>)
    ensures
        r == parse_decimal_spec(bs@),
{
    let n: usize = bs.len();
    let negative: bool = n > 0 && bs[0] == MINUS;
    let start: usize = if negative { 1 } else { 0 };
    let ghost u = unsigned_part(bs@);
    assert(u =~= bs@.subrange(start as int, n as int));
    let mut acc = Magnitude { value: 0, over: false };
    let point: usize = scan_digits(bs, start, n, &mut acc, Ghost(Seq::empty()));
    let ghost whole = bs@.subrange(start as int, point as int);
    proof {
        assert(Seq::<u8>::empty() + whole =~= whole);
        assert forall|j: int| 0 <= j < point - start implies u[j] != POINT by {
            assert(is_digit(whole[j]));
        }
    }
    if point == start {
        proof {
            lemma_first_index(u, POINT);
            if integer_digits(bs@).len() > 0 {
                assert(integer_digits(bs@)[0] == u[0]);
            }
        }
        return Err(ParseError::InvalidDigit);
    }
    if point == n {
        proof {
            lemma_first_index_is(u, POINT, u.len() as int);
            assert(integer_digits(bs@) =~= whole);
            assert(integer_digits(bs@) + fraction_digits(bs@).take(0) =~= whole);
        }
        return finish_decimal(negative, &acc, 0, 0, 0, false, Ghost(bs@));
    }
    if bs[point] != POINT {
        proof {
            lemma_first_index(u, POINT);
            let p = first_index(u, POINT);
            assert(p > point - start);
            assert(integer_digits(bs@)[point - start] == u[point - start]);
        }
        return Err(ParseError::InvalidDigit);
    }
    proof {
        lemma_first_index_is(u, POINT, point - start);
        assert(integer_digits(bs@) =~= whole);
        assert(fraction_digits(bs@) =~= bs@.subrange(point + 1, n as int));
        assert(all_digits(whole));
    }
    parse_fraction(bs, point, negative, &mut acc)
}

/// Reads the fractional digits of a value whose point stands at `point`,
/// and gives the value. `acc` holds the integer digits.
fn parse_fraction(bs: &[u8], point: usize, negative: bool, acc: &mut Magnitude) -> (r: Result<
    i64,
    ParseError,
>)
    requires
        point < bs.len(),
        negative == is_negative(bs@),
        has_point(bs@),
        integer_digits(bs@).len() > 0,
        all_digits(integer_digits(bs@)),
        fraction_digits(bs@) == bs@.subrange(point + 1, bs.len() as int),
        old(acc).holds(integer_digits(bs@)),
    ensures
        r == parse_decimal_spec(bs@),
{
    let n: usize = bs.len();
    let ghost f = fraction_digits(bs@);
    let held: usize = scan_digits(bs, point + 1, FRACTION_DIGITS, acc, Ghost(integer_digits(bs@)));
    let (end, first, sticky) = scan_excess(bs, held);
    if end == point + 1 || end < n {
        proof {
            if f.len() > 0 {
                assert(f[end - point - 1] == bs@[end as int]);
            }
        }
        return Err(ParseError::InvalidDigit);
    }
    proof {
        let kept = held - point - 1;
        assert(all_digits(f)) by {
            assert forall|i: int| 0 <= i < f.len() implies is_digit(#[trigger] f[i]) by {
                if i < kept {
                    assert(f[i] == bs@.subrange(point + 1, held as int)[i]);
                } else {
                    assert(f[i] == bs@.subrange(held as int, end as int)[i - kept]);
                }
            }
        }
        assert(f.take(kept) =~= bs@.subrange(point + 1, held as int));
        if end > held {
            assert(is_digit(bs@.subrange(held as int, end as int)[0]));
            assert(f.skip(kept + 1) =~= bs@.subrange(held + 1, end as int));
        }
    }
    finish_decimal(negative, acc, held - point - 1, end - held, first, sticky, Ghost(bs@))
}

/// Takes the digits read to units and applies the sign. `acc` holds the
/// integer digits and the first `kept` fractional digits; `excess` further
/// fractional digits follow, of which `first` is the first and `sticky`
/// says whether a later one is not zero.
fn finish_decimal(
    negative: bool,
    acc: &Magnitude,
    kept: usize,
    excess: usize,
    first: u8,
    sticky: bool,
    Ghost(s): Ghost<Seq<u8>>,
) -> (r: Result<i64, ParseError>)
    requires
        is_decimal(s),
        negative == is_negative(s),
        kept <= FRACTION_DIGITS,
        kept + excess == fraction_digits(s).len(),
        excess > 0 ==> kept == FRACTION_DIGITS,
        acc.holds(integer_digits(s) + fraction_digits(s).take(kept as int)),
        excess > 0 ==> first == fraction_digits(s)[kept as int] - DIGIT_ZERO && sticky == (
        digits_value(fraction_digits(s).skip(kept + 1)) > 0),
    ensures
        r == parse_decimal_spec(s),
{
    if excess > 0 {
        return round_decimal(negative, acc, first, sticky, Ghost(s));
    }
    assert(fraction_digits(s).take(kept as int) =~= fraction_digits(s));
    let fraction_len: usize = kept;
    let ghost m = digits_value(integer_digits(s) + fraction_digits(s));
    let scale: u64 = power_of_ten(FRACTION_DIGITS - fraction_len);
    if acc.over {
        proof {
            assert(m * scale >= m) by (nonlinear_arith)
                requires scale >= 1, m >= 0;
            assert((-m) * scale == -(m * scale)) by (nonlinear_arith);
        }
        return Err(ParseError::OutOfRange);
    }
    let limit: u64 = i64::MAX as u64 / scale;
    if acc.value > limit {
        proof {
            assert(m * scale > i64::MAX) by (nonlinear_arith)
                requires m > (i64::MAX as int) / (scale as int), scale >= 1;
            assert((-m) * scale == -(m * scale)) by (nonlinear_arith);
        }
        return Err(ParseError::OutOfRange);
    }
    proof {
        assert(m * scale <= i64::MAX) by (nonlinear_arith)
            requires 0 <= m <= (i64::MAX as int) / (scale as int), scale >= 1;
        assert((-m) * scale == -(m * scale)) by (nonlinear_arith);
    }
    let units: i64 = (acc.value * scale) as i64;
    if negative {
        Ok(-units)
    } else {
        Ok(units)
    }
}

/// Rounds the digits held by the digits that follow them and applies the
/// sign: for a value with more than [`FRACTION_DIGITS`] fractional digits.
fn round_decimal(negative: bool, acc: &Magnitude, first: u8, sticky: bool, Ghost(s): Ghost<Seq<u8>>) -> (r:
    Result<i64, ParseError>)
    requires
        is_decimal(s),
        negative == is_negative(s),
        fraction_digits(s).len() > FRACTION_DIGITS,
        acc.holds(integer_digits(s) + fraction_digits(s).take(FRACTION_DIGITS as int)),
        first == fraction_digits(s)[FRACTION_DIGITS as int] - DIGIT_ZERO,
        sticky == (digits_value(fraction_digits(s).skip(FRACTION_DIGITS + 1)) > 0),
    ensures
        r == parse_decimal_spec(s),
{
    let ghost f = fraction_digits(s);
    let ghost head = integer_digits(s) + f.take(FRACTION_DIGITS as int);
    let ghost tail = f.skip(FRACTION_DIGITS as int);
    let ghost m = digits_value(integer_digits(s) + f);
    let ghost d = pow10(tail.len());
    proof {
        assert(head + tail =~= integer_digits(s) + f);
        assert(all_digits(tail)) by {
            assert forall|i: int| 0 <= i < tail.len() implies is_digit(#[trigger] tail[i]) by {
                assert(tail[i] == f[i + FRACTION_DIGITS as int]);
            }
        }
        assert(tail.subrange(1, tail.len() as int) =~= f.skip(FRACTION_DIGITS + 1));
        lemma_rounded_digits(head, tail);
        assert(m / d <= rounded_quotient_nat(m, d) <= m / d + 1);
        lemma_digits_value_concat(head, tail);
        lemma_digits_value_bound(tail);
        assert(digits_value(head) * d == d * digits_value(head)) by (nonlinear_arith);
        lemma_fundamental_div_mod_converse(
            m as int,
            d as int,
            digits_value(head) as int,
            digits_value(tail) as int,
        );
    }
    if acc.over {
        return Err(ParseError::OutOfRange);
    }
    let up: bool = first > 5 || (first == 5 && (sticky || acc.value % 2 == 1));
    if up && acc.value >= i64::MAX as u64 {
        return Err(ParseError::OutOfRange);
    }
    let units: i64 = if up { (acc.value + 1) as i64 } else { acc.value as i64 };
    if negative {
        Ok(-units)
    } else {
        Ok(units)
    }
}

/// The natural number nearest to `n / d`; of two equally near, the even one.
/// Meant for `d > 0`.
pub open spec fn rounded_quotient_nat(n: nat, d: nat) -> nat {
    let q = n / d;
    let r = n % d;
    if 2 * r < d || (2 * r == d && q % 2 == 0) {
        q
    } else {
        q + 1
    }
}

/// The integer nearest to `n / d`; of two equally near, the even one.
/// Meant for `d > 0`.
pub open spec fn rounded_quotient(n: int, d: int) -> int {
    if n >= 0 {
        rounded_quotient_nat(n as nat, d as nat) as int
    } else {
        -(rounded_quotient_nat((-n) as nat, d as nat) as int)
    }
}

/// Multiplying both the number divided and the divisor by the same factor
/// does not change the rounded quotient.
pub proof fn lemma_rounded_quotient_scaled(n: nat, d: nat, c: nat)
    requires
        d > 0,
        c > 0,
    ensures
        rounded_quotient_nat(n * c, d * c) == rounded_quotient_nat(n, d),
{
    let q = n / d;
    let r = n % d;
    assert(n == d * q + r && 0 <= r < d) by (nonlinear_arith)
        requires d > 0, q == n / d, r == n % d;
    assert(n * c == q * (d * c) + r * c) by (nonlinear_arith)
        requires n == d * q + r;
    assert(0 <= r * c < d * c) by (nonlinear_arith)
        requires 0 <= r < d, c > 0;
    assert(d * c > 0) by (nonlinear_arith)
        requires d > 0, c > 0;
    lemma_fundamental_div_mod_converse((n * c) as int, (d * c) as int, q as int, (r * c) as int);
    assert((2 * (r * c) < d * c) == (2 * r < d)) by (nonlinear_arith)
        requires c > 0;
    assert((2 * (r * c) == d * c) == (2 * r == d)) by (nonlinear_arith)
        requires c > 0;
}

/// Ten to a sum is the product of the powers.
pub proof fn lemma_pow10_add(a: nat, b: nat)
    ensures
        pow10(a + b) == pow10(a) * pow10(b),
        pow10(a) > 0,
    decreases a,
{
    if a == 0 {
        assert(1 * pow10(b) == pow10(b)) by (nonlinear_arith);
    } else {
        lemma_pow10_add((a - 1) as nat, b);
        assert(pow10(a + b) == 10 * pow10((a - 1 + b) as nat));
        assert(10 * (pow10((a - 1) as nat) * pow10(b)) == (10 * pow10((a - 1) as nat)) * pow10(b))
            by (nonlinear_arith);
    }
}

/// The value of a decimal in units is the integer nearest to its mantissa
/// times [`UNITS_PER_ONE`], divided by ten to the number of its fractional
/// digits; of two equally near, the even one.
pub proof fn lemma_decimal_units_is_nearest(s: Seq<u8>)
    ensures
        decimal_units(s) == rounded_quotient(
            mantissa(s) * pow10(FRACTION_DIGITS as nat),
            pow10(fraction_digits(s).len()) as int,
        ),
{
    let f = fraction_digits(s).len();
    let m = digits_value(integer_digits(s) + fraction_digits(s));
    let unit = pow10(9);
    lemma_pow10_add(9, 0);
    lemma_pow10_add(f, 0);
    assert(mantissa(s) == m || mantissa(s) == -m);
    assert((-m) * unit == -(m * unit)) by (nonlinear_arith);
    assert(m * unit >= 0) by (nonlinear_arith)
        requires m >= 0, unit > 0;
    if m > 0 {
        assert(m * unit > 0) by (nonlinear_arith)
            requires m > 0, unit > 0;
    } else {
        assert(m * unit == 0) by (nonlinear_arith)
            requires m == 0;
    }
    if f <= 9 {
        let up = pow10((9 - f) as nat);
        let d = pow10(f);
        lemma_pow10_add((9 - f) as nat, f);
        assert(m * unit == (m * up) * d) by (nonlinear_arith)
            requires unit == up * d;
        assert(1 * d == d) by (nonlinear_arith);
        lemma_rounded_quotient_scaled(m * up, 1, d);
        assert((m * up) / 1 == m * up && (m * up) % 1 == 0);
        assert((-m) * up == -(m * up)) by (nonlinear_arith);
    } else {
        let d = pow10((f - 9) as nat);
        lemma_pow10_add((f - 9) as nat, 9);
        lemma_pow10_add((f - 9) as nat, 0);
        lemma_rounded_quotient_scaled(m, d, unit);
    }
}

/// Rounding a quotient that lies between two natural numbers stays between them.
pub proof fn lemma_rounded_quotient_nat_between(n: nat, d: nat, lo: nat, hi: nat)
    requires
        d > 0,
        d * lo <= n <= d * hi,
    ensures
        lo <= rounded_quotient_nat(n, d) <= hi,
{
    let q = n / d;
    let r = n % d;
    assert(n == d * q + r && 0 <= r < d) by (nonlinear_arith)
        requires d > 0, q == n / d, r == n % d;
    assert(lo <= q) by (nonlinear_arith)
        requires d > 0, d * lo <= d * q + r, r < d;
    assert(q <= hi) by (nonlinear_arith)
        requires d > 0, d * q + r <= d * hi, r >= 0;
    if rounded_quotient_nat(n, d) == q + 1 {
        assert(r > 0);
        assert(q < hi) by (nonlinear_arith)
            requires d > 0, d * q + r <= d * hi, r > 0;
    }
}

/// Rounding a quotient that lies between two integers stays between them.
pub proof fn lemma_rounded_quotient_between(n: int, d: int, lo: int, hi: int)
    requires
        d > 0,
        d * lo <= n <= d * hi,
    ensures
        lo <= rounded_quotient(n, d) <= hi,
{
    if n >= 0 {
        assert(hi >= 0) by (nonlinear_arith)
            requires d > 0, 0 <= d * hi;
        let l: nat = if lo >= 0 { lo as nat } else { 0 };
        assert(d * l <= n) by (nonlinear_arith)
            requires d > 0, n >= 0, d * lo <= n, l == lo || l == 0;
        lemma_rounded_quotient_nat_between(n as nat, d as nat, l, hi as nat);
    } else {
        assert(lo < 0) by (nonlinear_arith)
            requires d > 0, d * lo < 0;
        let l: nat = if hi <= 0 { (-hi) as nat } else { 0 };
        assert(d * l <= -n) by (nonlinear_arith)
            requires d > 0, n < 0, n <= d * hi, l == -hi || l == 0;
        assert(-n <= d * (-lo)) by (nonlinear_arith)
            requires d * lo <= n;
        lemma_rounded_quotient_nat_between((-n) as nat, d as nat, l, (-lo) as nat);
    }
}

/// Divides and rounds to the nearest integer, ties to the even neighbour.
pub fn round_div(n: i128, d: u128) -> (q: i128)
    requires
        0 < d <= i128::MAX,
        i128::MIN < n,
    ensures
        q == rounded_quotient(n as int, d as int),
{
    let negative: bool = n < 0;
    let mag: u128 = if negative { (-n) as u128 } else { n as u128 };
    let quot: u128 = mag / d;
    let rem: u128 = mag % d;
    proof {
        assert(mag == d * quot + rem && rem < d) by (nonlinear_arith)
            requires d > 0, quot == mag / d, rem == mag % d;
        assert(quot <= mag) by (nonlinear_arith)
            requires d >= 1, mag == d * quot + rem;
        if rem > 0 {
            assert(2 * quot <= mag) by (nonlinear_arith)
                requires d >= 2, mag == d * quot + rem;
        }
    }
    let twice: u128 = 2 * rem;
    let up: bool = twice > d || (twice == d && quot % 2 == 1);
    let rounded: u128 = if up { quot + 1 } else { quot };
    if negative {
        -(rounded as i128)
    } else {
        rounded as i128
    }
}

/// The number of units in one tenth.
pub const UNITS_PER_TENTH: i64 = 100_000_000;

/// `units` in tenths, rounded to the nearest, ties to the even neighbour.
pub open spec fn tenths_of(units: int) -> int {
    rounded_quotient(units, UNITS_PER_TENTH as int)
}

/// Rounds a value to one decimal place; the result counts tenths.
pub fn to_tenths(units: i64) -> (t: i64)
    ensures
        t == tenths_of(units as int),
        -(i64::MAX as int) <= t <= i64::MAX,
{
    proof {
        lemma_rounded_quotient_between(
            units as int,
            UNITS_PER_TENTH as int,
            -(i64::MAX as int),
            i64::MAX as int,
        );
    }
    round_div(units as i128, UNITS_PER_TENTH as u128) as i64
}

} // verus!
