//! Exact arithmetic on binary64 numbers, held as their bit patterns.
//!
//! A temperature arrives as a binary64 number. Its pattern is an integer, and every finite number
//! is a whole multiple of one smallest step, 2 to the power of -1074. Values are therefore stated
//! here as integers that count such steps, and each operation is proved to give the pattern of the
//! number nearest to the exact result, ties going to the even pattern.

use vstd::arithmetic::power2::*;
use vstd::prelude::*;

verus! {

/// The pattern of 2 to the power of -1022, the smallest number with a full mantissa.
pub const IMPLICIT: u64 = 0x10_0000_0000_0000;

/// Twice [`IMPLICIT`]: mantissas are below it.
pub const MANTISSA_END: u64 = 0x20_0000_0000_0000;

/// The sign bit.
pub const SIGN: u64 = 0x8000_0000_0000_0000;

/// The pattern of positive infinity.
pub const INFINITE: u64 = 0x7ff0_0000_0000_0000;

/// A binary64 number, by its bit pattern.
#[derive(Clone, Copy, Debug, PartialEq, Eq, Structural)]
pub struct Binary64 {
    /// Sign, exponent and fraction as they are stored.
    pub bits: u64,
}

/// How many smallest steps make one unit: 2 to the power of 1074.
pub open spec fn one() -> nat {
    pow2(1074)
}

impl Binary64 {
    /// Whether the sign bit is set.
    pub open spec fn negative(self) -> bool {
        self.bits >= SIGN
    }

    /// The bits without the sign.
    pub open spec fn pattern(self) -> nat {
        if self.negative() {
            (self.bits - SIGN) as nat
        } else {
            self.bits as nat
        }
    }

    /// Whether this is no number at all.
    pub open spec fn is_nan(self) -> bool {
        self.pattern() > INFINITE
    }

    /// Whether this is one of the two infinities.
    pub open spec fn is_infinite(self) -> bool {
        self.pattern() == INFINITE
    }

    /// Whether this is a number with a finite value.
    pub open spec fn is_finite(self) -> bool {
        self.pattern() < INFINITE
    }

    /// The significand, with its leading bit.
    pub open spec fn mantissa(self) -> nat {
        mantissa_of(self.pattern())
    }

    /// How often the mantissa is doubled to give the magnitude.
    pub open spec fn scale(self) -> nat {
        scale_of(self.pattern())
    }

    /// The distance from zero, in smallest steps. Of an infinity, the first power of two that no
    /// finite number reaches.
    pub open spec fn magnitude(self) -> nat {
        magnitude_of(self.pattern())
    }

    /// The value, in smallest steps.
    pub open spec fn value(self) -> int {
        if self.negative() {
            -(self.magnitude() as int)
        } else {
            self.magnitude() as int
        }
    }
}

/// The significand of an unsigned pattern.
pub open spec fn mantissa_of(pattern: nat) -> nat {
    if pattern < IMPLICIT {
        pattern
    } else {
        pattern % (IMPLICIT as nat) + IMPLICIT as nat
    }
}

/// The scale of an unsigned pattern.
pub open spec fn scale_of(pattern: nat) -> nat {
    if pattern < IMPLICIT {
        0
    } else {
        (pattern / (IMPLICIT as nat) - 1) as nat
    }
}

/// The magnitude of an unsigned pattern, in smallest steps.
pub open spec fn magnitude_of(pattern: nat) -> nat {
    mantissa_of(pattern) * pow2(scale_of(pattern))
}

/// The quotient rounded to the nearest integer, ties to the even one.
pub open spec fn half_even(num: nat, den: nat) -> nat {
    let quotient = num / den;
    let twice_rest = 2 * (num % den);
    if twice_rest < den || (twice_rest == den && quotient % 2 == 0) {
        quotient
    } else {
        quotient + 1
    }
}

/// The unsigned pattern nearest to `num / den` smallest steps, without an upper end.
///
/// Below 2 to the power of 53 steps the pattern counts the steps themselves. Each further doubling
/// keeps 53 significant bits and moves the pattern up by one exponent.
pub open spec fn nearest_pattern(num: nat, den: nat) -> nat
    decreases num - den,
{
    if den == 0 {
        0
    } else if num < den * MANTISSA_END {
        half_even(num, den)
    } else {
        IMPLICIT as nat + nearest_pattern(num, 2 * den)
    }
}

/// The number with this sign and this unsigned pattern; patterns past the largest finite one give
/// the infinity.
pub open spec fn with_sign(negative: bool, pattern: nat) -> Binary64 {
    let capped = if pattern < INFINITE {
        pattern
    } else {
        INFINITE as nat
    };
    Binary64 {
        bits: if negative {
            (capped + SIGN) as u64
        } else {
            capped as u64
        },
    }
}

/// The number nearest to `num / den` smallest steps, with this sign.
pub open spec fn rounded(negative: bool, num: nat, den: nat) -> Binary64 {
    with_sign(negative, nearest_pattern(num, den))
}

/// The pattern of the result where there is no number to give.
pub open spec fn nan() -> Binary64 {
    Binary64 { bits: 0x7ff8_0000_0000_0000 }
}

/// The sum of two numbers.
pub open spec fn sum_of(a: Binary64, b: Binary64) -> Binary64 {
    if a.is_nan() || b.is_nan() {
        nan()
    } else if a.is_infinite() && b.is_infinite() && a.negative() != b.negative() {
        nan()
    } else if a.is_infinite() {
        a
    } else if b.is_infinite() {
        b
    } else {
        let exact = a.value() + b.value();
        if exact == 0 {
            with_sign(a.negative() && b.negative(), 0)
        } else if exact < 0 {
            rounded(true, (-exact) as nat, 1)
        } else {
            rounded(false, exact as nat, 1)
        }
    }
}

/// The number with the sign turned.
pub open spec fn negated(a: Binary64) -> Binary64 {
    Binary64 {
        bits: if a.negative() {
            (a.bits - SIGN) as u64
        } else {
            (a.bits + SIGN) as u64
        },
    }
}

/// The first number less the second.
pub open spec fn difference_of(a: Binary64, b: Binary64) -> Binary64 {
    sum_of(a, negated(b))
}

/// The product of two numbers.
pub open spec fn product_of(a: Binary64, b: Binary64) -> Binary64 {
    let negative = a.negative() != b.negative();
    if a.is_nan() || b.is_nan() {
        nan()
    } else if a.is_infinite() || b.is_infinite() {
        if a.magnitude() == 0 || b.magnitude() == 0 {
            nan()
        } else {
            with_sign(negative, INFINITE as nat)
        }
    } else {
        rounded(negative, a.magnitude() * b.magnitude(), one())
    }
}

/// The first number divided by the second.
pub open spec fn quotient_of(a: Binary64, b: Binary64) -> Binary64 {
    let negative = a.negative() != b.negative();
    if a.is_nan() || b.is_nan() || (a.is_infinite() && b.is_infinite()) {
        nan()
    } else if a.is_infinite() {
        with_sign(negative, INFINITE as nat)
    } else if b.is_infinite() {
        with_sign(negative, 0)
    } else if b.magnitude() == 0 {
        if a.magnitude() == 0 {
            nan()
        } else {
            with_sign(negative, INFINITE as nat)
        }
    } else {
        rounded(negative, a.magnitude() * one(), b.magnitude())
    }
}

/// The number nearest to a whole number.
pub open spec fn whole(negative: bool, count: nat) -> Binary64 {
    rounded(negative, count * one(), 1)
}

/// The nearest whole number, halves going away from zero.
pub open spec fn half_away(a: Binary64) -> Binary64 {
    if a.is_nan() {
        nan()
    } else if a.is_infinite() {
        a
    } else {
        whole(a.negative(), (2 * a.magnitude() + one()) / (2 * one()))
    }
}

/// The whole part as a 64-bit integer: cut off towards zero, and at the ends of the type.
pub open spec fn cut_to_integer(a: Binary64) -> int {
    let count = (a.magnitude() / one()) as int;
    if a.is_nan() {
        0
    } else if a.negative() {
        if count <= 0x8000_0000_0000_0000 {
            -count
        } else {
            i64::MIN as int
        }
    } else if count <= i64::MAX {
        count
    } else {
        i64::MAX as int
    }
}

/// The distance from zero.
pub open spec fn distance(a: Binary64) -> Binary64 {
    Binary64 { bits: a.pattern() as u64 }
}

/// The larger of two numbers; where one is no number, the other one.
pub open spec fn larger_of(a: Binary64, b: Binary64) -> Binary64 {
    if a.is_nan() || below(a, b) {
        b
    } else {
        a
    }
}

/// The number in tenths, rounded to the nearest integer, ties to the even one.
pub open spec fn tenths_of(a: Binary64) -> nat {
    half_even(10 * a.magnitude(), one())
}

/// Whether the root of `num` steps lies between the midpoints on either side of an unsigned
/// pattern, a midpoint itself going to the pattern above it.
pub open spec fn is_root_pattern(pattern: nat, num: nat) -> bool {
    &&& pattern < INFINITE
    &&& pattern > 0 ==> square(
        magnitude_of((pattern - 1) as nat) + magnitude_of(pattern),
    ) <= 4 * num
    &&& 4 * num < square(magnitude_of(pattern) + magnitude_of(pattern + 1))
}

/// A number times itself.
pub open spec fn square(n: nat) -> nat {
    n * n
}

/// The unsigned pattern nearest to the root of `num` steps.
pub open spec fn root_pattern(num: nat) -> nat {
    choose|pattern: nat| is_root_pattern(pattern, num)
}

/// The square root.
pub open spec fn root_of(a: Binary64) -> Binary64 {
    if a.is_nan() || (a.negative() && a.magnitude() > 0) {
        nan()
    } else if a.is_infinite() || a.magnitude() == 0 {
        a
    } else {
        with_sign(false, root_pattern(a.magnitude() * one()))
    }
}

/// Whether the first number is below the second. What is no number is below nothing.
pub open spec fn below(a: Binary64, b: Binary64) -> bool {
    !a.is_nan() && !b.is_nan() && a.value() < b.value()
}

/// Whether the first number is below the second or equal to it.
pub open spec fn at_most(a: Binary64, b: Binary64) -> bool {
    !a.is_nan() && !b.is_nan() && a.value() <= b.value()
}

/// The powers of two at the edges of the format.
pub(crate) proof fn lemma_edges()
    ensures
        pow2(0) == 1,
        pow2(52) == IMPLICIT,
        pow2(53) == MANTISSA_END,
{
    lemma2_to64();
    lemma2_to64_rest();
}

/// Which exponent step rounding takes.
pub(crate) proof fn lemma_nearest_pattern_at(num: nat, den: nat, step: nat)
    requires
        den > 0,
        num < den * pow2(53 + step),
        step > 0 ==> den * pow2((52 + step) as nat) <= num,
    ensures
        nearest_pattern(num, den) == step * IMPLICIT + half_even(num, den * pow2(step)),
    decreases step,
{
    lemma_edges();
    if step == 0 {
    } else {
        let less = (step - 1) as nat;
        lemma_pow2_unfold(53 + step);
        lemma_pow2_unfold(52 + step);
        lemma_pow2_unfold(step);
        assert(pow2(53 + step) == 2 * pow2(53 + less));
        assert(pow2(52 + step) == 2 * pow2(52 + less));
        assert(pow2(step) == 2 * pow2(less));
        let wide = pow2(53 + less);
        let narrow = pow2(52 + less);
        let last = pow2(less);
        assert(den * (2 * wide) == (2 * den) * wide) by (nonlinear_arith);
        assert(den * (2 * narrow) == (2 * den) * narrow) by (nonlinear_arith);
        assert(den * (2 * last) == (2 * den) * last) by (nonlinear_arith);
        assert(pow2(53) <= pow2((52 + step) as nat)) by {
            if step > 1 {
                lemma_pow2_strictly_increases(53, (52 + step) as nat);
            }
        }
        assert(den * MANTISSA_END <= den * pow2((52 + step) as nat)) by (nonlinear_arith)
            requires
                MANTISSA_END <= pow2((52 + step) as nat),
        ;
        lemma_nearest_pattern_at(num, 2 * den, less);
    }
}

/// Scaling numerator and denominator alike leaves the rounded quotient alone.
pub(crate) proof fn lemma_half_even_scaled(num: nat, den: nat, factor: nat)
    requires
        den > 0,
        factor > 0,
    ensures
        half_even(num * factor, den * factor) == half_even(num, den),
{
    let quotient = num / den;
    let rest = num % den;
    assert(num == den * quotient + rest) by (nonlinear_arith)
        requires
            den > 0,
            quotient == num / den,
            rest == num % den,
    ;
    assert(num * factor == (den * factor) * quotient + rest * factor) by (nonlinear_arith)
        requires
            num == den * quotient + rest,
    ;
    assert(0 <= rest * factor < den * factor) by (nonlinear_arith)
        requires
            0 <= rest < den,
            factor > 0,
    ;
    lemma_quotient_unique(num * factor, den * factor, quotient, rest * factor);
    assert((2 * rest < den) == (2 * (rest * factor) < den * factor)) by (nonlinear_arith)
        requires
            factor > 0,
    ;
    assert((2 * rest == den) == (2 * (rest * factor) == den * factor)) by (nonlinear_arith)
        requires
            factor > 0,
    ;
}

/// A quotient and a rest below the divisor are the quotient and the rest.
pub(crate) proof fn lemma_quotient_unique(num: nat, den: nat, quotient: nat, rest: nat)
    requires
        num == den * quotient + rest,
        rest < den,
    ensures
        num / den == quotient,
        num % den == rest,
{
    assert(den * quotient == quotient * den) by (nonlinear_arith);
    vstd::arithmetic::div_mod::lemma_fundamental_div_mod_converse(
        num as int,
        den as int,
        quotient as int,
        rest as int,
    );
}

/// What the leading digits of a quotient, and whether anything follows them, say of its rounding.
pub(crate) proof fn lemma_half_even_digits(
    num: nat,
    den: nat,
    digits: nat,
    inexact: bool,
    drop: nat,
    quotient: nat,
    rest: nat,
)
    requires
        den > 0,
        den * digits <= num < den * (digits + 1),
        inexact == (num != den * digits),
        drop > 0,
        digits == pow2(drop) * quotient + rest,
        rest < pow2(drop),
    ensures
        half_even(num, den * pow2(drop)) == ({
            let half = pow2((drop - 1) as nat);
            if rest > half || (rest == half && (inexact || quotient % 2 == 1)) {
                quotient + 1
            } else {
                quotient
            }
        }),
{
    let power = pow2(drop);
    let half = pow2((drop - 1) as nat);
    lemma_pow2_unfold(drop);
    lemma_pow2_pos(drop);
    let tail = (num - den * digits) as nat;
    let whole = den * rest + tail;
    assert(num == (den * power) * quotient + whole) by (nonlinear_arith)
        requires
            num == den * digits + tail,
            digits == power * quotient + rest,
            whole == den * rest + tail,
    ;
    assert(den * (digits + 1) == den * digits + den) by (nonlinear_arith);
    assert(tail < den);
    assert(den * rest + den <= den * power) by (nonlinear_arith)
        requires
            rest + 1 <= power,
    ;
    assert(den * power > 0) by (nonlinear_arith)
        requires
            den > 0,
            power > 0,
    ;
    lemma_quotient_unique(num, den * power, quotient, whole);
    assert(den * power == 2 * (den * half)) by (nonlinear_arith)
        requires
            power == 2 * half,
    ;
    if rest > half {
        assert(den * rest >= den * half + den) by (nonlinear_arith)
            requires
                rest >= half + 1,
        ;
    } else if rest < half {
        assert(den * rest + den <= den * half) by (nonlinear_arith)
            requires
                rest + 1 <= half,
        ;
    }
}

/// Two to the power of `exponent`.
pub(crate) fn power_of_two(exponent: u32) -> (power: u128)
    requires
        exponent < 128,
    ensures
        power == pow2(exponent as nat),
{
    let mut power: u128 = 1;
    let mut done: u32 = 0;
    proof {
        lemma_edges();
    }
    while done < exponent
        invariant
            done <= exponent < 128,
            power == pow2(done as nat),
        decreases exponent - done,
    {
        proof {
            lemma_pow2_unfold((done + 1) as nat);
            lemma_pow2_127((done + 1) as nat);
        }
        power = power * 2;
        done = done + 1;
    }
    power
}

/// Powers of two that fit into 128 bits.
proof fn lemma_pow2_127(exponent: nat)
    requires
        exponent < 128,
    ensures
        pow2(exponent) <= 0x8000_0000_0000_0000_0000_0000_0000_0000,
        pow2(127) == 0x8000_0000_0000_0000_0000_0000_0000_0000,
{
    lemma2_to64();
    lemma2_to64_rest();
    lemma_pow2_adds(64, 63);
    assert(pow2(127) == 0x8000_0000_0000_0000_0000_0000_0000_0000) by (nonlinear_arith)
        requires
            pow2(127) == pow2(64) * pow2(63),
            pow2(64) == 0x1_0000_0000_0000_0000,
            pow2(63) == 0x8000_0000_0000_0000,
    ;
    if exponent < 127 {
        lemma_pow2_strictly_increases(exponent, 127);
    }
}

/// The number of binary digits of `number`.
fn bit_length(number: u128) -> (length: u32)
    ensures
        length <= 128,
        number < pow2(length as nat),
        number > 0 ==> length > 0 && pow2((length - 1) as nat) <= number,
        number == 0 ==> length == 0,
        number < pow2(127) ==> length < 128,
{
    let mut length: u32 = 0;
    let mut left: u128 = number;
    proof {
        lemma_edges();
        lemma_pow2_127(0);
    }
    let ghost mut power: nat = 1;
    while left > 0
        invariant
            power == pow2(length as nat),
            power > 0,
            left * power <= number < (left + 1) * power,
            left > 0 ==> power <= number,
            left == 0 ==> (number > 0 ==> length > 0 && pow2((length - 1) as nat) <= number),
            number == 0 ==> length == 0,
            length <= 128,
            pow2(127) == 0x8000_0000_0000_0000_0000_0000_0000_0000,
        decreases left,
    {
        let next: u128 = left / 2;
        proof {
            lemma_pow2_unfold((length + 1) as nat);
            assert(next * (2 * power) <= left * power) by (nonlinear_arith)
                requires
                    2 * next <= left,
                    power >= 0,
            ;
            assert((left + 1) * power <= (next + 1) * (2 * power)) by (nonlinear_arith)
                requires
                    left + 1 <= 2 * (next + 1),
                    power >= 0,
            ;
            if next > 0 {
                assert(2 * power <= next * (2 * power)) by (nonlinear_arith)
                    requires
                        next >= 1,
                        power >= 0,
                ;
            }
            if length >= 128 {
                lemma_pow2_unfold(128);
                if length > 128 {
                    lemma_pow2_strictly_increases(128, length as nat);
                }
                assert(left * power >= power) by (nonlinear_arith)
                    requires
                        left >= 1,
                        power >= 0,
                ;
                assert(false);
            }
            power = 2 * power;
        }
        left = next;
        length = length + 1;
    }
    proof {
        assert((left + 1) * power == power) by (nonlinear_arith)
            requires
                left == 0,
        ;
    }
    length
}

/// `digits` doubled `position` times (halved, where that is negative) are the leading digits of
/// `num / den`, and `inexact` says whether anything follows them.
spec fn leads(num: nat, den: nat, digits: nat, position: int, inexact: bool) -> bool {
    let n = num * pow2(halvings(position));
    let d = den * pow2(doublings(position));
    d * digits <= n < d * (digits + 1) && inexact == (n != d * digits)
}

spec fn doublings(position: int) -> nat {
    if position < 0 {
        0
    } else {
        position as nat
    }
}

spec fn halvings(position: int) -> nat {
    if position < 0 {
        (-position) as nat
    } else {
        0
    }
}

/// The exponent step of a quotient follows from where its leading digits end.
proof fn lemma_step_bounds(
    num: nat,
    den: nat,
    digits: nat,
    position: int,
    inexact: bool,
    length: nat,
    step: nat,
)
    requires
        den > 0,
        leads(num, den, digits, position, inexact),
        digits < pow2(length),
        digits > 0 ==> length > 0 && pow2((length - 1) as nat) <= digits,
        position + length <= 53 + step,
        step > 0 ==> digits > 0 && position + length == 53 + step,
    ensures
        num < den * pow2(53 + step),
        step > 0 ==> den * pow2((52 + step) as nat) <= num,
{
    let up = doublings(position);
    let down = halvings(position);
    let n = num * pow2(down);
    let d = den * pow2(up);
    lemma_edges();
    lemma_pow2_pos(up);
    lemma_pow2_pos(down);
    lemma_pow2_adds(up, length);
    lemma_pow2_adds(53 + step, down);
    assert(pow2(up + length) <= pow2(53 + step + down)) by {
        if up + length < 53 + step + down {
            lemma_pow2_strictly_increases(up + length, 53 + step + down);
        }
    }
    let edge = pow2(53 + step);
    let scaled = pow2(down);
    assert(d * (digits + 1) <= d * pow2(length)) by (nonlinear_arith)
        requires
            digits + 1 <= pow2(length),
    ;
    assert(d * pow2(length) == den * pow2(up + length)) by (nonlinear_arith)
        requires
            d == den * pow2(up),
            pow2(up) * pow2(length) == pow2(up + length),
    ;
    assert(den * pow2(up + length) <= den * (edge * scaled)) by (nonlinear_arith)
        requires
            pow2(up + length) <= edge * scaled,
    ;
    assert(num < den * edge) by (nonlinear_arith)
        requires
            num * scaled < den * (edge * scaled),
            scaled > 0,
    ;
    if step > 0 {
        let before = (length - 1) as nat;
        lemma_pow2_adds(up, before);
        lemma_pow2_adds((52 + step) as nat, down);
        let low = pow2((52 + step) as nat);
        assert(up + before == 52 + step + down);
        assert(d * pow2(before) <= d * digits) by (nonlinear_arith)
            requires
                pow2(before) <= digits,
        ;
        assert(d * pow2(before) == den * pow2(up + before)) by (nonlinear_arith)
            requires
                d == den * pow2(up),
                pow2(up) * pow2(before) == pow2(up + before),
        ;
        assert(den * low <= num) by (nonlinear_arith)
            requires
                den * (low * scaled) <= num * scaled,
                scaled > 0,
        ;
    }
}

/// Rounding the quotient at an exponent step is rounding its leading digits.
proof fn lemma_digits_at_step(
    num: nat,
    den: nat,
    digits: nat,
    position: int,
    inexact: bool,
    step: nat,
    drop: nat,
    quotient: nat,
    rest: nat,
)
    requires
        den > 0,
        leads(num, den, digits, position, inexact),
        drop > 0,
        step == position + drop,
        digits == pow2(drop) * quotient + rest,
        rest < pow2(drop),
    ensures
        half_even(num, den * pow2(step)) == ({
            let half = pow2((drop - 1) as nat);
            if rest > half || (rest == half && (inexact || quotient % 2 == 1)) {
                quotient + 1
            } else {
                quotient
            }
        }),
{
    let up = doublings(position);
    let down = halvings(position);
    let n = num * pow2(down);
    let d = den * pow2(up);
    lemma_pow2_pos(up);
    lemma_pow2_pos(down);
    lemma_pow2_pos(step);
    lemma_pow2_adds(up, drop);
    lemma_pow2_adds(step, down);
    assert(up + drop == step + down);
    assert(d > 0) by (nonlinear_arith)
        requires
            d == den * pow2(up),
            den > 0,
            pow2(up) > 0,
    ;
    lemma_half_even_digits(n, d, digits, inexact, drop, quotient, rest);
    assert(d * pow2(drop) == (den * pow2(step)) * pow2(down)) by (nonlinear_arith)
        requires
            d == den * pow2(up),
            pow2(up) * pow2(drop) == pow2(step) * pow2(down),
    ;
    assert(den * pow2(step) > 0) by (nonlinear_arith)
        requires
            den > 0,
            pow2(step) > 0,
    ;
    lemma_half_even_scaled(num, den * pow2(step), pow2(down));
}

/// Exact digits that end above an exponent step need no rounding there.
proof fn lemma_exact_at_step(
    num: nat,
    den: nat,
    digits: nat,
    position: int,
    step: nat,
    quotient: nat,
)
    requires
        den > 0,
        leads(num, den, digits, position, false),
        step <= position,
        quotient == digits * pow2((position - step) as nat),
    ensures
        half_even(num, den * pow2(step)) == quotient,
{
    let up = doublings(position);
    let rise = (position - step) as nat;
    lemma_edges();
    lemma_pow2_pos(step);
    lemma_pow2_adds(step, rise);
    assert(num == (den * pow2(step)) * quotient + 0) by (nonlinear_arith)
        requires
            num * 1 == (den * pow2(up)) * digits,
            pow2(up) == pow2(step) * pow2(rise),
            quotient == digits * pow2(rise),
    ;
    assert(den * pow2(step) > 0) by (nonlinear_arith)
        requires
            den > 0,
            pow2(step) > 0,
    ;
    lemma_quotient_unique(num, den * pow2(step), quotient, 0);
}

/// The unsigned pattern of the number whose leading digits these are.
fn round_digits(digits: u128, position: i32, inexact: bool, num: Ghost<nat>, den: Ghost<nat>) -> (pattern:
    u64)
    requires
        0 < digits < pow2(127),
        -5000 <= position <= 5000,
        den@ > 0,
        leads(num@, den@, digits as nat, position as int, inexact),
        inexact ==> digits >= pow2(55),
    ensures
        pattern == if nearest_pattern(num@, den@) < INFINITE {
            nearest_pattern(num@, den@)
        } else {
            INFINITE as nat
        },
{
    let length: i32 = bit_length(digits) as i32;
    let step: i32 = if position + length <= 53 {
        0
    } else {
        position + length - 53
    };
    proof {
        lemma_edges();
        lemma_step_bounds(
            num@,
            den@,
            digits as nat,
            position as int,
            inexact,
            length as nat,
            step as nat,
        );
        lemma_nearest_pattern_at(num@, den@, step as nat);
        if inexact && length < 56 {
            if length < 55 {
                lemma_pow2_strictly_increases(length as nat, 55);
            }
            assert(false);
        }
    }
    let drop: i32 = step - position;
    let mantissa: u128 = if drop <= 0 {
        proof {
            let rise = (position - step) as nat;
            lemma_pow2_adds(length as nat, rise);
            lemma_pow2_pos(rise);
            assert(digits * pow2(rise) < pow2(length as nat) * pow2(rise)) by (nonlinear_arith)
                requires
                    digits < pow2(length as nat),
                    pow2(rise) > 0,
            ;
            if length + rise < 53 {
                lemma_pow2_strictly_increases(length as nat + rise, 53);
            }
            lemma_exact_at_step(
                num@,
                den@,
                digits as nat,
                position as int,
                step as nat,
                (digits * pow2(rise)) as nat,
            );
        }
        digits * power_of_two((-drop) as u32)
    } else if drop >= 128 {
        proof {
            lemma_pow2_strictly_increases(127, drop as nat);
            if drop > 128 {
                lemma_pow2_strictly_increases(127, (drop - 1) as nat);
            }
            lemma_digits_at_step(
                num@,
                den@,
                digits as nat,
                position as int,
                inexact,
                step as nat,
                drop as nat,
                0,
                digits as nat,
            );
        }
        0
    } else {
        let power: u128 = power_of_two(drop as u32);
        let half: u128 = power_of_two((drop - 1) as u32);
        proof {
            lemma_pow2_pos(drop as nat);
        }
        let quotient: u128 = digits / power;
        let rest: u128 = digits % power;
        proof {
            vstd::arithmetic::div_mod::lemma_fundamental_div_mod(digits as int, power as int);
            lemma_digits_at_step(
                num@,
                den@,
                digits as nat,
                position as int,
                inexact,
                step as nat,
                drop as nat,
                quotient as nat,
                rest as nat,
            );
            // Dropping the digits leaves at most 53 of them.
            lemma_pow2_adds(drop as nat, 53);
            if length < drop + 53 {
                lemma_pow2_strictly_increases(length as nat, (drop + 53) as nat);
            }
            assert(quotient < pow2(53)) by (nonlinear_arith)
                requires
                    power * quotient <= digits,
                    digits < power * pow2(53),
            ;
        }
        if rest > half || (rest == half && (inexact || quotient % 2 == 1)) {
            quotient + 1
        } else {
            quotient
        }
    };
    assert(mantissa <= MANTISSA_END);
    if step >= 2047 {
        INFINITE
    } else {
        let pattern: u64 = step as u64 * IMPLICIT + mantissa as u64;
        if pattern < INFINITE {
            pattern
        } else {
            INFINITE
        }
    }
}

/// Nothing rounds to nothing.
pub(crate) proof fn lemma_nearest_zero(den: nat)
    requires
        den > 0,
    ensures
        nearest_pattern(0, den) == 0,
{
    assert(0 < den * MANTISSA_END) by (nonlinear_arith)
        requires
            den > 0,
            MANTISSA_END > 0,
    ;
    lemma_quotient_unique(0, den, 0, 0);
}

/// The bounds of mantissa and scale.
pub(crate) proof fn lemma_parts(pattern: nat)
    requires
        pattern <= INFINITE,
    ensures
        mantissa_of(pattern) < MANTISSA_END,
        scale_of(pattern) <= 2046,
        pattern < INFINITE ==> scale_of(pattern) <= 2045,
        scale_of(pattern) > 0 ==> mantissa_of(pattern) >= IMPLICIT,
        pattern == scale_of(pattern) * IMPLICIT + mantissa_of(pattern),
        (magnitude_of(pattern) == 0) == (pattern == 0),
        (mantissa_of(pattern) == 0) == (pattern == 0),
{
    lemma_pow2_pos(scale_of(pattern));
    if pattern > 0 {
        assert(magnitude_of(pattern) > 0) by (nonlinear_arith)
            requires
                magnitude_of(pattern) == mantissa_of(pattern) * pow2(scale_of(pattern)),
                mantissa_of(pattern) > 0,
                pow2(scale_of(pattern)) > 0,
        ;
    } else {
        assert(magnitude_of(pattern) == 0) by (nonlinear_arith)
            requires
                magnitude_of(pattern) == mantissa_of(pattern) * pow2(scale_of(pattern)),
                mantissa_of(pattern) == 0,
        ;
    }
}

/// The magnitude grows with the pattern.
pub(crate) proof fn lemma_magnitude_grows(low: nat, high: nat)
    requires
        low < high <= INFINITE,
    ensures
        magnitude_of(low) < magnitude_of(high),
{
    lemma_parts(low);
    lemma_parts(high);
    lemma_edges();
    let m = mantissa_of(low);
    let n = mantissa_of(high);
    let r = scale_of(low);
    let t = scale_of(high);
    lemma_pow2_pos(r);
    if r == t {
        assert(m * pow2(r) < n * pow2(r)) by (nonlinear_arith)
            requires
                m < n,
                pow2(r) > 0,
        ;
    } else {
        assert(r < t);
        let gap = (t - r - 1) as nat;
        lemma_pow2_adds(r, gap);
        lemma_pow2_unfold(t);
        lemma_pow2_pos(gap);
        assert(m * pow2(r) < n * pow2(t)) by (nonlinear_arith)
            requires
                m < MANTISSA_END,
                n >= IMPLICIT,
                pow2(t) == 2 * (pow2(r) * pow2(gap)),
                pow2(gap) >= 1,
                pow2(r) > 0,
                MANTISSA_END == 2 * IMPLICIT,
        ;
    }
}

/// A number that the format holds is rounded to itself.
pub proof fn law_representable_is_kept(pattern: nat)
    requires
        pattern < INFINITE,
    ensures
        nearest_pattern(magnitude_of(pattern), 1) == pattern,
{
    lemma_parts(pattern);
    lemma_edges();
    let m = mantissa_of(pattern);
    let r = scale_of(pattern);
    lemma_pow2_pos(r);
    lemma_pow2_adds(53, r);
    lemma_pow2_adds(52, r);
    assert(m * pow2(r) < pow2(53) * pow2(r)) by (nonlinear_arith)
        requires
            m < pow2(53),
            pow2(r) > 0,
    ;
    if r > 0 {
        assert(pow2(52) * pow2(r) <= m * pow2(r)) by (nonlinear_arith)
            requires
                pow2(52) <= m,
        ;
    }
    lemma_nearest_pattern_at(magnitude_of(pattern), 1, r);
    assert(m * pow2(r) == pow2(r) * m) by (nonlinear_arith);
    lemma_quotient_unique(magnitude_of(pattern), pow2(r), m, 0);
}

/// The exponent step at which a quotient is rounded.
pub(crate) proof fn find_step(num: nat, den: nat) -> (step: nat)
    requires
        den > 0,
    ensures
        num < den * pow2(53 + step),
        step > 0 ==> den * pow2((52 + step) as nat) <= num,
    decreases num - den,
{
    lemma_edges();
    if num < den * MANTISSA_END {
        0
    } else {
        let rest = find_step(num, 2 * den);
        let step = rest + 1;
        lemma_pow2_unfold(53 + step);
        lemma_pow2_unfold((52 + step) as nat);
        assert((2 * den) * pow2(53 + rest) == den * pow2(53 + step)) by (nonlinear_arith)
            requires
                pow2(53 + step) == 2 * pow2(53 + rest),
        ;
        if rest > 0 {
            assert((2 * den) * pow2((52 + rest) as nat) == den * pow2((52 + step) as nat))
                by (nonlinear_arith)
                requires
                    pow2((52 + step) as nat) == 2 * pow2((52 + rest) as nat),
            ;
        }
        step
    }
}

/// The rounded quotient is at least as close as any other multiple of the divisor.
proof fn lemma_half_even_closest(num: nat, den: nat, other: nat)
    requires
        den > 0,
    ensures
        ({
            let near = half_even(num, den) * den - num;
            let far = other * den - num;
            (if near < 0 { -near } else { near }) <= (if far < 0 { -far } else { far })
        }),
{
    let quotient = num / den;
    let rest = num % den;
    vstd::arithmetic::div_mod::lemma_fundamental_div_mod(num as int, den as int);
    assert(quotient * den == den * quotient) by (nonlinear_arith);
    assert((quotient + 1) * den == quotient * den + den) by (nonlinear_arith);
    if other <= quotient {
        assert(other * den <= quotient * den) by (nonlinear_arith)
            requires
                other <= quotient,
        ;
    } else {
        assert((quotient + 1) * den <= other * den) by (nonlinear_arith)
            requires
                quotient + 1 <= other,
        ;
    }
}

/// The magnitude of a rounded quotient.
pub(crate) proof fn lemma_rounded_magnitude(num: nat, den: nat, step: nat)
    requires
        den > 0,
        num < den * pow2(53 + step),
        step > 0 ==> den * pow2((52 + step) as nat) <= num,
    ensures
        magnitude_of(nearest_pattern(num, den)) == half_even(num, den * pow2(step)) * pow2(step),
{
    lemma_nearest_pattern_at(num, den, step);
    lemma_edges();
    lemma_pow2_pos(step);
    let unit = pow2(step);
    let wide = den * unit;
    assert(wide > 0) by (nonlinear_arith)
        requires
            wide == den * unit,
            den > 0,
            unit > 0,
    ;
    let n = half_even(num, wide);
    let found = nearest_pattern(num, den);
    lemma_pow2_adds(53, step);
    lemma_pow2_adds(52, step);
    // The rounded mantissa keeps to its exponent step, or reaches the next one exactly.
    assert(num / wide < MANTISSA_END) by {
        vstd::arithmetic::div_mod::lemma_fundamental_div_mod(num as int, wide as int);
        assert(num / wide < MANTISSA_END) by (nonlinear_arith)
            requires
                num == wide * (num / wide) + num % wide,
                num < den * (MANTISSA_END * unit),
                wide == den * unit,
                wide > 0,
                num % wide >= 0,
        ;
    }
    if step > 0 {
        vstd::arithmetic::div_mod::lemma_fundamental_div_mod(num as int, wide as int);
        assert(num / wide >= IMPLICIT) by (nonlinear_arith)
            requires
                num == wide * (num / wide) + num % wide,
                num % wide < wide,
                den * (IMPLICIT * unit) <= num,
                wide == den * unit,
                wide > 0,
        ;
    }
    assert(magnitude_of(found) == n * unit) by {
        if n < MANTISSA_END {
            assert(mantissa_of(found) == n);
            assert(scale_of(found) == step);
        } else {
            assert(n == MANTISSA_END);
            assert(found == (step + 2) * IMPLICIT);
            assert(mantissa_of(found) == IMPLICIT);
            assert(scale_of(found) == step + 1);
            lemma_pow2_unfold(step + 1);
            assert(IMPLICIT * (2 * unit) == MANTISSA_END * unit) by (nonlinear_arith)
                requires
                    MANTISSA_END == 2 * IMPLICIT,
            ;
        }
    }
}

/// No number is closer to the exact quotient than the one that rounding gives.
pub proof fn law_rounding_is_nearest(num: nat, den: nat, other: nat)
    requires
        den > 0,
        nearest_pattern(num, den) < INFINITE,
        other < INFINITE,
    ensures
        ({
            let near = magnitude_of(nearest_pattern(num, den)) * den - num;
            let far = magnitude_of(other) * den - num;
            (if near < 0 { -near } else { near }) <= (if far < 0 { -far } else { far })
        }),
{
    let step = find_step(num, den);
    lemma_nearest_pattern_at(num, den, step);
    lemma_edges();
    lemma_pow2_pos(step);
    let unit = pow2(step);
    let wide = den * unit;
    assert(wide > 0) by (nonlinear_arith)
        requires
            wide == den * unit,
            den > 0,
            unit > 0,
    ;
    let n = half_even(num, wide);
    lemma_pow2_adds(52, step);
    lemma_rounded_magnitude(num, den, step);
    assert((n * unit) * den == n * wide) by (nonlinear_arith)
        requires
            wide == den * unit,
    ;
    lemma_parts(other);
    let m = mantissa_of(other);
    let t = scale_of(other);
    if t >= step {
        let gap = (t - step) as nat;
        lemma_pow2_adds(step, gap);
        let k = m * pow2(gap);
        assert((m * pow2(t)) * den == k * wide) by (nonlinear_arith)
            requires
                k == m * pow2(gap),
                pow2(t) == unit * pow2(gap),
                wide == den * unit,
        ;
        lemma_half_even_closest(num, wide, k);
    } else {
        // A number of a lower step lies below the first one of this step.
        let gap = (step - 1 - t) as nat;
        lemma_pow2_adds(t, gap);
        lemma_pow2_unfold(step);
        lemma_pow2_pos(gap);
        lemma_pow2_pos(t);
        assert(m * pow2(t) <= IMPLICIT * unit) by (nonlinear_arith)
            requires
                m < MANTISSA_END,
                MANTISSA_END == 2 * IMPLICIT,
                unit == 2 * (pow2(t) * pow2(gap)),
                pow2(gap) >= 1,
                pow2(t) > 0,
        ;
        assert((m * pow2(t)) * den <= (IMPLICIT * unit) * den) by (nonlinear_arith)
            requires
                m * pow2(t) <= IMPLICIT * unit,
        ;
        assert((IMPLICIT * unit) * den == IMPLICIT * wide) by (nonlinear_arith)
            requires
                wide == den * unit,
        ;
        assert(IMPLICIT * wide <= num) by (nonlinear_arith)
            requires
                den * (IMPLICIT * unit) <= num,
                wide == den * unit,
        ;
        lemma_half_even_closest(num, wide, IMPLICIT as nat);
    }
}

/// Mantissa and scale of an unsigned pattern.
pub(crate) fn split(pattern: u64) -> (parts: (u64, u32))
    requires
        pattern <= INFINITE,
    ensures
        parts.0 == mantissa_of(pattern as nat),
        parts.1 == scale_of(pattern as nat),
{
    proof {
        lemma_parts(pattern as nat);
    }
    if pattern < IMPLICIT {
        (pattern, 0)
    } else {
        (pattern % IMPLICIT + IMPLICIT, (pattern / IMPLICIT - 1) as u32)
    }
}

/// The number with this sign and this unsigned pattern.
fn join(negative: bool, pattern: u64) -> (number: Binary64)
    requires
        pattern <= INFINITE,
    ensures
        number == with_sign(negative, pattern as nat),
{
    if negative {
        Binary64 { bits: pattern + SIGN }
    } else {
        Binary64 { bits: pattern }
    }
}

/// The magnitude of the sum of two finite numbers of which the first has the larger scale, and
/// whether it lies on the side of the first.
///
/// `apart` says that the signs differ.
fn combine(m: u64, r: u32, n: u64, t: u32, apart: bool) -> (total: (bool, u64))
    requires
        m < MANTISSA_END,
        n < MANTISSA_END,
        t <= r <= 2045,
        r > 0 ==> m >= IMPLICIT,
    ensures
        ({
            let a = (m * pow2(r as nat)) as nat;
            let b = (n * pow2(t as nat)) as nat;
            let exact = if apart {
                a - b
            } else {
                (a + b) as int
            };
            let distance = if exact < 0 {
                (-exact) as nat
            } else {
                exact as nat
            };
            let pattern = nearest_pattern(distance, 1);
            &&& total.0 == (exact >= 0)
            &&& total.1 == if pattern < INFINITE {
                pattern
            } else {
                INFINITE as nat
            }
        }),
{
    let ghost a = (m * pow2(r as nat)) as nat;
    let ghost b = (n * pow2(t as nat)) as nat;
    let gap: u32 = r - t;
    proof {
        lemma_edges();
        lemma_pow2_pos(r as nat);
        lemma_pow2_pos(t as nat);
        lemma_pow2_127(0);
        assert(a >= 0 && b >= 0) by (nonlinear_arith)
            requires
                a == m * pow2(r as nat),
                b == n * pow2(t as nat),
        ;
    }
    if gap <= 64 {
        let power: u128 = power_of_two(gap);
        let ghost unit = pow2(t as nat);
        proof {
            lemma_pow2_pos(gap as nat);
            lemma_pow2_adds(gap as nat, t as nat);
            lemma_pow2_adds(53, gap as nat);
            lemma_pow2_strictly_increases(53 + gap as nat, 126);
            lemma_pow2_unfold(127);
            assert(m * power < pow2(53 + gap as nat)) by (nonlinear_arith)
                requires
                    m < pow2(53),
                    power > 0,
                    pow2(53) * power == pow2(53 + gap as nat),
            ;
            lemma_pow2_strictly_increases(53, 126);
            assert(a == (m * power) * unit) by (nonlinear_arith)
                requires
                    a == m * pow2(r as nat),
                    pow2(r as nat) == power * unit,
            ;
        }
        let wide: u128 = m as u128 * power;
        let forward: bool = !apart || wide >= n as u128;
        let digits: u128 = if !apart {
            wide + n as u128
        } else if forward {
            wide - n as u128
        } else {
            n as u128 - wide
        };
        let ghost exact = if apart {
            a - b
        } else {
            (a + b) as int
        };
        let ghost distance = (digits * unit) as nat;
        proof {
            if !apart {
                assert(exact == digits * unit) by (nonlinear_arith)
                    requires
                        exact == wide * unit + n * unit,
                        digits == wide + n,
                ;
            } else if forward {
                assert(exact == digits * unit) by (nonlinear_arith)
                    requires
                        exact == wide * unit - n * unit,
                        digits == wide - n,
                ;
            } else {
                assert(exact == -(digits * unit)) by (nonlinear_arith)
                    requires
                        exact == wide * unit - n * unit,
                        digits == n - wide,
                ;
            }
            assert(digits * unit >= 0 && (digits > 0 ==> digits * unit > 0)) by (nonlinear_arith)
                requires
                    digits >= 0,
                    unit > 0,
            ;
        }
        if digits == 0 {
            proof {
                assert(digits * unit == 0) by (nonlinear_arith)
                    requires
                        digits == 0,
                ;
                lemma_nearest_zero(1);
            }
            (true, 0)
        } else {
            proof {
                let d = 1 * unit;
                assert(d * (digits as nat + 1) == distance + d && d * (digits as nat) == distance)
                    by (nonlinear_arith)
                    requires
                        d == unit,
                        distance == digits * unit,
                ;
                assert(distance * 1 == distance);
            }
            let pattern: u64 = round_digits(digits, t as i32, false, Ghost(distance), Ghost(1nat));
            (forward, pattern)
        }
    } else {
        // The smaller number lies wholly below the twelfth digit after the larger one's last.
        let wide: u128 = m as u128 * 4096;
        let ghost unit = pow2((r - 12) as nat);
        let inexact: bool = n > 0;
        let digits: u128 = if apart && inexact {
            wide - 1
        } else {
            wide
        };
        let ghost distance = if apart {
            (a - b) as nat
        } else {
            a + b
        };
        proof {
            lemma2_to64();
            lemma_pow2_adds(12, (r - 12) as nat);
            lemma_pow2_adds(53, t as nat);
            if 53 + t < r - 12 {
                lemma_pow2_strictly_increases(53 + t as nat, (r - 12) as nat);
            }
            lemma_pow2_pos((r - 12) as nat);
            lemma_pow2_strictly_increases(55, 64);
            lemma_pow2_strictly_increases(66, 127);
            lemma_pow2_adds(53, 13);
            assert(a == wide * unit) by (nonlinear_arith)
                requires
                    a == m * pow2(r as nat),
                    pow2(r as nat) == 4096 * unit,
                    wide == m * 4096,
            ;
            assert(b < unit) by (nonlinear_arith)
                requires
                    b == n * pow2(t as nat),
                    n < pow2(53),
                    pow2(53) * pow2(t as nat) <= unit,
                    pow2(t as nat) > 0,
            ;
            assert((b == 0) == (n == 0)) by (nonlinear_arith)
                requires
                    b == n * pow2(t as nat),
                    pow2(t as nat) > 0,
            ;
            assert(unit <= wide * unit) by (nonlinear_arith)
                requires
                    wide >= 1,
                    unit > 0,
            ;
            let d = 1 * unit;
            assert(d * (wide as nat + 1) == a + d && d * (wide as nat) == a && (
                d * ((wide - 1) as nat) == a - d)) by (nonlinear_arith)
                requires
                    d == unit,
                    a == wide * unit,
                    wide >= 1,
            ;
            assert(distance * 1 == distance);
        }
        let pattern: u64 = round_digits(digits, (r - 12) as i32, inexact, Ghost(distance), Ghost(1nat));
        (true, pattern)
    }
}

impl Binary64 {
    /// Whether the sign bit is set.
    pub fn is_negative(self) -> (negative: bool)
        ensures
            negative == self.negative(),
    {
        self.bits >= SIGN
    }

    /// The bits without the sign.
    pub fn unsigned(self) -> (pattern: u64)
        ensures
            pattern == self.pattern(),
    {
        if self.bits >= SIGN {
            self.bits - SIGN
        } else {
            self.bits
        }
    }

    /// Whether this is a number with a finite value.
    pub fn finite(self) -> (finite: bool)
        ensures
            finite == self.is_finite(),
    {
        self.unsigned() < INFINITE
    }

    /// The number with the sign turned.
    pub fn negate(self) -> (result: Binary64)
        ensures
            result == negated(self),
    {
        if self.bits >= SIGN {
            Binary64 { bits: self.bits - SIGN }
        } else {
            Binary64 { bits: self.bits + SIGN }
        }
    }

    /// The sum of two numbers.
    pub fn plus(self, other: Binary64) -> (result: Binary64)
        ensures
            result == sum_of(self, other),
    {
        let a: u64 = self.unsigned();
        let b: u64 = other.unsigned();
        let apart: bool = self.is_negative() != other.is_negative();
        if a > INFINITE || b > INFINITE || (a == INFINITE && b == INFINITE && apart) {
            Binary64 { bits: 0x7ff8_0000_0000_0000 }
        } else if a == INFINITE {
            self
        } else if b == INFINITE {
            other
        } else {
            let (m, r) = split(a);
            let (n, t) = split(b);
            proof {
                lemma_parts(a as nat);
                lemma_parts(b as nat);
                lemma_nearest_zero(1);
            }
            if r >= t {
                let (forward, pattern) = combine(m, r, n, t, apart);
                let exact_zero: bool = apart && a == b;
                proof {
                    if a < b {
                        lemma_magnitude_grows(a as nat, b as nat);
                    } else if b < a {
                        lemma_magnitude_grows(b as nat, a as nat);
                    }
                }
                if exact_zero || (a == 0 && b == 0) {
                    join(self.is_negative() && other.is_negative(), 0)
                } else {
                    join(self.is_negative() == forward, pattern)
                }
            } else {
                let (forward, pattern) = combine(n, t, m, r, apart);
                proof {
                    lemma_magnitude_grows(a as nat, b as nat);
                }
                join(other.is_negative() == forward, pattern)
            }
        }
    }

    /// This number less another one.
    pub fn minus(self, other: Binary64) -> (result: Binary64)
        ensures
            result == difference_of(self, other),
    {
        self.plus(other.negate())
    }

    /// The product of two numbers.
    pub fn times(self, other: Binary64) -> (result: Binary64)
        ensures
            result == product_of(self, other),
    {
        let a: u64 = self.unsigned();
        let b: u64 = other.unsigned();
        let negative: bool = self.is_negative() != other.is_negative();
        if a > INFINITE || b > INFINITE {
            return Binary64 { bits: 0x7ff8_0000_0000_0000 };
        }
        proof {
            lemma_parts(a as nat);
            lemma_parts(b as nat);
            lemma_edges();
            lemma_pow2_pos(1074);
        }
        if a == INFINITE || b == INFINITE {
            if a == 0 || b == 0 {
                Binary64 { bits: 0x7ff8_0000_0000_0000 }
            } else {
                join(negative, INFINITE)
            }
        } else if a == 0 || b == 0 {
            proof {
                assert(self.magnitude() * other.magnitude() == 0) by (nonlinear_arith)
                    requires
                        self.magnitude() == 0 || other.magnitude() == 0,
                ;
                lemma_nearest_zero(one());
            }
            join(negative, 0)
        } else {
            let (m, r) = split(a);
            let (n, t) = split(b);
            let ghost num = self.magnitude() * other.magnitude();
            proof {
                lemma_pow2_adds(53, 53);
                lemma_pow2_strictly_increases(106, 127);
                lemma_pow2_127(106);
                assert(0 < m * n < pow2(106)) by (nonlinear_arith)
                    requires
                        0 < m < pow2(53),
                        0 < n < pow2(53),
                        pow2(53) * pow2(53) == pow2(106),
                ;
            }
            let digits: u128 = m as u128 * n as u128;
            let position: i32 = r as i32 + t as i32 - 1074;
            proof {
                let up = doublings(position as int);
                let down = halvings(position as int);
                lemma_pow2_adds(r as nat, t as nat);
                lemma_pow2_adds(r as nat + t as nat, down);
                lemma_pow2_adds(1074, up);
                let d = one() * pow2(up);
                let n0 = num * pow2(down);
                assert(n0 == d * (digits as nat)) by (nonlinear_arith)
                    requires
                        num == (m * pow2(r as nat)) * (n * pow2(t as nat)),
                        n0 == num * pow2(down),
                        d == one() * pow2(up),
                        digits == m * n,
                        pow2(r as nat) * pow2(t as nat) == pow2(r as nat + t as nat),
                        pow2(r as nat + t as nat) * pow2(down) == one() * pow2(up),
                ;
                lemma_pow2_pos(up);
                assert(d > 0) by (nonlinear_arith)
                    requires
                        d == one() * pow2(up),
                        one() > 0,
                        pow2(up) > 0,
                ;
                assert(d * (digits as nat + 1) == d * (digits as nat) + d) by (nonlinear_arith);
            }
            let pattern: u64 = round_digits(digits, position, false, Ghost(num), Ghost(one()));
            join(negative, pattern)
        }
    }

    /// This number divided by another one.
    pub fn over(self, other: Binary64) -> (result: Binary64)
        ensures
            result == quotient_of(self, other),
    {
        let a: u64 = self.unsigned();
        let b: u64 = other.unsigned();
        let negative: bool = self.is_negative() != other.is_negative();
        if a > INFINITE || b > INFINITE || (a == INFINITE && b == INFINITE) {
            return Binary64 { bits: 0x7ff8_0000_0000_0000 };
        }
        proof {
            lemma_parts(a as nat);
            lemma_parts(b as nat);
            lemma_edges();
            lemma_pow2_pos(1074);
        }
        if a == INFINITE {
            join(negative, INFINITE)
        } else if b == INFINITE {
            join(negative, 0)
        } else if b == 0 {
            if a == 0 {
                Binary64 { bits: 0x7ff8_0000_0000_0000 }
            } else {
                join(negative, INFINITE)
            }
        } else if a == 0 {
            proof {
                assert(self.magnitude() * one() == 0) by (nonlinear_arith)
                    requires
                        self.magnitude() == 0,
                ;
                lemma_nearest_zero(other.magnitude());
            }
            join(negative, 0)
        } else {
            let (m, r) = split(a);
            let (n, t) = split(b);
            let length: u32 = bit_length(m as u128);
            proof {
                if length > 53 {
                    if length > 54 {
                        lemma_pow2_strictly_increases(53, (length - 1) as nat);
                    }
                    assert(false);
                }
            }
            let lift: u32 = 127 - length;
            let power: u128 = power_of_two(lift);
            proof {
                lemma_pow2_pos(lift as nat);
                lemma_pow2_127(lift as nat);
                lemma_pow2_adds(length as nat, lift as nat);
                lemma_pow2_adds((length - 1) as nat, lift as nat);
                assert(pow2(126) <= m * power < pow2(127)) by (nonlinear_arith)
                    requires
                        pow2((length - 1) as nat) <= m < pow2(length as nat),
                        power == pow2(lift as nat),
                        power > 0,
                        pow2((length - 1) as nat) * power == pow2(126),
                        pow2(length as nat) * power == pow2(127),
                ;
            }
            let wide: u128 = m as u128 * power;
            let digits: u128 = wide / n as u128;
            let rest: u128 = wide % n as u128;
            let position: i32 = r as i32 + 1074 - t as i32 - lift as i32;
            let ghost num = self.magnitude() * one();
            let ghost den = other.magnitude();
            proof {
                vstd::arithmetic::div_mod::lemma_fundamental_div_mod(wide as int, n as int);
                lemma_pow2_adds(55, 71);
                lemma_pow2_strictly_increases(53, 71);
                lemma_pow2_pos(55);
                assert(digits >= pow2(55)) by (nonlinear_arith)
                    requires
                        wide == n * digits + rest,
                        rest < n,
                        n < pow2(71),
                        wide >= pow2(55) * pow2(71),
                        digits >= 0,
                ;
                assert(digits <= wide) by (nonlinear_arith)
                    requires
                        wide == n * digits + rest,
                        n >= 1,
                        rest >= 0,
                        digits >= 0,
                ;
                let up = doublings(position as int);
                let down = halvings(position as int);
                lemma_pow2_adds(r as nat, 1074);
                lemma_pow2_adds(r as nat + 1074, down);
                lemma_pow2_adds(t as nat, up);
                lemma_pow2_adds(lift as nat, t as nat + up);
                let d = den * pow2(up);
                let n0 = num * pow2(down);
                let unit = pow2(t as nat + up);
                lemma_pow2_pos(t as nat + up);
                assert(d == n * unit) by (nonlinear_arith)
                    requires
                        d == den * pow2(up),
                        den == n * pow2(t as nat),
                        unit == pow2(t as nat) * pow2(up),
                ;
                assert(n0 == wide * unit) by (nonlinear_arith)
                    requires
                        n0 == num * pow2(down),
                        num == (m * pow2(r as nat)) * one(),
                        pow2(r as nat) * one() == pow2(r as nat + 1074),
                        pow2(r as nat + 1074) * pow2(down) == power * unit,
                        wide == m * power,
                ;
                assert(n0 == d * digits + rest * unit) by (nonlinear_arith)
                    requires
                        n0 == wide * unit,
                        d == n * unit,
                        wide == n * digits + rest,
                ;
                assert(0 <= rest * unit < d && (rest == 0) == (rest * unit == 0)) by (nonlinear_arith)
                    requires
                        0 <= rest < n,
                        unit > 0,
                        d == n * unit,
                ;
                assert(d * (digits as nat + 1) == d * (digits as nat) + d) by (nonlinear_arith);
            }
            let pattern: u64 = round_digits(digits, position, rest != 0, Ghost(num), Ghost(den));
            join(negative, pattern)
        }
    }

    /// Whether this number is below another one.
    pub fn is_below(self, other: Binary64) -> (result: bool)
        ensures
            result == below(self, other),
    {
        let a: u64 = self.unsigned();
        let b: u64 = other.unsigned();
        if a > INFINITE || b > INFINITE {
            return false;
        }
        proof {
            lemma_parts(a as nat);
            lemma_parts(b as nat);
            if a < b {
                lemma_magnitude_grows(a as nat, b as nat);
            } else if b < a {
                lemma_magnitude_grows(b as nat, a as nat);
            }
        }
        if self.is_negative() {
            if other.is_negative() {
                b < a
            } else {
                a != 0 || b != 0
            }
        } else if other.is_negative() {
            false
        } else {
            a < b
        }
    }

    /// Whether this number is below another one or equal to it.
    pub fn is_at_most(self, other: Binary64) -> (result: bool)
        ensures
            result == at_most(self, other),
    {
        self.unsigned() <= INFINITE && other.unsigned() <= INFINITE && !other.is_below(self)
    }
}

/// The unsigned pattern nearest to a whole number.
fn whole_pattern(count: u64) -> (pattern: u64)
    ensures
        pattern <= INFINITE,
        with_sign(false, pattern as nat) == whole(false, count as nat),
        with_sign(true, pattern as nat) == whole(true, count as nat),
{
    proof {
        lemma_edges();
        lemma_pow2_pos(1074);
    }
    if count == 0 {
        proof {
            assert(count as nat * one() == 0) by (nonlinear_arith)
                requires
                    count == 0,
            ;
            lemma_nearest_zero(1);
        }
        return 0;
    }
    let ghost num = count as nat * one();
    proof {
        lemma2_to64();
        lemma_pow2_strictly_increases(64, 127);
        let d = 1 * one();
        assert(d * (count as nat) == num && d * (count as nat + 1) == num + d) by (nonlinear_arith)
            requires
                d == one(),
                num == count as nat * one(),
        ;
        assert(num * 1 == num);
    }
    round_digits(count as u128, 1074, false, Ghost(num), Ghost(1nat))
}

impl Binary64 {
    /// The number nearest to a count.
    pub fn from_count(count: u64) -> (number: Binary64)
        ensures
            number == whole(false, count as nat),
    {
        join(false, whole_pattern(count))
    }

    /// The number nearest to an integer.
    pub fn from_integer(integer: i64) -> (number: Binary64)
        ensures
            number == if integer < 0 {
                whole(true, (-integer) as nat)
            } else {
                whole(false, integer as nat)
            },
    {
        if integer < 0 {
            let count: u64 = (-(integer as i128)) as u64;
            join(true, whole_pattern(count))
        } else {
            join(false, whole_pattern(integer as u64))
        }
    }

    /// The nearest whole number, halves going away from zero.
    pub fn round(self) -> (number: Binary64)
        ensures
            number == half_away(self),
    {
        let p: u64 = self.unsigned();
        if p > INFINITE {
            return Binary64 { bits: 0x7ff8_0000_0000_0000 };
        }
        if p == INFINITE {
            return self;
        }
        let (m, r) = split(p);
        proof {
            lemma_parts(p as nat);
            lemma_edges();
            lemma_pow2_pos(1074);
            lemma_pow2_pos(r as nat);
        }
        let ghost mag = self.magnitude();
        if r >= 1074 {
            proof {
                let rise = (r - 1074) as nat;
                let k = m as nat * pow2(rise);
                lemma_pow2_adds(rise, 1074);
                assert(mag == k * one()) by (nonlinear_arith)
                    requires
                        mag == m as nat * pow2(r as nat),
                        k == m as nat * pow2(rise),
                        pow2(r as nat) == pow2(rise) * one(),
                ;
                assert(2 * mag + one() == (2 * one()) * k + one()) by (nonlinear_arith)
                    requires
                        mag == k * one(),
                ;
                lemma_quotient_unique(2 * mag + one(), 2 * one(), k, one());
                law_representable_is_kept(p as nat);
            }
            self
        } else {
            let drop: u32 = 1074 - r;
            let ghost unit = pow2(r as nat);
            proof {
                lemma_pow2_adds(r as nat, drop as nat);
            }
            if drop > 60 {
                proof {
                    lemma_pow2_strictly_increases(54, drop as nat);
                    lemma_pow2_unfold(54);
                    assert(2 * mag < one()) by (nonlinear_arith)
                        requires
                            mag == m as nat * unit,
                            2 * m < pow2(drop as nat),
                            one() == unit * pow2(drop as nat),
                            unit > 0,
                    ;
                    lemma_quotient_unique(2 * mag + one(), 2 * one(), 0, 2 * mag + one());
                    assert(0 * one() == 0);
                    lemma_nearest_zero(1);
                }
                join(self.is_negative(), 0)
            } else {
                proof {
                    lemma_pow2_127(60);
                    lemma2_to64_rest();
                    if drop < 60 {
                        lemma_pow2_strictly_increases(drop as nat, 60);
                    }
                }
                let power: u64 = power_of_two(drop) as u64;
                proof {
                    lemma_pow2_pos(drop as nat);
                }
                let count: u64 = (2 * m + power) / (2 * power);
                proof {
                    let top = 2 * m as nat + power as nat;
                    let bottom = 2 * power as nat;
                    assert(2 * mag + one() == top * unit) by (nonlinear_arith)
                        requires
                            mag == m as nat * unit,
                            one() == unit * (power as nat),
                            top == 2 * m as nat + power as nat,
                    ;
                    assert(2 * one() == bottom * unit) by (nonlinear_arith)
                        requires
                            one() == unit * (power as nat),
                            bottom == 2 * power as nat,
                    ;
                    let rest = top % bottom;
                    vstd::arithmetic::div_mod::lemma_fundamental_div_mod(top as int, bottom as int);
                    assert(top * unit == (bottom * unit) * (count as nat) + rest * unit)
                        by (nonlinear_arith)
                        requires
                            top == bottom * (count as nat) + rest,
                    ;
                    assert(rest * unit < bottom * unit) by (nonlinear_arith)
                        requires
                            rest < bottom,
                            unit > 0,
                    ;
                    lemma_quotient_unique(
                        2 * mag + one(),
                        2 * one(),
                        count as nat,
                        rest * unit,
                    );
                }
                join(self.is_negative(), whole_pattern(count))
            }
        }
    }

    /// The whole part as an integer, cut off at the ends of the type.
    pub fn to_integer(self) -> (integer: i64)
        ensures
            integer == cut_to_integer(self),
    {
        let p: u64 = self.unsigned();
        if p > INFINITE {
            return 0;
        }
        let (m, r) = split(p);
        let ghost mag = self.magnitude();
        proof {
            lemma_parts(p as nat);
            lemma_edges();
            lemma2_to64();
            lemma2_to64_rest();
            lemma_pow2_pos(1074);
            lemma_pow2_pos(r as nat);
        }
        if r >= 1085 {
            proof {
                let rise = (r - 1074) as nat;
                let k = m as nat * pow2(rise);
                lemma_pow2_adds(rise, 1074);
                assert(mag == one() * k) by (nonlinear_arith)
                    requires
                        mag == m as nat * pow2(r as nat),
                        k == m as nat * pow2(rise),
                        pow2(r as nat) == pow2(rise) * one(),
                ;
                lemma_quotient_unique(mag, one(), k, 0);
                if rise > 11 {
                    lemma_pow2_strictly_increases(11, rise);
                }
                assert(k >= 0x8000_0000_0000_0000) by (nonlinear_arith)
                    requires
                        k == m as nat * pow2(rise),
                        m >= 0x10_0000_0000_0000,
                        pow2(rise) >= 2048,
                ;
            }
            if self.is_negative() {
                i64::MIN
            } else {
                i64::MAX
            }
        } else {
            let count: u64 = if r >= 1074 {
                let rise: u32 = r - 1074;
                proof {
                    if rise < 10 {
                        lemma_pow2_strictly_increases(rise as nat, 10);
                    }
                    lemma_pow2_pos(rise as nat);
                    lemma_pow2_adds(rise as nat, 1074);
                }
                let power: u64 = power_of_two(rise) as u64;
                proof {
                    let k = m as nat * power as nat;
                    assert(mag == one() * k) by (nonlinear_arith)
                        requires
                            mag == m as nat * pow2(r as nat),
                            k == m as nat * power as nat,
                            pow2(r as nat) == power as nat * one(),
                    ;
                    lemma_quotient_unique(mag, one(), k, 0);
                    assert(k < 0x8000_0000_0000_0000) by (nonlinear_arith)
                        requires
                            k == m as nat * power as nat,
                            m < 0x20_0000_0000_0000,
                            power <= 1024,
                    ;
                }
                m * power
            } else {
                let drop: u32 = 1074 - r;
                let ghost unit = pow2(r as nat);
                proof {
                    lemma_pow2_adds(r as nat, drop as nat);
                }
                if drop > 60 {
                    proof {
                        lemma_pow2_strictly_increases(54, drop as nat);
                        assert(mag < one()) by (nonlinear_arith)
                            requires
                                mag == m as nat * unit,
                                m < pow2(drop as nat),
                                one() == unit * pow2(drop as nat),
                                unit > 0,
                        ;
                        lemma_quotient_unique(mag, one(), 0, mag);
                    }
                    0
                } else {
                    proof {
                        if drop < 60 {
                            lemma_pow2_strictly_increases(drop as nat, 60);
                        }
                        lemma_pow2_pos(drop as nat);
                    }
                    let power: u64 = power_of_two(drop) as u64;
                    let count: u64 = m / power;
                    proof {
                        let rest = (m % power) as nat;
                        vstd::arithmetic::div_mod::lemma_fundamental_div_mod(
                            m as int,
                            power as int,
                        );
                        assert(mag == one() * (count as nat) + rest * unit) by (nonlinear_arith)
                            requires
                                mag == m as nat * unit,
                                one() == unit * (power as nat),
                                m == power * count + rest,
                        ;
                        assert(rest * unit < one()) by (nonlinear_arith)
                            requires
                                rest < power,
                                one() == unit * (power as nat),
                                unit > 0,
                        ;
                        lemma_quotient_unique(mag, one(), count as nat, rest * unit);
                    }
                    count
                }
            };
            if self.is_negative() {
                -(count as i64)
            } else {
                count as i64
            }
        }
    }

    /// The distance from zero.
    pub fn abs(self) -> (number: Binary64)
        ensures
            number == distance(self),
    {
        Binary64 { bits: self.unsigned() }
    }

    /// The larger of two numbers; where one is no number, the other one.
    pub fn max(self, other: Binary64) -> (number: Binary64)
        ensures
            number == larger_of(self, other),
    {
        if self.unsigned() > INFINITE || self.is_below(other) {
            other
        } else {
            self
        }
    }
}

/// Squares keep the order.
proof fn lemma_square_grows(a: nat, b: nat)
    requires
        a <= b,
    ensures
        square(a) <= square(b),
        a < b ==> square(a) < square(b),
{
    assert(a * a <= b * b) by (nonlinear_arith)
        requires
            0 <= a <= b,
    ;
    assert(a < b ==> a * a < b * b) by (nonlinear_arith)
        requires
            0 <= a <= b,
    ;
}

/// A number has one root.
proof fn lemma_root_unique(low: nat, high: nat, num: nat)
    requires
        is_root_pattern(low, num),
        is_root_pattern(high, num),
    ensures
        low == high,
    decreases (if low > high { 1int } else { 0int }),
{
    if low < high {
        let before = (high - 1) as nat;
        if low < before {
            lemma_magnitude_grows(low, before);
        }
        if low + 1 < high {
            lemma_magnitude_grows(low + 1, high);
        }
        lemma_square_grows(
            magnitude_of(low) + magnitude_of(low + 1),
            magnitude_of(before) + magnitude_of(high),
        );
    } else if high < low {
        lemma_root_unique(high, low, num);
    }
}

/// The whole part of a square root.
fn whole_root(number: u128) -> (root: u64)
    ensures
        square(root as nat) <= number < square(root as nat + 1),
{
    let mut low: u64 = 0;
    let mut high: u64 = 0xffff_ffff_ffff_ffff;
    assert(square(0) == 0);
    assert(square(0x1_0000_0000_0000_0000) == 0x1_0000_0000_0000_0000_0000_0000_0000_0000)
        by (nonlinear_arith);
    while low < high
        invariant
            low <= high,
            square(low as nat) <= number < square(high as nat + 1),
        decreases high - low,
    {
        let middle: u64 = high - (high - low) / 2;
        proof {
            assert(middle as nat * middle as nat <= 0xffff_ffff_ffff_ffff * 0xffff_ffff_ffff_ffff)
                by (nonlinear_arith)
                requires
                    0 <= middle <= 0xffff_ffff_ffff_ffff,
            ;
        }
        if middle as u128 * middle as u128 <= number {
            low = middle;
        } else {
            high = middle - 1;
        }
    }
    low
}

/// The rounded mantissa of a root stands at the right pattern.
proof fn lemma_root_pattern(num: nat, n: nat, step: nat)
    requires
        IMPLICIT <= n <= MANTISSA_END,
        step <= 2000,
        square(((2 * n - 1) as nat) * pow2(step)) <= 4 * num < square((2 * n + 1) * pow2(step)),
        n == IMPLICIT ==> square((2 * n) * pow2(step)) <= 4 * num,
    ensures
        is_root_pattern(step * IMPLICIT as nat + n, num),
{
    let pattern = step * IMPLICIT as nat + n;
    let unit = pow2(step);
    lemma_pow2_pos(step);
    lemma_pow2_unfold(step + 1);
    let here = magnitude_of(pattern);
    let next = magnitude_of(pattern + 1);
    let last = magnitude_of((pattern - 1) as nat);
    assert(here == n * unit) by {
        if n < MANTISSA_END {
            assert(mantissa_of(pattern) == n && scale_of(pattern) == step);
        } else {
            assert(pattern == (step + 2) * IMPLICIT);
            assert(mantissa_of(pattern) == IMPLICIT && scale_of(pattern) == step + 1);
            assert(IMPLICIT * (2 * unit) == MANTISSA_END * unit) by (nonlinear_arith)
                requires
                    MANTISSA_END == 2 * IMPLICIT,
            ;
        }
    }
    assert(next >= (n + 1) * unit) by {
        if n + 1 < MANTISSA_END {
            assert(mantissa_of(pattern + 1) == n + 1 && scale_of(pattern + 1) == step);
        } else if n + 1 == MANTISSA_END {
            assert(pattern + 1 == (step + 2) * IMPLICIT);
            assert(mantissa_of(pattern + 1) == IMPLICIT && scale_of(pattern + 1) == step + 1);
            assert(IMPLICIT * (2 * unit) == MANTISSA_END * unit) by (nonlinear_arith)
                requires
                    MANTISSA_END == 2 * IMPLICIT,
            ;
        } else {
            assert(pattern + 1 == (step + 2) * IMPLICIT + 1);
            assert(mantissa_of(pattern + 1) == IMPLICIT + 1 && scale_of(pattern + 1) == step + 1);
            assert((IMPLICIT + 1) * (2 * unit) >= (MANTISSA_END + 1) * unit) by (nonlinear_arith)
                requires
                    MANTISSA_END == 2 * IMPLICIT,
                    unit > 0,
            ;
        }
    }
    assert(n * unit + (n + 1) * unit == (2 * n + 1) * unit) by (nonlinear_arith);
    lemma_square_grows((2 * n + 1) * unit, here + next);
    if n > IMPLICIT {
        assert(last == ((n - 1) as nat) * unit) by {
            assert(mantissa_of((pattern - 1) as nat) == n - 1 && scale_of((pattern - 1) as nat)
                == step);
        }
        assert(((n - 1) as nat) * unit + n * unit == ((2 * n - 1) as nat) * unit)
            by (nonlinear_arith)
            requires
                n >= 1,
        ;
    } else {
        lemma_magnitude_grows((pattern - 1) as nat, pattern);
        assert(n * unit + n * unit == (2 * n) * unit) by (nonlinear_arith);
        lemma_square_grows(last + here, (2 * n) * unit);
    }
}

impl Binary64 {
    /// The square root.
    pub fn sqrt(self) -> (root: Binary64)
        ensures
            root == root_of(self),
    {
        let p: u64 = self.unsigned();
        if p > INFINITE {
            return Binary64 { bits: 0x7ff8_0000_0000_0000 };
        }
        proof {
            lemma_parts(p as nat);
        }
        if p == 0 {
            return self;
        }
        if self.is_negative() {
            return Binary64 { bits: 0x7ff8_0000_0000_0000 };
        }
        if p == INFINITE {
            return self;
        }
        let (m, r) = split(p);
        let length: u32 = bit_length(m as u128);
        proof {
            lemma_edges();
            lemma_pow2_pos(1074);
            if length > 53 {
                if length > 54 {
                    lemma_pow2_strictly_increases(53, (length - 1) as nat);
                }
                assert(false);
            }
        }
        // Lift the mantissa to 125 or 126 digits, so that an even number of doublings is left.
        let exponent: u32 = r + 1074;
        let lift: u32 = if (exponent + 126 - length) % 2 == 0 {
            126 - length
        } else {
            125 - length
        };
        let power: u128 = power_of_two(lift);
        let ghost lead = (length - 1 + lift) as nat;
        proof {
            lemma_pow2_pos(lift as nat);
            lemma_pow2_adds(length as nat, lift as nat);
            lemma_pow2_adds((length - 1) as nat, lift as nat);
            lemma_pow2_127(126);
            if length + lift < 126 {
                lemma_pow2_strictly_increases((length + lift) as nat, 126);
            }
            if lead > 124 {
                lemma_pow2_strictly_increases(124, lead);
            }
            assert(pow2(lead) <= m * power < pow2((length + lift) as nat)) by (nonlinear_arith)
                requires
                    pow2((length - 1) as nat) <= m < pow2(length as nat),
                    power > 0,
                    pow2((length - 1) as nat) * power == pow2(lead),
                    pow2(length as nat) * power == pow2((length + lift) as nat),
            ;
        }
        let wide: u128 = m as u128 * power;
        let root: u64 = whole_root(wide);
        let position: u32 = (exponent - lift) / 2;
        proof {
            // The root has 63 digits.
            lemma2_to64();
            lemma2_to64_rest();
            lemma_pow2_adds(62, 62);
            lemma_pow2_adds(63, 63);
            if root < pow2(62) {
                lemma_square_grows(root as nat + 1, pow2(62));
                assert(false);
            }
            if root >= pow2(63) {
                lemma_square_grows(pow2(63), root as nat);
                assert(false);
            }
        }
        let count: u64 = (root + 512) / 1024;
        let pattern: u64 = (position + 10) as u64 * IMPLICIT + count;
        proof {
            let num = self.magnitude() * one();
            let unit = pow2(position as nat);
            let step = (position + 10) as nat;
            let n = count as nat;
            lemma_pow2_pos(position as nat);
            lemma_pow2_adds(10, position as nat);
            lemma_pow2_adds(r as nat, 1074);
            lemma_pow2_adds(position as nat, position as nat);
            lemma_pow2_adds(lift as nat, (2 * position) as nat);
            assert(lift + 2 * position == exponent);
            assert(num == wide as nat * square(unit)) by (nonlinear_arith)
                requires
                    num == (m as nat * pow2(r as nat)) * one(),
                    pow2(r as nat) * one() == pow2(exponent as nat),
                    pow2(exponent as nat) == power as nat * square(unit),
                    wide as nat == m as nat * power as nat,
            ;
            let big = pow2(step);
            assert(big == 1024 * unit);
            let down = (2 * n - 1) as nat;
            let up = 2 * n + 1;
            assert(down * 512 <= root);
            assert(root + 1 <= up * 512);
            lemma_square_grows(down * 512, root as nat);
            lemma_square_grows(root as nat + 1, up * 512);
            assert(square(down * big) == 4 * (square(down * 512) * square(unit)))
                by (nonlinear_arith)
                requires
                    big == 1024 * unit,
                    square(down * big) == (down * big) * (down * big),
                    square(down * 512) == (down * 512) * (down * 512),
                    square(unit) == unit * unit,
            ;
            assert(square(up * big) == 4 * (square(up * 512) * square(unit)))
                by (nonlinear_arith)
                requires
                    big == 1024 * unit,
                    square(up * big) == (up * big) * (up * big),
                    square(up * 512) == (up * 512) * (up * 512),
                    square(unit) == unit * unit,
            ;
            assert(square(unit) > 0) by (nonlinear_arith)
                requires
                    unit > 0,
                    square(unit) == unit * unit,
            ;
            assert(square(down * 512) * square(unit) <= wide as nat * square(unit))
                by (nonlinear_arith)
                requires
                    square(down * 512) <= wide as nat,
            ;
            assert(wide as nat * square(unit) < square(up * 512) * square(unit))
                by (nonlinear_arith)
                requires
                    (wide as nat) < square(up * 512),
                    square(unit) > 0,
            ;
            if n == IMPLICIT {
                let even = 2 * n;
                assert(even * 512 <= root);
                lemma_square_grows(even * 512, root as nat);
                assert(square(even * big) == 4 * (square(even * 512) * square(unit)))
                    by (nonlinear_arith)
                    requires
                        big == 1024 * unit,
                        square(even * big) == (even * big) * (even * big),
                        square(even * 512) == (even * 512) * (even * 512),
                        square(unit) == unit * unit,
                ;
                assert(square(even * 512) * square(unit) <= wide as nat * square(unit))
                    by (nonlinear_arith)
                    requires
                        square(even * 512) <= wide as nat,
                ;
            }
            lemma_root_pattern(num, n, step);
            lemma_root_unique(root_pattern(num), pattern as nat, num);
        }
        join(false, pattern)
    }
}

}
