//! How far the results of binary64 operations are from the exact ones.

use crate::binary64;
use crate::binary64::{Binary64, IMPLICIT, INFINITE, MANTISSA_END};
use crate::rounding;
use vstd::arithmetic::power2::*;
use vstd::prelude::*;

verus! {

/// The distance of an integer from zero.
pub open spec fn size(x: int) -> int {
    if x < 0 {
        -x
    } else {
        x
    }
}

/// The largest finite number, in smallest steps: sums, products and quotients up to it do not reach
/// the infinity.
#[verifier::opaque]
pub open spec fn limit() -> nat {
    binary64::magnitude_of((INFINITE - 1) as nat)
}

/// The largest finite number has 53 bits, all of them ones.
pub(crate) proof fn lemma_limit()
    ensures
        limit() == (MANTISSA_END - 1) * pow2(2045),
        pow2(2097) <= limit() < pow2(2098),
{
    reveal(limit);
    binary64::lemma_edges();
    lemma_pow2_adds(52, 2045);
    lemma_pow2_adds(53, 2045);
    lemma_pow2_pos(2045);
    let unit = pow2(2045) as int;
    assert(IMPLICIT * unit <= (MANTISSA_END - 1) * unit < MANTISSA_END * unit) by (nonlinear_arith)
        requires
            IMPLICIT <= MANTISSA_END - 1,
            unit > 0,
    ;
}

/// No finite number is beyond the largest.
pub(crate) proof fn lemma_finite_numbers_are_within(number: Binary64)
    requires
        number.is_finite(),
    ensures
        size(number.value()) <= limit(),
{
    reveal(limit);
    if number.pattern() < INFINITE - 1 {
        binary64::lemma_magnitude_grows(number.pattern(), (INFINITE - 1) as nat);
    }
}

/// The number one is many smallest steps, and far below the limit.
pub(crate) proof fn lemma_one_is_large()
    ensures
        binary64::one() >= 0x1000_0000_0000_0000,
        0x100_0000_0000_0000 * binary64::one() <= limit(),
{
    lemma2_to64();
    lemma2_to64_rest();
    lemma_pow2_adds(60, 1014);
    lemma_pow2_pos(1014);
    assert(pow2(1074) >= pow2(60)) by (nonlinear_arith)
        requires
            pow2(1074) == pow2(60) * pow2(1014),
            pow2(1014) > 0,
            pow2(60) >= 0,
    ;
    lemma_pow2_adds(56, 1074);
    lemma_pow2_strictly_increases(1130, 2097);
    lemma_limit();
}

/// A quotient is rounded with an error of at most half of its last place, or half a smallest step.
/// Within the limit it is rounded to a finite number.
pub proof fn law_rounding_error(num: nat, den: nat)
    requires
        den > 0,
    ensures
        ({
            let pattern = binary64::nearest_pattern(num, den);
            let error = size(binary64::magnitude_of(pattern) * den - num);
            &&& num <= limit() * den ==> pattern < INFINITE
            &&& MANTISSA_END * error <= num || 2 * error <= den
            &&& MANTISSA_END * error <= num + IMPLICIT * den
        }),
{
    let pattern = binary64::nearest_pattern(num, den);
    reveal(limit);
    rounding::law_rounding_stops_at_held_numbers(num, den, (INFINITE - 1) as nat);
    binary64::lemma_edges();
    let step = binary64::find_step(num, den);
    binary64::lemma_nearest_pattern_at(num, den, step);
    lemma_pow2_pos(step);
    let unit = pow2(step);
    let wide = den * unit;
    assert(wide > 0) by (nonlinear_arith)
        requires
            wide == den * unit,
            den > 0,
            unit > 0,
    ;
    binary64::lemma_rounded_magnitude(num, den, step);
    let n = binary64::half_even(num, wide);
    assert(binary64::magnitude_of(pattern) == n * unit);
    assert((n * unit) * den == n * wide) by (nonlinear_arith)
        requires
            wide == den * unit,
    ;
    vstd::arithmetic::div_mod::lemma_fundamental_div_mod(num as int, wide as int);
    let quotient = num / wide;
    assert(quotient * wide == wide * quotient) by (nonlinear_arith);
    assert((quotient + 1) * wide == wide * quotient + wide) by (nonlinear_arith);
    let error = size(n * wide - num);
    assert(2 * error <= wide);
    if step == 0 {
        assert(unit == 1);
        assert(wide == den) by (nonlinear_arith)
            requires
                wide == den * unit,
                unit == 1,
        ;
        assert(MANTISSA_END == 2 * IMPLICIT);
        assert(MANTISSA_END * error <= IMPLICIT * den) by (nonlinear_arith)
            requires
                2 * error <= den,
                MANTISSA_END == 2 * IMPLICIT,
        ;
    } else {
        lemma_pow2_adds(52, step);
        assert(MANTISSA_END * error <= num) by (nonlinear_arith)
            requires
                2 * error <= wide,
                wide == den * unit,
                den * (IMPLICIT * unit) <= num,
                MANTISSA_END == 2 * IMPLICIT,
        ;
        assert(IMPLICIT * den >= 0) by (nonlinear_arith)
            requires
                den > 0,
        ;
    }
}

/// The error of a sum that is finite.
pub proof fn law_sum_error(a: Binary64, b: Binary64)
    requires
        a.is_finite(),
        b.is_finite(),
    ensures
        ({
            let sum = binary64::sum_of(a, b);
            let exact = a.value() + b.value();
            &&& !sum.is_nan()
            &&& size(exact) <= limit() ==> sum.is_finite()
            &&& sum.is_infinite() ==> sum.negative() == (exact < 0)
            &&& sum.is_finite() ==> MANTISSA_END * size(sum.value() - exact) <= size(exact)
        }),
{
    let exact = a.value() + b.value();
    let num = size(exact) as nat;
    law_rounding_error(num, 1);
    let pattern = binary64::nearest_pattern(num, 1);
    rounding::lemma_with_sign(exact < 0, pattern);
    rounding::lemma_with_sign(a.negative() && b.negative(), 0);
    binary64::lemma_parts(0);
    assert(binary64::magnitude_of(pattern) * 1 == binary64::magnitude_of(pattern));
    let error = size(binary64::magnitude_of(pattern) - num);
    assert(MANTISSA_END * error <= num) by {
        if 2 * error <= 1 {
            assert(error == 0);
        }
    }
    if exact == 0 {
        assert(MANTISSA_END * 0 == 0);
    }
}

/// The error of a product that is finite.
pub proof fn law_product_error(a: Binary64, b: Binary64)
    requires
        a.is_finite(),
        b.is_finite(),
    ensures
        ({
            let product = binary64::product_of(a, b);
            let exact = a.value() * b.value();
            &&& !product.is_nan()
            &&& size(exact) <= limit() * binary64::one() ==> product.is_finite()
            &&& product.is_finite() ==> MANTISSA_END * size(product.value() * binary64::one() - exact)
                <= size(exact) + IMPLICIT * binary64::one()
            &&& product.negative() == (a.negative() != b.negative())
        }),
{
    let (x, y) = (a.magnitude() as int, b.magnitude() as int);
    let exact = a.value() * b.value();
    let negative = a.negative() != b.negative();
    let one = binary64::one();
    lemma_pow2_pos(1074);
    assert(exact == if negative {
        -(x * y)
    } else {
        x * y
    }) by (nonlinear_arith)
        requires
            exact == a.value() * b.value(),
            a.value() == (if a.negative() {
                -x
            } else {
                x
            }),
            b.value() == (if b.negative() {
                -y
            } else {
                y
            }),
            negative == (a.negative() != b.negative()),
    ;
    assert(x * y >= 0) by (nonlinear_arith)
        requires
            x >= 0,
            y >= 0,
    ;
    let num = (x * y) as nat;
    law_rounding_error(num, one);
    let pattern = binary64::nearest_pattern(num, one);
    rounding::lemma_with_sign(negative, pattern);
    let product = binary64::product_of(a, b);
    let m = binary64::magnitude_of(pattern) as int;
    assert(product.is_finite() ==> product.value() == if negative {
        -m
    } else {
        m
    });
    assert((-m) * one == -(m * one)) by (nonlinear_arith);
}

/// The error of a quotient that is finite.
pub proof fn law_quotient_error(a: Binary64, b: Binary64)
    requires
        a.is_finite(),
        b.is_finite(),
        b.pattern() != 0,
    ensures
        ({
            let quotient = binary64::quotient_of(a, b);
            let exact = a.value() * binary64::one();
            &&& !quotient.is_nan()
            &&& size(a.value()) * binary64::one() <= limit() * size(b.value())
                ==> quotient.is_finite()
            &&& quotient.is_finite() ==> MANTISSA_END * size(quotient.value() * b.value() - exact)
                <= size(a.value()) * binary64::one() + IMPLICIT * size(b.value())
            &&& quotient.negative() == (a.negative() != b.negative())
        }),
{
    let (x, y) = (a.magnitude() as int, b.magnitude() as int);
    let negative = a.negative() != b.negative();
    let one = binary64::one();
    lemma_pow2_pos(1074);
    binary64::lemma_parts(b.pattern());
    assert(size(a.value()) == x && size(b.value()) == y);
    assert(x * one >= 0) by (nonlinear_arith)
        requires
            x >= 0,
            one >= 0,
    ;
    let num = (x * one) as nat;
    law_rounding_error(num, y as nat);
    let pattern = binary64::nearest_pattern(num, y as nat);
    rounding::lemma_with_sign(negative, pattern);
    let quotient = binary64::quotient_of(a, b);
    let m = binary64::magnitude_of(pattern) as int;
    assert(quotient.is_finite() ==> quotient.value() == if negative {
        -m
    } else {
        m
    });
    assert((-m) * y == -(m * y)) by (nonlinear_arith);
    assert(m * (-y) == -(m * y)) by (nonlinear_arith);
    assert((-m) * (-y) == m * y) by (nonlinear_arith);
    assert((-x) * one == -(x * one)) by (nonlinear_arith);
}

} // verus!
