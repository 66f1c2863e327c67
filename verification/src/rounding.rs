//! What rounding to binary64 keeps: order, scale, and what the format holds exactly.

use crate::binary64;
use crate::binary64::{Binary64, IMPLICIT, INFINITE, MANTISSA_END};
use vstd::arithmetic::power2::*;
use vstd::prelude::*;

verus! {

/// A larger numerator is not rounded to a smaller integer.
proof fn lemma_half_even_grows(low: nat, high: nat, den: nat)
    requires
        low <= high,
        den > 0,
    ensures
        binary64::half_even(low, den) <= binary64::half_even(high, den),
{
    let p = low / den;
    let q = high / den;
    vstd::arithmetic::div_mod::lemma_fundamental_div_mod(low as int, den as int);
    vstd::arithmetic::div_mod::lemma_fundamental_div_mod(high as int, den as int);
    vstd::arithmetic::div_mod::lemma_div_is_ordered(low as int, high as int, den as int);
    if p == q {
        assert(low % den <= high % den);
    }
}

/// How far an integer quotient reaches.
proof fn lemma_half_even_bounds(num: nat, den: nat, bound: nat)
    requires
        den > 0,
    ensures
        num <= den * bound ==> binary64::half_even(num, den) <= bound,
        num >= den * bound ==> binary64::half_even(num, den) >= bound,
{
    assert(bound * den == den * bound) by (nonlinear_arith);
    let exact = den * bound;
    binary64::lemma_quotient_unique(exact, den, bound, 0);
    if num <= exact {
        lemma_half_even_grows(num, exact, den);
    }
    if num >= exact {
        lemma_half_even_grows(exact, num, den);
    }
}

/// A larger quotient is not rounded to a smaller number.
pub proof fn law_rounding_keeps_order(low: nat, high: nat, den: nat)
    requires
        low <= high,
        den > 0,
    ensures
        binary64::nearest_pattern(low, den) <= binary64::nearest_pattern(high, den),
    decreases high - den,
{
    if high < den * MANTISSA_END {
        lemma_half_even_grows(low, high, den);
    } else {
        if low < den * MANTISSA_END {
            lemma_half_even_bounds(low, den, MANTISSA_END as nat);
            lemma_reaches_implicit(high, 2 * den);
        } else {
            law_rounding_keeps_order(low, high, 2 * den);
        }
    }
}

/// A quotient of 2 to the power of 52 or more has a pattern as large.
proof fn lemma_reaches_implicit(num: nat, den: nat)
    requires
        den > 0,
        num >= den * IMPLICIT,
    ensures
        binary64::nearest_pattern(num, den) >= IMPLICIT,
{
    if num < den * MANTISSA_END {
        lemma_half_even_bounds(num, den, IMPLICIT as nat);
    }
}

/// A quotient in other terms is rounded to the same number.
pub proof fn law_rounding_of_equal_quotients(num: nat, den: nat, factor: nat)
    requires
        den > 0,
        factor > 0,
    ensures
        binary64::nearest_pattern(num * factor, den * factor) == binary64::nearest_pattern(num, den),
    decreases num - den,
{
    assert(den * factor > 0) by (nonlinear_arith)
        requires
            den > 0,
            factor > 0,
    ;
    assert((num < den * MANTISSA_END) == (num * factor < (den * factor) * MANTISSA_END))
        by (nonlinear_arith)
        requires
            factor > 0,
    ;
    if num < den * MANTISSA_END {
        binary64::lemma_half_even_scaled(num, den, factor);
    } else {
        assert((2 * den) * factor == 2 * (den * factor)) by (nonlinear_arith);
        law_rounding_of_equal_quotients(num, 2 * den, factor);
    }
}

/// A quotient up to a number that the format holds is rounded to at most that number, and one from
/// it on to at least that number.
pub proof fn law_rounding_stops_at_held_numbers(num: nat, den: nat, pattern: nat)
    requires
        den > 0,
        pattern < INFINITE,
    ensures
        num <= binary64::magnitude_of(pattern) * den ==> binary64::nearest_pattern(num, den)
            <= pattern,
        num >= binary64::magnitude_of(pattern) * den ==> binary64::nearest_pattern(num, den)
            >= pattern,
{
    let exact = binary64::magnitude_of(pattern) * den;
    assert(1 * den == den);
    law_rounding_of_equal_quotients(binary64::magnitude_of(pattern), 1, den);
    binary64::law_representable_is_kept(pattern);
    if num <= exact {
        law_rounding_keeps_order(num, exact, den);
    }
    if num >= exact {
        law_rounding_keeps_order(exact, num, den);
    }
}

/// A quotient of fewer than 54 significant bits is kept.
pub proof fn law_short_quotients_are_kept(digits: nat, scale: nat, den: nat)
    requires
        digits < MANTISSA_END,
        scale <= 2045,
        den > 0,
    ensures
        ({
            let pattern = binary64::nearest_pattern((digits * pow2(scale)) * den, den);
            &&& pattern < INFINITE
            &&& binary64::magnitude_of(pattern) == digits * pow2(scale)
        }),
{
    let num = digits * pow2(scale);
    law_rounding_of_equal_quotients(num, 1, den);
    assert(1 * den == den);
    binary64::lemma_edges();
    let step = binary64::find_step(num, 1);
    lemma_pow2_pos(scale);
    lemma_pow2_pos(step);
    if step > scale {
        let gap = (step - scale - 1) as nat;
        lemma_pow2_adds(scale, gap);
        lemma_pow2_unfold(step);
        lemma_pow2_adds(52, step);
        lemma_pow2_pos(gap);
        assert(digits * pow2(scale) < IMPLICIT * pow2(step)) by (nonlinear_arith)
            requires
                digits < MANTISSA_END,
                MANTISSA_END == 2 * IMPLICIT,
                pow2(step) == 2 * (pow2(scale) * pow2(gap)),
                pow2(gap) >= 1,
                pow2(scale) > 0,
        ;
        assert(false);
    }
    let gap = (scale - step) as nat;
    lemma_pow2_adds(step, gap);
    let kept = digits * pow2(gap);
    assert(num == pow2(step) * kept) by (nonlinear_arith)
        requires
            num == digits * pow2(scale),
            pow2(scale) == pow2(step) * pow2(gap),
            kept == digits * pow2(gap),
    ;
    binary64::lemma_nearest_pattern_at(num, 1, step);
    binary64::lemma_quotient_unique(num, pow2(step), kept, 0);
    lemma_pow2_adds(53, step);
    lemma_pow2_adds(52, step);
    assert(kept < MANTISSA_END) by (nonlinear_arith)
        requires
            pow2(step) * kept < MANTISSA_END * pow2(step),
            pow2(step) > 0,
    ;
    if step > 0 {
        assert(kept >= IMPLICIT) by (nonlinear_arith)
            requires
                IMPLICIT * pow2(step) <= pow2(step) * kept,
                pow2(step) > 0,
        ;
    }
    let pattern = binary64::nearest_pattern(num, 1);
    assert(pattern == step * IMPLICIT + kept);
    assert(binary64::mantissa_of(pattern) == kept);
    assert(binary64::scale_of(pattern) == step);
    assert(kept * pow2(step) == pow2(step) * kept) by (nonlinear_arith);
}

/// Whole numbers below 2 to the power of 53 are held exactly.
pub proof fn law_whole_numbers_are_held(negative: bool, count: nat)
    requires
        count < MANTISSA_END,
    ensures
        binary64::whole(negative, count).is_finite(),
        binary64::whole(negative, count).negative() == negative,
        binary64::whole(negative, count).magnitude() == count * binary64::one(),
{
    law_short_quotients_are_kept(count, 1074, 1);
    assert((count * pow2(1074)) * 1 == count * binary64::one());
}

/// What a number built from a sign and a pattern consists of.
pub(crate) proof fn lemma_with_sign(negative: bool, pattern: nat)
    ensures
        binary64::with_sign(negative, pattern).negative() == negative,
        pattern <= INFINITE ==> binary64::with_sign(negative, pattern).pattern() == pattern,
        pattern > INFINITE ==> binary64::with_sign(negative, pattern).pattern() == INFINITE,
{
}

/// A finite number is what its sign and its pattern build.
pub(crate) proof fn lemma_rebuilt(number: Binary64)
    requires
        number.is_finite(),
    ensures
        binary64::with_sign(number.negative(), number.pattern()) == number,
{
}

/// One times a finite number is that number.
pub proof fn law_one_times(number: Binary64)
    requires
        number.is_finite(),
    ensures
        binary64::product_of(binary64::whole(false, 1), number) == number,
{
    law_whole_numbers_are_held(false, 1);
    lemma_pow2_pos(1074);
    let one = binary64::one();
    assert(1 * one == one);
    assert(one * number.magnitude() == number.magnitude() * one) by (nonlinear_arith);
    law_rounding_of_equal_quotients(number.magnitude(), 1, one);
    assert(1 * one == one);
    binary64::law_representable_is_kept(number.pattern());
    lemma_rebuilt(number);
}

/// Zero times a finite number is a zero.
pub proof fn law_zero_times(zero: Binary64, number: Binary64)
    requires
        zero.pattern() == 0,
        number.is_finite(),
    ensures
        binary64::product_of(zero, number).pattern() == 0,
{
    binary64::lemma_parts(0);
    lemma_pow2_pos(1074);
    assert(zero.magnitude() * number.magnitude() == 0) by (nonlinear_arith)
        requires
            zero.magnitude() == 0,
    ;
    binary64::lemma_nearest_zero(binary64::one());
}

/// A finite number plus a zero has the value of that number, and is that number unless it is a
/// zero itself.
pub proof fn law_plus_zero(number: Binary64, zero: Binary64)
    requires
        zero.pattern() == 0,
        number.is_finite(),
    ensures
        binary64::sum_of(number, zero).is_finite(),
        binary64::sum_of(number, zero).pattern() == number.pattern(),
        binary64::sum_of(number, zero).value() == number.value(),
        number.pattern() != 0 ==> binary64::sum_of(number, zero) == number,
        binary64::sum_of(zero, number).is_finite(),
        binary64::sum_of(zero, number).pattern() == number.pattern(),
        binary64::sum_of(zero, number).value() == number.value(),
        number.pattern() != 0 ==> binary64::sum_of(zero, number) == number,
{
    binary64::lemma_parts(0);
    binary64::lemma_parts(number.pattern());
    binary64::law_representable_is_kept(number.pattern());
    lemma_rebuilt(number);
    lemma_with_sign(number.negative() && zero.negative(), 0);
}

/// Which of two unsigned patterns is larger shows in their magnitudes.
pub(crate) proof fn lemma_patterns_by_magnitude(a: nat, b: nat)
    requires
        a <= INFINITE,
        b <= INFINITE,
    ensures
        (a <= b) == (binary64::magnitude_of(a) <= binary64::magnitude_of(b)),
        (a == 0) == (binary64::magnitude_of(a) == 0),
{
    binary64::lemma_parts(a);
    if a < b {
        binary64::lemma_magnitude_grows(a, b);
    } else if b < a {
        binary64::lemma_magnitude_grows(b, a);
    }
}

/// Numbers in order stay in order when their signs are kept and their unsigned patterns are
/// replaced by others in the same order, a zero by a zero.
pub(crate) proof fn lemma_order_with_signs(a: Binary64, b: Binary64, low: nat, high: nat)
    requires
        !a.is_nan(),
        !b.is_nan(),
        a.value() <= b.value(),
        low <= INFINITE,
        high <= INFINITE,
        a.pattern() <= b.pattern() ==> low <= high,
        b.pattern() <= a.pattern() ==> high <= low,
        a.pattern() == 0 ==> low == 0,
        b.pattern() == 0 ==> high == 0,
    ensures
        binary64::at_most(
            binary64::with_sign(a.negative(), low),
            binary64::with_sign(b.negative(), high),
        ),
{
    lemma_patterns_by_magnitude(a.pattern(), b.pattern());
    lemma_patterns_by_magnitude(b.pattern(), a.pattern());
    lemma_patterns_by_magnitude(low, high);
    lemma_patterns_by_magnitude(high, low);
    lemma_with_sign(a.negative(), low);
    lemma_with_sign(b.negative(), high);
}

/// The unsigned pattern nearest to a quotient, up to that of the infinity.
pub open spec fn capped_pattern(num: nat, den: nat) -> nat {
    let pattern = binary64::nearest_pattern(num, den);
    if pattern < INFINITE {
        pattern
    } else {
        INFINITE as nat
    }
}

/// Multiplying two numbers by the same whole number above zero keeps their order.
pub proof fn law_multiples_keep_order(a: Binary64, b: Binary64, factor: nat)
    requires
        binary64::at_most(a, b),
        0 < factor < MANTISSA_END,
    ensures
        ({
            let times = binary64::whole(false, factor);
            binary64::at_most(binary64::product_of(a, times), binary64::product_of(b, times))
        }),
{
    law_whole_numbers_are_held(false, factor);
    lemma_pow2_pos(1074);
    let one = binary64::one();
    let times = binary64::whole(false, factor);
    assert(factor * one > 0) by (nonlinear_arith)
        requires
            factor > 0,
            one > 0,
    ;
    lemma_patterns_by_magnitude(times.pattern(), 0);
    let low = if a.is_infinite() {
        INFINITE as nat
    } else {
        capped_pattern(a.magnitude() * times.magnitude(), one)
    };
    let high = if b.is_infinite() {
        INFINITE as nat
    } else {
        capped_pattern(b.magnitude() * times.magnitude(), one)
    };
    lemma_patterns_by_magnitude(a.pattern(), b.pattern());
    lemma_patterns_by_magnitude(b.pattern(), a.pattern());
    lemma_scaled_patterns(a.magnitude(), b.magnitude(), times.magnitude(), one);
    lemma_scaled_patterns(b.magnitude(), a.magnitude(), times.magnitude(), one);
    lemma_order_with_signs(a, b, low, high);
    assert(binary64::product_of(a, times) == binary64::with_sign(a.negative(), low));
    assert(binary64::product_of(b, times) == binary64::with_sign(b.negative(), high));
}

/// Larger numerators give no smaller patterns, and none gives none.
proof fn lemma_scaled_patterns(low: nat, high: nat, factor: nat, den: nat)
    requires
        den > 0,
    ensures
        low <= high ==> capped_pattern(low * factor, den) <= capped_pattern(high * factor, den),
        low == 0 ==> capped_pattern(low * factor, den) == 0,
{
    if low <= high {
        assert(low * factor <= high * factor) by (nonlinear_arith)
            requires
                low <= high,
        ;
        law_rounding_keeps_order(low * factor, high * factor, den);
    }
    if low == 0 {
        assert(low * factor == 0) by (nonlinear_arith)
            requires
                low == 0,
        ;
        binary64::lemma_nearest_zero(den);
    }
}

/// Dividing two numbers by the same whole number above zero keeps their order.
pub proof fn law_parts_keep_order(a: Binary64, b: Binary64, divisor: nat)
    requires
        binary64::at_most(a, b),
        0 < divisor < MANTISSA_END,
    ensures
        ({
            let by = binary64::whole(false, divisor);
            binary64::at_most(binary64::quotient_of(a, by), binary64::quotient_of(b, by))
        }),
{
    law_whole_numbers_are_held(false, divisor);
    lemma_pow2_pos(1074);
    let one = binary64::one();
    let by = binary64::whole(false, divisor);
    assert(divisor * one > 0) by (nonlinear_arith)
        requires
            divisor > 0,
            one > 0,
    ;
    let low = if a.is_infinite() {
        INFINITE as nat
    } else {
        capped_pattern(a.magnitude() * one, by.magnitude())
    };
    let high = if b.is_infinite() {
        INFINITE as nat
    } else {
        capped_pattern(b.magnitude() * one, by.magnitude())
    };
    lemma_patterns_by_magnitude(a.pattern(), b.pattern());
    lemma_patterns_by_magnitude(b.pattern(), a.pattern());
    lemma_scaled_patterns(a.magnitude(), b.magnitude(), one, by.magnitude());
    lemma_scaled_patterns(b.magnitude(), a.magnitude(), one, by.magnitude());
    lemma_order_with_signs(a, b, low, high);
    assert(binary64::quotient_of(a, by) == binary64::with_sign(a.negative(), low));
    assert(binary64::quotient_of(b, by) == binary64::with_sign(b.negative(), high));
}

/// Going to the nearest whole number keeps the order of two numbers.
pub proof fn law_nearest_whole_keeps_order(a: Binary64, b: Binary64)
    requires
        binary64::at_most(a, b),
    ensures
        binary64::at_most(binary64::half_away(a), binary64::half_away(b)),
{
    lemma_pow2_pos(1074);
    let one = binary64::one();
    let low_count = (2 * a.magnitude() + one) / (2 * one);
    let high_count = (2 * b.magnitude() + one) / (2 * one);
    let low = if a.is_infinite() {
        INFINITE as nat
    } else {
        capped_pattern(low_count * one, 1)
    };
    let high = if b.is_infinite() {
        INFINITE as nat
    } else {
        capped_pattern(high_count * one, 1)
    };
    lemma_patterns_by_magnitude(a.pattern(), b.pattern());
    lemma_patterns_by_magnitude(b.pattern(), a.pattern());
    if a.magnitude() <= b.magnitude() {
        vstd::arithmetic::div_mod::lemma_div_is_ordered(
            (2 * a.magnitude() + one) as int,
            (2 * b.magnitude() + one) as int,
            (2 * one) as int,
        );
    }
    if b.magnitude() <= a.magnitude() {
        vstd::arithmetic::div_mod::lemma_div_is_ordered(
            (2 * b.magnitude() + one) as int,
            (2 * a.magnitude() + one) as int,
            (2 * one) as int,
        );
    }
    assert(one / (2 * one) == 0) by {
        binary64::lemma_quotient_unique(one, 2 * one, 0, one);
    }
    lemma_scaled_patterns(low_count, high_count, one, 1);
    lemma_scaled_patterns(high_count, low_count, one, 1);
    lemma_order_with_signs(a, b, low, high);
    lemma_with_sign(a.negative(), INFINITE as nat);
    lemma_with_sign(b.negative(), INFINITE as nat);
}

/// A quotient of two whole numbers is a finite number that is not negative, and zero only where the
/// first one is.
pub(crate) proof fn lemma_quotient_of_wholes(num: nat, den: nat)
    requires
        num < MANTISSA_END,
        0 < den < MANTISSA_END,
    ensures
        ({
            let result = binary64::quotient_of(
                binary64::whole(false, num),
                binary64::whole(false, den),
            );
            &&& !result.negative()
            &&& result.pattern() == binary64::nearest_pattern(
                (num * binary64::one()) * binary64::one(),
                den * binary64::one(),
            )
            &&& result.pattern() <= binary64::whole(false, num).pattern() < INFINITE
            &&& num > 0 ==> result.pattern() > 0
        }),
{
    law_whole_numbers_are_held(false, num);
    law_whole_numbers_are_held(false, den);
    lemma_pow2_pos(1074);
    assert(den * binary64::one() > 0) by (nonlinear_arith)
        requires
            den > 0,
            binary64::one() > 0,
    ;
    let one = binary64::one();
    let (steps, parts) = ((num * one) * one, den * one);
    assert(steps <= (num * one) * parts) by (nonlinear_arith)
        requires
            steps == (num * one) * one,
            parts == den * one,
            den > 0,
            one > 0,
    ;
    law_rounding_stops_at_held_numbers(steps, parts, binary64::whole(false, num).pattern());
    if num > 0 {
        binary64::lemma_edges();
        lemma_pow2_strictly_increases(53, 1074);
        assert(binary64::magnitude_of(1) == 1) by {
            assert(1 * pow2(0) == 1) by (nonlinear_arith)
                requires
                    pow2(0) == 1,
            ;
        }
        assert(1 * parts <= steps) by (nonlinear_arith)
            requires
                steps == (num * one) * one,
                parts == den * one,
                den < one,
                num > 0,
                one > 0,
        ;
        law_rounding_stops_at_held_numbers(steps, parts, 1);
    }
    lemma_with_sign(false, binary64::nearest_pattern(steps, parts));
}

/// A sum of finite numbers is a number.
pub(crate) proof fn lemma_sum_is_number(a: Binary64, b: Binary64)
    requires
        a.is_finite(),
        b.is_finite(),
    ensures
        !binary64::sum_of(a, b).is_nan(),
{
}

/// A product of a number that is not negative and a finite one above zero is a number that is not
/// negative.
pub(crate) proof fn lemma_product_is_number(a: Binary64, b: Binary64)
    requires
        !a.is_nan(),
        !a.negative(),
        !b.negative(),
        b.pattern() <= INFINITE,
        a.is_infinite() || b.is_infinite() ==> a.pattern() != 0 && b.pattern() != 0,
    ensures
        !binary64::product_of(a, b).is_nan(),
        !binary64::product_of(a, b).negative(),
{
    binary64::lemma_parts(a.pattern());
    binary64::lemma_parts(b.pattern());
}

/// What turning the sign changes.
pub(crate) proof fn lemma_negated(a: Binary64)
    ensures
        binary64::negated(a).negative() == !a.negative(),
        binary64::negated(a).pattern() == a.pattern(),
        binary64::negated(a).value() == -a.value(),
{
}

/// Adding a number that is not negative to a finite one gives no lower number, and adding one that
/// is not positive no higher one.
pub proof fn law_sums_follow_the_sign(a: Binary64, b: Binary64)
    requires
        a.is_finite(),
        !b.is_nan(),
    ensures
        !b.negative() ==> binary64::at_most(a, binary64::sum_of(a, b)),
        b.negative() ==> binary64::at_most(binary64::sum_of(a, b), a),
{
    let sum = binary64::sum_of(a, b);
    let exact = a.value() + b.value();
    lemma_patterns_by_magnitude(a.pattern(), INFINITE as nat);
    lemma_patterns_by_magnitude(0, a.pattern());
    if b.is_infinite() {
    } else if exact == 0 {
        lemma_with_sign(a.negative() && b.negative(), 0);
    } else {
        let size = (if exact < 0 { -exact } else { exact }) as nat;
        assert(binary64::magnitude_of(a.pattern()) * 1 == a.magnitude());
        law_rounding_stops_at_held_numbers(size, 1, a.pattern());
        let pattern = capped_pattern(size, 1);
        lemma_with_sign(exact < 0, binary64::nearest_pattern(size, 1));
        assert(sum.pattern() == pattern);
        lemma_patterns_by_magnitude(pattern, a.pattern());
        lemma_patterns_by_magnitude(a.pattern(), pattern);
    }
}

/// A finite number times a zero is a zero.
pub(crate) proof fn lemma_times_zero(number: Binary64, zero: Binary64)
    requires
        zero.pattern() == 0,
        number.is_finite(),
    ensures
        binary64::product_of(number, zero).pattern() == 0,
{
    law_zero_times(zero, number);
    assert(zero.magnitude() * number.magnitude() == number.magnitude() * zero.magnitude())
        by (nonlinear_arith);
}

} // verus!
