//! The average line stays between the points that it connects.

use crate::accuracy;
use crate::binary64;
use crate::binary64::{Binary64, IMPLICIT, MANTISSA_END};
use crate::chart::ChartPoint;
use crate::interpolation;
use crate::interpolation::{LinearInterpolate, INTERPOLATION_SUBDIVISIONS};
use crate::rounding;
use crate::tangents;
use vstd::arithmetic::power2::*;
use vstd::prelude::*;

verus! {

/// Half of the last place of numbers from one to two, in smallest steps.
pub open spec fn place() -> nat {
    pow2(1021)
}

pub(crate) proof fn lemma_units()
    ensures
        binary64::one() == MANTISSA_END * place(),
        place() >= 0x10_0000_0000,
        binary64::one() >= place(),
        binary64::one() >= MANTISSA_END,
        1_000_000 * binary64::one() <= accuracy::limit(),
{
    binary64::lemma_edges();
    lemma_pow2_adds(53, 1021);
    lemma_pow2_pos(1021);
    lemma2_to64();
    lemma2_to64_rest();
    lemma_pow2_adds(36, 985);
    lemma_pow2_pos(985);
    assert(pow2(1021) >= pow2(36)) by (nonlinear_arith)
        requires
            pow2(1021) == pow2(36) * pow2(985),
            pow2(985) > 0,
            pow2(36) >= 0,
    ;
    accuracy::lemma_one_is_large();
    assert(MANTISSA_END * place() >= place() && MANTISSA_END * place() >= MANTISSA_END)
        by (nonlinear_arith)
        requires
            place() >= 1,
            MANTISSA_END >= 1,
    ;
}

/// A factor cancels out of an inequality.
pub(crate) proof fn lemma_cancel(x: int, y: int, u: int)
    by (nonlinear_arith)
    requires
        u > 0,
        x * u <= y * u,
    ensures
        x <= y,
{
}

/// A product is bounded by the product of the bounds.
pub(crate) proof fn lemma_product_bound(x: int, y: int, a: int, b: int)
    requires
        accuracy::size(x) <= a,
        accuracy::size(y) <= b,
    ensures
        accuracy::size(x * y) <= a * b,
        accuracy::size(x * y) == accuracy::size(x) * accuracy::size(y),
{
    assert(accuracy::size(x * y) == accuracy::size(x) * accuracy::size(y)) by (nonlinear_arith)
        requires
            accuracy::size(x) == (if x < 0 {
                -x
            } else {
                x
            }),
            accuracy::size(y) == (if y < 0 {
                -y
            } else {
                y
            }),
            accuracy::size(x * y) == (if x * y < 0 {
                -(x * y)
            } else {
                x * y
            }),
    ;
    assert(accuracy::size(x) * accuracy::size(y) <= a * b) by (nonlinear_arith)
        requires
            0 <= accuracy::size(x) <= a,
            0 <= accuracy::size(y) <= b,
    ;
}

/// The error of a sum of a few units.
pub(crate) proof fn lemma_sum_near(a: Binary64, b: Binary64, c: int)
    requires
        a.is_finite(),
        b.is_finite(),
        0 <= c <= 1000,
        accuracy::size(a.value() + b.value()) <= c * binary64::one(),
    ensures
        binary64::sum_of(a, b).is_finite(),
        accuracy::size(binary64::sum_of(a, b).value() - (a.value() + b.value())) <= c * place(),
{
    lemma_units();
    let (u, w) = (binary64::one() as int, place() as int);
    assert(c * u <= 1000 * u) by (nonlinear_arith)
        requires
            c <= 1000,
            u >= 0,
    ;
    accuracy::law_sum_error(a, b);
    let error = accuracy::size(binary64::sum_of(a, b).value() - (a.value() + b.value()));
    assert(error <= c * w) by (nonlinear_arith)
        requires
            MANTISSA_END * error <= c * u + IMPLICIT,
            u == MANTISSA_END * w,
            IMPLICIT < MANTISSA_END,
    ;
}

/// The error of a difference of a few units.
pub(crate) proof fn lemma_difference_near(a: Binary64, b: Binary64, c: int)
    requires
        a.is_finite(),
        b.is_finite(),
        0 <= c <= 1000,
        accuracy::size(a.value() - b.value()) <= c * binary64::one(),
    ensures
        binary64::difference_of(a, b).is_finite(),
        accuracy::size(binary64::difference_of(a, b).value() - (a.value() - b.value())) <= c * place(),
{
    rounding::lemma_negated(b);
    lemma_sum_near(a, binary64::negated(b), c);
}

/// The error of a product of a few units.
pub(crate) proof fn lemma_product_near(a: Binary64, b: Binary64, c: int)
    requires
        a.is_finite(),
        b.is_finite(),
        0 <= c <= 1000,
        accuracy::size(a.value() * b.value()) <= c * (binary64::one() * binary64::one()),
    ensures
        ({
            let u = binary64::one() as int;
            let product = binary64::product_of(a, b);
            &&& product.is_finite()
            &&& accuracy::size(product.value() * u - a.value() * b.value()) <= (c + 1) * (u * place())
        }),
{
    lemma_units();
    let (u, w) = (binary64::one() as int, place() as int);
    assert(c * (u * u) <= accuracy::limit() * u) by (nonlinear_arith)
        requires
            c <= 1000,
            u >= 0,
            1_000_000 * u <= accuracy::limit(),
    ;
    accuracy::law_product_error(a, b);
    let error = accuracy::size(binary64::product_of(a, b).value() * u - a.value() * b.value());
    assert(error <= (c + 1) * (u * w)) by (nonlinear_arith)
        requires
            MANTISSA_END * error <= c * (u * u) + IMPLICIT * u,
            u == MANTISSA_END * w,
            IMPLICIT <= MANTISSA_END,
            w >= 1,
            u >= 0,
    ;
}

/// The fraction of a segment at which a sample lies, as a number.
proof fn lemma_fraction_near(s: int)
    requires
        0 <= s <= 11,
    ensures
        ({
            let t = interpolation::fraction(s as nat);
            let u = binary64::one() as int;
            &&& t.is_finite()
            &&& 0 <= t.value() <= u
            &&& accuracy::size(12 * t.value() - s * u) <= 12 * place()
        }),
{
    lemma_units();
    let (u, w) = (binary64::one() as int, place() as int);
    rounding::law_whole_numbers_are_held(false, s as nat);
    rounding::law_whole_numbers_are_held(false, 12);
    let a = binary64::whole(false, s as nat);
    let b = binary64::whole(false, 12);
    rounding::lemma_patterns_by_magnitude(b.pattern(), 0);
    assert(a.value() == s * u && b.value() == 12 * u);
    assert(accuracy::size(a.value()) * u <= accuracy::limit() * accuracy::size(b.value())) by (nonlinear_arith)
        requires
            accuracy::size(a.value()) == s * u,
            accuracy::size(b.value()) == 12 * u,
            0 <= s <= 11,
            u >= 0,
            1_000_000 * u <= accuracy::limit(),
    ;
    accuracy::law_quotient_error(a, b);
    let t = interpolation::fraction(s as nat);
    let e = t.value() * (12 * u) - (s * u) * u;
    assert(e == (12 * t.value() - s * u) * u) by (nonlinear_arith)
        requires
            e == t.value() * (12 * u) - (s * u) * u,
    ;
    let d = 12 * t.value() - s * u;
    lemma_product_bound(d, u, accuracy::size(d), u);
    assert(accuracy::size(d) * u <= (12 * w) * u) by (nonlinear_arith)
        requires
            MANTISSA_END * (accuracy::size(d) * u) <= (s * u) * u + IMPLICIT * (12 * u),
            u == MANTISSA_END * w,
            IMPLICIT <= MANTISSA_END,
            0 <= s <= 11,
            w >= 100,
            u >= 0,
            accuracy::size(d) >= 0,
    ;
    lemma_cancel(accuracy::size(d), 12 * w, u);
    assert(!t.negative());
    assert(12 * t.value() <= 11 * u + 12 * w) by {
        assert(s * u <= 11 * u) by (nonlinear_arith)
            requires
                s <= 11,
                u >= 0,
        ;
    }
    assert(12 * w <= u) by (nonlinear_arith)
        requires
            u == MANTISSA_END * w,
            w >= 0,
            MANTISSA_END >= 12,
    ;
}

/// The square and the cube of the fraction of a segment.
proof fn lemma_powers_near(s: int)
    requires
        0 <= s <= 11,
    ensures
        ({
            let t = interpolation::fraction(s as nat);
            let t2 = binary64::product_of(t, t);
            let t3 = binary64::product_of(t2, t);
            let u = binary64::one() as int;
            let w = place() as int;
            &&& t2.is_finite() && t3.is_finite()
            &&& accuracy::size(144 * t2.value() - (s * s) * u) <= 576 * w
            &&& accuracy::size(1728 * t3.value() - (s * s * s) * u) <= 13000 * w
        }),
{
    lemma_units();
    lemma_fraction_near(s);
    let (u, w) = (binary64::one() as int, place() as int);
    let t = interpolation::fraction(s as nat);
    let x = t.value();
    lemma_product_bound(x, x, u, u);
    lemma_product_near(t, t, 1);
    let t2 = binary64::product_of(t, t);
    let y = t2.value();
    let uw = u * w;
    assert(uw >= 0) by (nonlinear_arith)
        requires
            uw == u * w,
            u >= 0,
            w >= 0,
    ;
    // 144 squares against the square of the sample.
    let e = 12 * x - s * u;
    let f = 12 * x + s * u;
    assert(s * u <= 11 * u && s * u >= 0) by (nonlinear_arith)
        requires
            0 <= s <= 11,
            u >= 0,
    ;
    assert(144 * (x * x) - ((s * s) * u) * u == e * f) by (nonlinear_arith)
        requires
            e == 12 * x - s * u,
            f == 12 * x + s * u,
    ;
    lemma_product_bound(e, f, 12 * w, 23 * u);
    assert((12 * w) * (23 * u) == 276 * uw) by (nonlinear_arith)
        requires
            uw == u * w,
    ;
    let g = 144 * y - (s * s) * u;
    assert(g * u == 144 * (y * u) - ((s * s) * u) * u) by (nonlinear_arith)
        requires
            g == 144 * y - (s * s) * u,
    ;
    assert(accuracy::size(g * u) <= 576 * uw);
    lemma_product_bound(g, u, accuracy::size(g), u);
    assert((576 * w) * u == 576 * uw) by (nonlinear_arith)
        requires
            uw == u * w,
    ;
    lemma_cancel(accuracy::size(g), 576 * w, u);
    // 1728 cubes against the cube of the sample.
    assert((s * s) * u <= 121 * u && (s * s) * u >= 0) by (nonlinear_arith)
        requires
            0 <= s <= 11,
            u >= 0,
    ;
    assert(576 * w <= u) by (nonlinear_arith)
        requires
            u == MANTISSA_END * w,
            w >= 0,
            MANTISSA_END >= 576,
    ;
    assert(accuracy::size(y) <= u);
    lemma_product_bound(y, x, u, u);
    lemma_product_near(t2, t, 1);
    let t3 = binary64::product_of(t2, t);
    let z = t3.value();
    let (q, su) = (s * s, s * u);
    let qu = q * u;
    assert(g * (12 * x) == 1728 * (y * x) - 12 * (qu * x)) by (nonlinear_arith)
        requires
            g == 144 * y - qu,
    ;
    assert(qu * e == 12 * (qu * x) - qu * su) by (nonlinear_arith)
        requires
            e == 12 * x - su,
    ;
    assert((q * s) * u == q * su) by (nonlinear_arith)
        requires
            su == s * u,
    ;
    assert((q * su) * u == qu * su) by (nonlinear_arith)
        requires
            qu == q * u,
    ;
    assert(1728 * (y * x) - ((s * s * s) * u) * u == g * (12 * x) + ((s * s) * u) * e);
    lemma_product_bound(g, 12 * x, 576 * w, 12 * u);
    lemma_product_bound((s * s) * u, e, 121 * u, 12 * w);
    assert((576 * w) * (12 * u) == 6912 * uw && (121 * u) * (12 * w) == 1452 * uw)
        by (nonlinear_arith)
        requires
            uw == u * w,
    ;
    let k = 1728 * z - (s * s * s) * u;
    assert(k * u == 1728 * (z * u) - ((s * s * s) * u) * u) by (nonlinear_arith)
        requires
            k == 1728 * z - (s * s * s) * u,
    ;
    assert(accuracy::size(k * u) <= 13000 * uw);
    lemma_product_bound(k, u, accuracy::size(k), u);
    assert((13000 * w) * u == 13000 * uw) by (nonlinear_arith)
        requires
            uw == u * w,
    ;
    lemma_cancel(accuracy::size(k), 13000 * w, u);
}

/// A small whole number times a number of at most two units.
pub(crate) proof fn lemma_multiple_near(negative: bool, count: int, a: Binary64)
    requires
        0 <= count <= 3,
        a.is_finite(),
        accuracy::size(a.value()) <= 2 * binary64::one(),
    ensures
        ({
            let times = if negative {
                -count
            } else {
                count
            };
            let product = binary64::product_of(binary64::whole(negative, count as nat), a);
            &&& product.is_finite()
            &&& accuracy::size(product.value() - times * a.value()) <= 7 * place()
        }),
{
    lemma_units();
    let (u, w) = (binary64::one() as int, place() as int);
    let factor = binary64::whole(negative, count as nat);
    rounding::law_whole_numbers_are_held(negative, count as nat);
    let times = if negative {
        -count
    } else {
        count
    };
    assert(factor.value() == times * u) by (nonlinear_arith)
        requires
            factor.value() == (if negative {
                -(count * u)
            } else {
                count * u
            }),
            times == (if negative {
                -count
            } else {
                count
            }),
    ;
    assert(accuracy::size(factor.value()) <= 3 * u) by (nonlinear_arith)
        requires
            factor.value() == times * u,
            -3 <= times <= 3,
            u >= 0,
            accuracy::size(factor.value()) == (if factor.value() < 0 {
                -factor.value()
            } else {
                factor.value()
            }),
    ;
    lemma_product_bound(factor.value(), a.value(), 3 * u, 2 * u);
    assert((3 * u) * (2 * u) == 6 * (u * u)) by (nonlinear_arith);
    lemma_product_near(factor, a, 6);
    let product = binary64::product_of(factor, a);
    let e = product.value() - times * a.value();
    assert(e * u == product.value() * u - factor.value() * a.value()) by (nonlinear_arith)
        requires
            e == product.value() - times * a.value(),
            factor.value() == times * u,
    ;
    lemma_product_bound(e, u, accuracy::size(e), u);
    assert((7 * w) * u == 7 * (u * w)) by (nonlinear_arith);
    lemma_cancel(accuracy::size(e), 7 * w, u);
}

/// What the four weights are in 1728ths at a sample, were there no rounding.
pub open spec fn exact_weights(s: int) -> (int, int, int, int) {
    (
        2 * (s * s * s) - 36 * (s * s) + 1728,
        s * s * s - 24 * (s * s) + 144 * s,
        36 * (s * s) - 2 * (s * s * s),
        s * s * s - 12 * (s * s),
    )
}

/// Whether a weight is close to what it were without rounding.
spec fn is_close(weight: Binary64, exact: int) -> bool {
    &&& weight.is_finite()
    &&& accuracy::size(1728 * weight.value() - exact * binary64::one()) <= 110_000 * place()
    &&& accuracy::size(weight.value()) <= 2 * binary64::one()
}

/// What is known of the fraction of a segment, its square and its cube, and of their multiples.
spec fn powers_are_close(s: int, u: int, w: int) -> bool {
    let t = interpolation::fraction(s as nat);
    let t2 = binary64::product_of(t, t);
    let t3 = binary64::product_of(t2, t);
    let a = binary64::product_of(binary64::whole(false, 2), t3);
    let b = binary64::product_of(binary64::whole(false, 3), t2);
    let c = binary64::product_of(binary64::whole(false, 2), t2);
    let e = binary64::product_of(binary64::whole(true, 2), t3);
    &&& u == binary64::one()
    &&& w == place()
    &&& 200_000 * w <= u
    &&& w >= 0
    &&& t.is_finite() && t2.is_finite() && t3.is_finite()
    &&& a.is_finite() && b.is_finite() && c.is_finite() && e.is_finite()
    &&& 0 <= t.value() <= u
    &&& accuracy::size(t2.value()) <= u
    &&& accuracy::size(t3.value()) <= u
    &&& accuracy::size(12 * t.value() - s * u) <= 12 * w
    &&& accuracy::size(144 * t2.value() - (s * s) * u) <= 576 * w
    &&& accuracy::size(1728 * t3.value() - (s * s * s) * u) <= 13000 * w
    &&& accuracy::size(a.value() - 2 * t3.value()) <= 7 * w
    &&& accuracy::size(b.value() - 3 * t2.value()) <= 7 * w
    &&& accuracy::size(c.value() - 2 * t2.value()) <= 7 * w
    &&& accuracy::size(e.value() + 2 * t3.value()) <= 7 * w
}

proof fn lemma_powers_are_close(s: int)
    requires
        0 <= s <= 11,
    ensures
        powers_are_close(s, binary64::one() as int, place() as int),
{
    lemma_units();
    lemma_fraction_near(s);
    lemma_powers_near(s);
    let (u, w) = (binary64::one() as int, place() as int);
    let t = interpolation::fraction(s as nat);
    let t2 = binary64::product_of(t, t);
    let t3 = binary64::product_of(t2, t);
    assert(0 <= (s * s) * u <= 121 * u && 0 <= (s * s * s) * u <= 1331 * u) by (nonlinear_arith)
        requires
            0 <= s <= 11,
            u >= 0,
    ;
    assert(200_000 * w <= u) by (nonlinear_arith)
        requires
            u == MANTISSA_END * w,
            w >= 0,
            MANTISSA_END >= 200_000,
    ;
    lemma_multiple_near(false, 2, t3);
    lemma_multiple_near(false, 3, t2);
    lemma_multiple_near(false, 2, t2);
    lemma_multiple_near(true, 2, t3);
}

/// The weights without rounding, in smallest steps.
proof fn lemma_exact_steps(s: int, u: int)
    ensures
        ({
            let exact = exact_weights(s);
            &&& exact.0 * u == 2 * ((s * s * s) * u) - 36 * ((s * s) * u) + 1728 * u
            &&& exact.1 * u == (s * s * s) * u - 24 * ((s * s) * u) + 144 * (s * u)
            &&& exact.2 * u == 36 * ((s * s) * u) - 2 * ((s * s * s) * u)
            &&& exact.3 * u == (s * s * s) * u - 12 * ((s * s) * u)
        }),
{
    let (one, two, three) = (s, s * s, s * s * s);
    assert((2 * three - 36 * two + 1728) * u == 2 * (three * u) - 36 * (two * u) + 1728 * u)
        by (nonlinear_arith);
    assert((three - 24 * two + 144 * one) * u == three * u - 24 * (two * u) + 144 * (one * u))
        by (nonlinear_arith);
    assert((36 * two - 2 * three) * u == 36 * (two * u) - 2 * (three * u)) by (nonlinear_arith);
    assert((three - 12 * two) * u == three * u - 12 * (two * u)) by (nonlinear_arith);
}

/// The error that adds up in the weight of the first value.
proof fn lemma_first_value_steps(y: int, z: int, q: int, r: int, u: int, w: int, a: int, b: int, ab: int, h: int)
    requires
        w >= 0,
        accuracy::size(144 * y - q) <= 576 * w,
        accuracy::size(1728 * z - r) <= 13000 * w,
        accuracy::size(a - 2 * z) <= 7 * w,
        accuracy::size(b - 3 * y) <= 7 * w,
        accuracy::size(ab - (a - b)) <= 6 * w,
        accuracy::size(h - (ab + u)) <= 8 * w,
    ensures
        accuracy::size(1728 * h - (2 * r - 36 * q + 1728 * u)) <= 110_000 * w,
{
}

/// The error that adds up in the weight of the first tangent.
proof fn lemma_first_tangent_steps(x: int, y: int, z: int, p: int, q: int, r: int, w: int, c: int, tc: int, h: int)
    requires
        w >= 0,
        accuracy::size(12 * x - p) <= 12 * w,
        accuracy::size(144 * y - q) <= 576 * w,
        accuracy::size(1728 * z - r) <= 13000 * w,
        accuracy::size(c - 2 * y) <= 7 * w,
        accuracy::size(tc - (z - c)) <= 6 * w,
        accuracy::size(h - (tc + x)) <= 8 * w,
    ensures
        accuracy::size(1728 * h - (r - 24 * q + 144 * p)) <= 110_000 * w,
{
}

/// The weight of the first value is close to what it were without rounding.
proof fn lemma_first_value_weight(s: int)
    requires
        0 <= s <= 11,
    ensures
        is_close(
            interpolation::first_value_weight(interpolation::fraction(s as nat)),
            exact_weights(s).0,
        ),
{
    let (u, w) = (binary64::one() as int, place() as int);
    lemma_powers_are_close(s);
    lemma_exact_steps(s, u);
    lemma_exact_weights_bound(s);
    let t = interpolation::fraction(s as nat);
    let t2 = binary64::product_of(t, t);
    let t3 = binary64::product_of(t2, t);
    let a = binary64::product_of(binary64::whole(false, 2), t3);
    let b = binary64::product_of(binary64::whole(false, 3), t2);
    lemma_difference_near(a, b, 6);
    let ab = binary64::difference_of(a, b);
    rounding::law_whole_numbers_are_held(false, 1);
    let one = binary64::whole(false, 1);
    assert(one.value() == u);
    lemma_sum_near(ab, one, 8);
    let h = binary64::sum_of(ab, one);
    lemma_first_value_steps(
        t2.value(),
        t3.value(),
        (s * s) * u,
        (s * s * s) * u,
        u,
        w,
        a.value(),
        b.value(),
        ab.value(),
        h.value(),
    );
    lemma_weight_bound(h.value(), exact_weights(s).0, u, w);
}

/// The weight of the first tangent is close to what it were without rounding.
proof fn lemma_first_tangent_weight(s: int)
    requires
        0 <= s <= 11,
    ensures
        is_close(
            interpolation::first_tangent_weight(interpolation::fraction(s as nat)),
            exact_weights(s).1,
        ),
{
    let (u, w) = (binary64::one() as int, place() as int);
    lemma_powers_are_close(s);
    lemma_exact_steps(s, u);
    lemma_exact_weights_bound(s);
    let t = interpolation::fraction(s as nat);
    let t2 = binary64::product_of(t, t);
    let t3 = binary64::product_of(t2, t);
    let c = binary64::product_of(binary64::whole(false, 2), t2);
    lemma_difference_near(t3, c, 6);
    let tc = binary64::difference_of(t3, c);
    lemma_sum_near(tc, t, 8);
    let h = binary64::sum_of(tc, t);
    lemma_first_tangent_steps(
        t.value(),
        t2.value(),
        t3.value(),
        s * u,
        (s * s) * u,
        (s * s * s) * u,
        w,
        c.value(),
        tc.value(),
        h.value(),
    );
    lemma_weight_bound(h.value(), exact_weights(s).1, u, w);
}

/// The weight of the second value is close to what it were without rounding.
proof fn lemma_second_value_weight(s: int)
    requires
        0 <= s <= 11,
    ensures
        is_close(
            interpolation::second_value_weight(interpolation::fraction(s as nat)),
            exact_weights(s).2,
        ),
{
    let (u, w) = (binary64::one() as int, place() as int);
    lemma_powers_are_close(s);
    lemma_exact_steps(s, u);
    lemma_exact_weights_bound(s);
    let t = interpolation::fraction(s as nat);
    let t2 = binary64::product_of(t, t);
    let t3 = binary64::product_of(t2, t);
    let b = binary64::product_of(binary64::whole(false, 3), t2);
    let e = binary64::product_of(binary64::whole(true, 2), t3);
    lemma_sum_near(e, b, 6);
    let h = binary64::sum_of(e, b);
    assert(accuracy::size(h.value() - (3 * t2.value() - 2 * t3.value())) <= 20 * w);
    assert(accuracy::size(1728 * h.value() - exact_weights(s).2 * u) <= 110_000 * w);
    lemma_weight_bound(h.value(), exact_weights(s).2, u, w);
}

/// The weight of the second tangent is close to what it were without rounding.
proof fn lemma_second_tangent_weight(s: int)
    requires
        0 <= s <= 11,
    ensures
        is_close(
            interpolation::second_tangent_weight(interpolation::fraction(s as nat)),
            exact_weights(s).3,
        ),
{
    let (u, w) = (binary64::one() as int, place() as int);
    lemma_powers_are_close(s);
    lemma_exact_steps(s, u);
    lemma_exact_weights_bound(s);
    let t = interpolation::fraction(s as nat);
    let t2 = binary64::product_of(t, t);
    let t3 = binary64::product_of(t2, t);
    lemma_difference_near(t3, t2, 4);
    let h = binary64::difference_of(t3, t2);
    assert(accuracy::size(h.value() - (t3.value() - t2.value())) <= 4 * w);
    assert(accuracy::size(1728 * h.value() - exact_weights(s).3 * u) <= 110_000 * w);
    lemma_weight_bound(h.value(), exact_weights(s).3, u, w);
}

/// The squares and cubes of the samples.
proof fn lemma_sample_powers(s: int)
    by (nonlinear_arith)
    requires
        0 <= s <= 12,
    ensures
        s == 0 ==> s * s == 0 && s * s * s == 0,
        s == 1 ==> s * s == 1 && s * s * s == 1,
        s == 2 ==> s * s == 4 && s * s * s == 8,
        s == 3 ==> s * s == 9 && s * s * s == 27,
        s == 4 ==> s * s == 16 && s * s * s == 64,
        s == 5 ==> s * s == 25 && s * s * s == 125,
        s == 6 ==> s * s == 36 && s * s * s == 216,
        s == 7 ==> s * s == 49 && s * s * s == 343,
        s == 8 ==> s * s == 64 && s * s * s == 512,
        s == 9 ==> s * s == 81 && s * s * s == 729,
        s == 10 ==> s * s == 100 && s * s * s == 1000,
        s == 11 ==> s * s == 121 && s * s * s == 1331,
        s == 12 ==> s * s == 144 && s * s * s == 1728,
{
}

/// The weights without rounding, and what they add up to.
proof fn lemma_exact_weights_bound(s: int)
    requires
        0 <= s <= 11,
    ensures
        ({
            let exact = exact_weights(s);
            &&& 0 <= exact.0 <= 1728
            &&& 0 <= exact.1 <= 256
            &&& 0 <= exact.2 <= 1728
            &&& -256 <= exact.3 <= 0
            &&& exact.0 + exact.2 == 1728
            &&& s >= 1 ==> exact.2 + 3 * exact.3 >= 1
            &&& exact.2 + 3 * exact.1 <= 1727
        }),
{
    lemma_sample_powers(s);
    assert(s == 0 || s == 1 || s == 2 || s == 3 || s == 4 || s == 5 || s == 6 || s == 7 || s == 8
        || s == 9 || s == 10 || s == 11);
}

/// A weight that is close to at most one is at most two.
proof fn lemma_weight_bound(h: int, exact: int, u: int, w: int)
    requires
        -1728 <= exact <= 1728,
        u >= 200_000 * w,
        w >= 0,
        accuracy::size(1728 * h - exact * u) <= 110_000 * w,
    ensures
        accuracy::size(h) <= 2 * u,
{
    assert(-1728 * u <= exact * u <= 1728 * u) by (nonlinear_arith)
        requires
            -1728 <= exact <= 1728,
            u >= 0,
    ;
}

/// The size of a weighted value without rounding.
proof fn lemma_weighted_size(h: int, exact: int, v: int, bound: int, c: int, u: int, w: int)
    requires
        1 <= c <= 8,
        0 < bound,
        0 < u,
        0 < w,
        accuracy::size(1728 * h - exact * u) <= 110_000 * w,
        accuracy::size(exact) * c <= 2048,
        accuracy::size(v) <= c * bound,
    ensures
        1728 * accuracy::size(h * v) <= 2048 * (bound * u) + 880_000 * (bound * w),
{
    let (sh, se, sv) = (accuracy::size(h), accuracy::size(exact), accuracy::size(v));
    lemma_product_bound(exact, u, se, u);
    assert(1728 * sh <= se * u + 110_000 * w);
    lemma_product_bound(h, v, sh, sv);
    assert(sh * sv <= sh * (c * bound)) by (nonlinear_arith)
        requires
            sv <= c * bound,
            sh >= 0,
    ;
    assert(1728 * (sh * (c * bound)) <= (se * u + 110_000 * w) * (c * bound)) by (nonlinear_arith)
        requires
            1728 * sh <= se * u + 110_000 * w,
            c * bound >= 0,
    ;
    let (bu, bw) = (bound * u, bound * w);
    assert((se * u + 110_000 * w) * (c * bound) == (se * c) * bu + 110_000 * (c * bw))
        by (nonlinear_arith)
        requires
            bu == bound * u,
            bw == bound * w,
    ;
    assert((se * c) * bu <= 2048 * bu) by (nonlinear_arith)
        requires
            se * c <= 2048,
            bu == bound * u,
            bound > 0,
            u > 0,
    ;
    assert(c * bw <= 8 * bw) by (nonlinear_arith)
        requires
            c <= 8,
            bw == bound * w,
            bound > 0,
            w > 0,
    ;
}

/// The error of a weighted value, for values of at most `c` times `bound`.
proof fn lemma_term_near(h: Binary64, exact: int, v: Binary64, bound: int, c: int)
    requires
        is_close(h, exact),
        v.is_finite(),
        1 <= c <= 8,
        accuracy::size(exact) * c <= 2048,
        accuracy::size(v.value()) <= c * bound,
        bound * place() >= binary64::one(),
        8 * bound <= accuracy::limit(),
    ensures
        ({
            let p = binary64::product_of(h, v);
            let u = binary64::one() as int;
            &&& p.is_finite()
            &&& 4 * accuracy::size(p.value()) <= 5 * bound
            &&& accuracy::size(1728 * (p.value() * u) - (exact * v.value()) * u) <= (113_456 * c
                + 1728) * (bound * place())
        }),
{
    lemma_units();
    let (u, w) = (binary64::one() as int, place() as int);
    let bw = bound * w;
    assert(bound > 0) by (nonlinear_arith)
        requires
            bound * w >= u,
            u > 0,
            w > 0,
    ;
    lemma_product_bound(h.value(), v.value(), 2 * u, c * bound);
    assert((2 * u) * (c * bound) == (2 * c * bound) * u) by (nonlinear_arith);
    let bu = bound * u;
    assert(bu == MANTISSA_END * bw) by (nonlinear_arith)
        requires
            bu == bound * u,
            u == MANTISSA_END * w,
            bw == bound * w,
    ;
    lemma_weighted_size(h.value(), exact, v.value(), bound, c, u, w);
    assert(8 * bu <= accuracy::limit() * u) by (nonlinear_arith)
        requires
            8 * bound <= accuracy::limit(),
            bu == bound * u,
            u > 0,
    ;
    accuracy::law_product_error(h, v);
    let p = binary64::product_of(h, v);
    let exact_product = h.value() * v.value();
    let error = accuracy::size(p.value() * u - exact_product);
    assert(error <= (2 * c + 1) * bw) by (nonlinear_arith)
        requires
            MANTISSA_END * error <= (2 * c * bound) * u + IMPLICIT * u,
            u == MANTISSA_END * w,
            bw == bound * w,
            bw >= u,
            MANTISSA_END == 2 * IMPLICIT,
            u > 0,
    ;
    // The size of the product.
    assert((2 * c + 1) * bw <= 17 * bw) by (nonlinear_arith)
        requires
            1 <= c <= 8,
            bw >= 0,
    ;
    lemma_product_bound(p.value(), u, accuracy::size(p.value()), u);
    let pu = accuracy::size(p.value()) * u;
    assert(1728 * pu <= 2048 * bu + 880_000 * bw + 1728 * (17 * bw));
    assert(4 * pu <= 5 * bu);
    assert(4 * accuracy::size(p.value()) <= 5 * bound) by (nonlinear_arith)
        requires
            4 * (accuracy::size(p.value()) * u) <= 5 * (bound * u),
            u > 0,
    ;
    // The distance from the exact weight.
    let e = 1728 * h.value() - exact * u;
    lemma_product_bound(e, v.value(), 110_000 * w, c * bound);
    assert((110_000 * w) * (c * bound) == (110_000 * c) * bw) by (nonlinear_arith)
        requires
            bw == bound * w,
    ;
    assert(e * v.value() == 1728 * exact_product - (exact * v.value()) * u) by (nonlinear_arith)
        requires
            e == 1728 * h.value() - exact * u,
            exact_product == h.value() * v.value(),
    ;
    assert(1728 * ((2 * c + 1) * bw) + (110_000 * c) * bw == (113_456 * c + 1728) * bw)
        by (nonlinear_arith);
}

/// The error of a sum of numbers of at most `c` quarters of `bound` together.
proof fn lemma_plus_near(a: Binary64, b: Binary64, bound: int, c: int)
    requires
        a.is_finite(),
        b.is_finite(),
        1 <= c <= 30,
        4 * accuracy::size(a.value() + b.value()) <= c * bound,
        bound * place() >= binary64::one(),
        8 * bound <= accuracy::limit(),
    ensures
        ({
            let sum = binary64::sum_of(a, b);
            let u = binary64::one() as int;
            &&& sum.is_finite()
            &&& 4 * accuracy::size(sum.value()) <= (c + 1) * bound
            &&& accuracy::size(sum.value() * u - (a.value() + b.value()) * u) <= (c + 1) * (bound
                * place())
        }),
{
    lemma_units();
    let (u, w) = (binary64::one() as int, place() as int);
    let bw = bound * w;
    assert(bound > 0) by (nonlinear_arith)
        requires
            bound * w >= u,
            u > 0,
            w > 0,
    ;
    assert(c * bound <= 30 * bound) by (nonlinear_arith)
        requires
            c <= 30,
            bound > 0,
    ;
    accuracy::law_sum_error(a, b);
    let sum = binary64::sum_of(a, b);
    let exact = a.value() + b.value();
    let error = accuracy::size(sum.value() - exact);
    assert(error * u <= c * bw) by (nonlinear_arith)
        requires
            MANTISSA_END * error <= c * bound,
            u == MANTISSA_END * w,
            bw == bound * w,
            w > 0,
    ;
    assert((c + 1) * bw == c * bw + bw) by (nonlinear_arith);
    assert(4 * ((c + 1) * bw) <= bound * u) by (nonlinear_arith)
        requires
            bw == bound * w,
            u == MANTISSA_END * w,
            MANTISSA_END >= 200,
            1 <= c <= 30,
            bound > 0,
            w > 0,
    ;
    assert((4 * error) * u == 4 * (error * u)) by (nonlinear_arith);
    lemma_cancel(4 * error, bound, u);
    assert((c + 1) * bound == c * bound + bound) by (nonlinear_arith);
    lemma_product_bound(sum.value() - exact, u, error, u);
    assert((sum.value() - exact) * u == sum.value() * u - exact * u) by (nonlinear_arith);
}

/// What a cubic is in 1728ths at a sample, were there no rounding.
pub open spec fn exact_cubic(y0: int, y1: int, m0: int, m1: int, s: int) -> int {
    let exact = exact_weights(s);
    exact.0 * y0 + exact.1 * m0 + exact.2 * y1 + exact.3 * m1
}

/// A cubic is close to what it were without rounding, for values of at most `bound` and tangents of
/// at most eight times as much.
proof fn lemma_cubic_near(y0: Binary64, y1: Binary64, m0: Binary64, m1: Binary64, s: int, bound: int)
    requires
        0 <= s <= 11,
        y0.is_finite() && y1.is_finite() && m0.is_finite() && m1.is_finite(),
        accuracy::size(y0.value()) <= bound,
        accuracy::size(y1.value()) <= bound,
        accuracy::size(m0.value()) <= 8 * bound,
        accuracy::size(m1.value()) <= 8 * bound,
        bound * place() >= binary64::one(),
        8 * bound <= accuracy::limit(),
    ensures
        ({
            let y = interpolation::hermite_at(y0, y1, m0, m1, interpolation::fraction(s as nat));
            let exact = exact_cubic(y0.value(), y1.value(), m0.value(), m1.value(), s);
            &&& y.is_finite()
            &&& 0x8000_0000 * accuracy::size(1728 * y.value() - exact) <= bound
        }),
{
    lemma_units();
    let (u, w) = (binary64::one() as int, place() as int);
    let bw = bound * w;
    let t = interpolation::fraction(s as nat);
    let exact = exact_weights(s);
    lemma_first_value_weight(s);
    lemma_first_tangent_weight(s);
    lemma_second_value_weight(s);
    lemma_second_tangent_weight(s);
    let h00 = interpolation::first_value_weight(t);
    let h10 = interpolation::first_tangent_weight(t);
    let h01 = interpolation::second_value_weight(t);
    let h11 = interpolation::second_tangent_weight(t);
    let (one, eight) = (1int, 8int);
    lemma_exact_weights_bound(s);
    assert(one * bound == bound && (113_456 * one + 1728) * bw
        == 115_184 * bw) by (nonlinear_arith)
        requires
            one == 1,
    ;
    assert(eight * bound == 8 * bound && (113_456 * eight
        + 1728) * bw == 909_376 * bw) by (nonlinear_arith)
        requires
            eight == 8,
    ;
    lemma_term_near(h00, exact.0, y0, bound, one);
    lemma_term_near(h10, exact.1, m0, bound, eight);
    lemma_term_near(h01, exact.2, y1, bound, one);
    lemma_term_near(h11, exact.3, m1, bound, eight);
    let p0 = binary64::product_of(h00, y0);
    let p1 = binary64::product_of(h10, m0);
    let p2 = binary64::product_of(h01, y1);
    let p3 = binary64::product_of(h11, m1);
    let (c1, c2, c3) = (10int, 16int, 22int);
    assert(c1 * bound == 10 * bound && (c1 + 1) * bound == 11 * bound && (c1 + 1) * bw == 11 * bw)
        by (nonlinear_arith)
        requires
            c1 == 10,
    ;
    assert(c2 * bound == 16 * bound && (c2 + 1) * bound == 17 * bound && (c2 + 1) * bw == 17 * bw)
        by (nonlinear_arith)
        requires
            c2 == 16,
    ;
    assert(c3 * bound == 22 * bound && (c3 + 1) * bound == 23 * bound && (c3 + 1) * bw == 23 * bw)
        by (nonlinear_arith)
        requires
            c3 == 22,
    ;
    lemma_plus_near(p0, p1, bound, c1);
    let s1 = binary64::sum_of(p0, p1);
    lemma_plus_near(s1, p2, bound, c2);
    let s2 = binary64::sum_of(s1, p2);
    lemma_plus_near(s2, p3, bound, c3);
    let y = binary64::sum_of(s2, p3);
    lemma_cubic_steps(
        u,
        bw,
        p0.value(),
        p1.value(),
        p2.value(),
        p3.value(),
        s1.value(),
        s2.value(),
        y.value(),
        exact.0 * y0.value(),
        exact.1 * m0.value(),
        exact.2 * y1.value(),
        exact.3 * m1.value(),
    );
    let all = exact_cubic(y0.value(), y1.value(), m0.value(), m1.value(), s);
    let error = accuracy::size(1728 * y.value() - all);
    lemma_product_bound(1728 * y.value() - all, u, error, u);
    assert(0x8000_0000 * error <= bound) by (nonlinear_arith)
        requires
            error * u <= 0x40_0000 * bw,
            u == MANTISSA_END * w,
            bw == bound * w,
            w > 0,
            MANTISSA_END == 0x8000_0000 * 0x40_0000,
    ;
}

/// The errors that add up in a cubic.
proof fn lemma_cubic_steps(
    u: int,
    bw: int,
    p0: int,
    p1: int,
    p2: int,
    p3: int,
    s1: int,
    s2: int,
    y: int,
    k0: int,
    k1: int,
    k2: int,
    k3: int,
)
    requires
        bw >= 0,
        accuracy::size(1728 * (p0 * u) - k0 * u) <= 115_184 * bw,
        accuracy::size(1728 * (p1 * u) - k1 * u) <= 909_376 * bw,
        accuracy::size(1728 * (p2 * u) - k2 * u) <= 115_184 * bw,
        accuracy::size(1728 * (p3 * u) - k3 * u) <= 909_376 * bw,
        accuracy::size(s1 * u - (p0 + p1) * u) <= 21 * bw,
        accuracy::size(s2 * u - (s1 + p2) * u) <= 25 * bw,
        accuracy::size(y * u - (s2 + p3) * u) <= 43 * bw,
    ensures
        accuracy::size((1728 * y - (k0 + k1 + k2 + k3)) * u) <= 0x40_0000 * bw,
{
    assert((p0 + p1) * u == p0 * u + p1 * u) by (nonlinear_arith);
    assert((s1 + p2) * u == s1 * u + p2 * u) by (nonlinear_arith);
    assert((s2 + p3) * u == s2 * u + p3 * u) by (nonlinear_arith);
    assert((1728 * y - (k0 + k1 + k2 + k3)) * u == 1728 * (y * u) - (k0 * u + k1 * u + k2 * u + k3
        * u)) by (nonlinear_arith);
    lemma_small_errors(
        1728 * (p0 * u) - k0 * u,
        1728 * (p1 * u) - k1 * u,
        1728 * (p2 * u) - k2 * u,
        1728 * (p3 * u) - k3 * u,
        s1 * u - (p0 + p1) * u,
        s2 * u - (s1 + p2) * u,
        y * u - (s2 + p3) * u,
        bw,
    );
}

/// The sum of the errors of four terms and of the three sums that take them up.
proof fn lemma_small_errors(
    e0: int,
    e1: int,
    e2: int,
    e3: int,
    f0: int,
    f1: int,
    f2: int,
    bw: int,
)
    requires
        bw >= 0,
        -115_184 * bw <= e0 <= 115_184 * bw,
        -909_376 * bw <= e1 <= 909_376 * bw,
        -115_184 * bw <= e2 <= 115_184 * bw,
        -909_376 * bw <= e3 <= 909_376 * bw,
        -21 * bw <= f0 <= 21 * bw,
        -25 * bw <= f1 <= 25 * bw,
        -43 * bw <= f2 <= 43 * bw,
    ensures
        -0x40_0000 * bw <= e0 + e1 + e2 + e3 + 1728 * f0 + 1728 * f1 + 1728 * f2 <= 0x40_0000 * bw,
{
}

/// Without rounding, a cubic stays between its ends by at least half a 1728th of their distance, if
/// its tangents go the way of the segment and are hardly more than three times as steep.
proof fn lemma_exact_cubic_between(y0: int, y1: int, m0: int, m1: int, s: int)
    requires
        1 <= s <= 11,
        y0 < y1,
        0 <= m0,
        0 <= m1,
        0x100_0000 * m0 <= 0x300_0001 * (y1 - y0),
        0x100_0000 * m1 <= 0x300_0001 * (y1 - y0),
    ensures
        ({
            let exact = exact_cubic(y0, y1, m0, m1, s);
            &&& 2 * (exact - 1728 * y0) >= y1 - y0
            &&& 2 * (1728 * y1 - exact) >= y1 - y0
        }),
{
    let d = y1 - y0;
    let exact = exact_weights(s);
    lemma_exact_weights_bound(s);
    let (a, b, c) = (exact.1 * m0, exact.2 * d, exact.3 * m1);
    assert(exact.0 * y0 + exact.2 * y1 == 1728 * y0 + b) by (nonlinear_arith)
        requires
            exact.0 + exact.2 == 1728,
            b == exact.2 * d,
            d == y1 - y0,
    ;
    // From below: without the first tangent, and with the steepest second one.
    assert(a >= 0) by (nonlinear_arith)
        requires
            a == exact.1 * m0,
            exact.1 >= 0,
            m0 >= 0,
    ;
    assert(0x100_0000 * (b + c) >= 0x80_0000 * d) by (nonlinear_arith)
        requires
            b == exact.2 * d,
            c == exact.3 * m1,
            exact.2 + 3 * exact.3 >= 1,
            -256 <= exact.3 <= 0,
            0x100_0000 * m1 <= 0x300_0001 * d,
            d > 0,
    ;
    // From above: without the second tangent, and with the steepest first one.
    assert(c <= 0) by (nonlinear_arith)
        requires
            c == exact.3 * m1,
            exact.3 <= 0,
            m1 >= 0,
    ;
    assert(0x100_0000 * (b + a) <= 0x100_0000 * (1728 * d) - 0x80_0000 * d) by (nonlinear_arith)
        requires
            b == exact.2 * d,
            a == exact.1 * m0,
            exact.2 + 3 * exact.1 <= 1727,
            0 <= exact.1 <= 256,
            0x100_0000 * m0 <= 0x300_0001 * d,
            d > 0,
    ;
}

/// The lower of two integers.
pub open spec fn lower(a: int, b: int) -> int {
    if a <= b {
        a
    } else {
        b
    }
}

/// The higher of two integers.
pub open spec fn higher(a: int, b: int) -> int {
    if a <= b {
        b
    } else {
        a
    }
}

/// The larger of the distances of two integers from zero.
pub open spec fn extent(a: int, b: int) -> int {
    higher(accuracy::size(a), accuracy::size(b))
}

/// Without rounding, a cubic with held back tangents stays between its ends.
proof fn lemma_exact_cubic_within(y0: int, y1: int, m0: Binary64, m1: Binary64, s: int)
    requires
        1 <= s <= 11,
        tangents::is_held(m0, y1 - y0),
        tangents::is_held(m1, y1 - y0),
    ensures
        ({
            let exact = exact_cubic(y0, y1, m0.value(), m1.value(), s);
            let (low, high) = (lower(y0, y1), higher(y0, y1));
            &&& 2 * (exact - 1728 * low) >= high - low
            &&& 2 * (1728 * high - exact) >= high - low
        }),
{
    let exact = exact_weights(s);
    let (a, b) = (m0.value(), m1.value());
    if y0 < y1 {
        lemma_exact_cubic_between(y0, y1, a, b, s);
    } else if y1 < y0 {
        lemma_exact_cubic_between(-y0, -y1, -a, -b, s);
        lemma_exact_cubic_mirrored(y0, y1, a, b, s);
    } else {
        lemma_exact_weights_bound(s);
        assert(a == 0 && b == 0);
        assert(exact.0 * y0 + exact.1 * a + exact.2 * y1 + exact.3 * b == 1728 * y0)
            by (nonlinear_arith)
            requires
                a == 0,
                b == 0,
                y0 == y1,
                exact.0 + exact.2 == 1728,
        ;
    }
}

/// A sample of a cubic with held back tangents lies between the ends of the cubic, where these are
/// apart by a part in 2 to the power of 30 of the larger of them. It is never beyond them by more
/// than a part in 2 to the power of 41.
pub proof fn law_cubic_stays_between_its_ends(
    y0: Binary64,
    y1: Binary64,
    m0: Binary64,
    m1: Binary64,
    s: int,
)
    requires
        0 <= s < INTERPOLATION_SUBDIVISIONS,
        y0.is_finite(),
        y1.is_finite(),
        tangents::is_held(m0, y1.value() - y0.value()),
        tangents::is_held(m1, y1.value() - y0.value()),
        8 * extent(y0.value(), y1.value()) <= accuracy::limit(),
    ensures
        ({
            let y = interpolation::hermite_at(y0, y1, m0, m1, interpolation::fraction(s as nat));
            let low = lower(y0.value(), y1.value());
            let high = higher(y0.value(), y1.value());
            let size = higher(extent(y0.value(), y1.value()), MANTISSA_END as int);
            &&& y.is_finite()
            &&& 0x4000_0000 * (high - low) >= size ==> low <= y.value() <= high
            &&& 0x200_0000_0000 * (low - y.value()) <= size
            &&& 0x200_0000_0000 * (y.value() - high) <= size
        }),
{
    let (a, b) = (y0.value(), y1.value());
    let size = higher(extent(a, b), MANTISSA_END as int);
    if s == 0 {
        interpolation::lemma_first_fraction();
        interpolation::law_cubic_starts_at_its_first_value(y0, y1, m0, m1);
    } else {
        lemma_units();
        assert(size * place() >= MANTISSA_END * place()) by (nonlinear_arith)
            requires
                size >= MANTISSA_END,
                place() >= 0,
        ;
        lemma_cubic_near(y0, y1, m0, m1, s, size);
        lemma_exact_cubic_within(a, b, m0, m1, s);
    }
}

/// What the line is at a sample of a segment.
proof fn lemma_line_at<X: LinearInterpolate>(points: Seq<ChartPoint<X>>, i: int, s: int)
    requires
        0 <= i < points.len() - 1,
        0 <= s < INTERPOLATION_SUBDIVISIONS,
    ensures
        i * INTERPOLATION_SUBDIVISIONS + s < interpolation::line_through(points).len(),
        ({
            let m = interpolation::tangents_of(interpolation::averages(points));
            interpolation::line_through(points)[i * INTERPOLATION_SUBDIVISIONS + s].1
                == interpolation::hermite_at(
                points[i].avg,
                points[i + 1].avg,
                m[i],
                m[i + 1],
                interpolation::fraction(s as nat),
            )
        }),
{
    let k = i * INTERPOLATION_SUBDIVISIONS + s;
    vstd::arithmetic::div_mod::lemma_fundamental_div_mod_converse(
        k,
        INTERPOLATION_SUBDIVISIONS as int,
        i,
        s,
    );
}

/// What is held back on a segment of ordinary values.
proof fn lemma_segment_is_held(ys: Seq<Binary64>, i: int)
    requires
        tangents::are_ordinary(ys),
        0 <= i < ys.len() - 1,
    ensures
        ys[i].is_finite() && ys[i + 1].is_finite(),
        tangents::is_held(interpolation::tangents_of(ys)[i], ys[i + 1].value() - ys[i].value()),
        tangents::is_held(interpolation::tangents_of(ys)[i + 1], ys[i + 1].value() - ys[i].value()),
        8 * extent(ys[i].value(), ys[i + 1].value()) <= accuracy::limit(),
{
    tangents::law_tangents_are_held_back(ys, i);
}

/// Where the averages are of ordinary size, the line does not overshoot: it stays between the
/// averages of any two neighbours that are apart by a part in 2 to the power of 30 of the larger of
/// them. Between neighbours that are closer together, or equal, rounding can carry it beyond them,
/// by at most a part in 2 to the power of 41.
pub proof fn law_line_does_not_overshoot<X: LinearInterpolate>(
    points: Seq<ChartPoint<X>>,
    i: int,
    s: int,
)
    requires
        tangents::are_ordinary(interpolation::averages(points)),
        0 <= i < points.len() - 1,
        0 <= s < INTERPOLATION_SUBDIVISIONS,
    ensures
        i * INTERPOLATION_SUBDIVISIONS + s < interpolation::line_through(points).len(),
        ({
            let y = interpolation::line_through(points)[i * INTERPOLATION_SUBDIVISIONS + s].1;
            let (a, b) = (points[i].avg.value(), points[i + 1].avg.value());
            let (low, high) = (lower(a, b), higher(a, b));
            let size = higher(extent(a, b), MANTISSA_END as int);
            &&& y.is_finite()
            &&& 0x4000_0000 * (high - low) >= size ==> low <= y.value() <= high
            &&& 0x200_0000_0000 * (low - y.value()) <= size
            &&& 0x200_0000_0000 * (y.value() - high) <= size
        }),
{
    let ys = interpolation::averages(points);
    let m = interpolation::tangents_of(ys);
    assert(ys[i] == points[i].avg && ys[i + 1] == points[i + 1].avg);
    lemma_line_at(points, i, s);
    lemma_segment_is_held(ys, i);
    law_cubic_stays_between_its_ends(ys[i], ys[i + 1], m[i], m[i + 1], s);
}

/// By how much the weights change from one sample to the next.
proof fn lemma_exact_weights_change(s: int)
    requires
        1 <= s <= 10,
    ensures
        ({
            let (exact, next) = (exact_weights(s), exact_weights(s + 1));
            let (a, b, c) = (next.1 - exact.1, next.2 - exact.2, next.3 - exact.3);
            &&& next.0 - exact.0 == -b
            &&& -50 <= a <= 100
            &&& -50 <= c <= 100
            &&& b >= 4
            &&& b + 3 * a >= 4
            &&& b + 3 * c >= 4
            &&& b + 3 * a + 3 * c >= 4
        }),
{
    lemma_sample_powers(s);
    lemma_sample_powers(s + 1);
    assert(s == 1 || s == 2 || s == 3 || s == 4 || s == 5 || s == 6 || s == 7 || s == 8 || s == 9
        || s == 10);
}

/// Without rounding, a rising cubic with held back tangents rises from each sample to the next.
proof fn lemma_exact_cubic_rises(y0: int, y1: int, m0: int, m1: int, s: int)
    requires
        1 <= s <= 10,
        y0 < y1,
        0 <= m0,
        0 <= m1,
        0x100_0000 * m0 <= 0x300_0001 * (y1 - y0),
        0x100_0000 * m1 <= 0x300_0001 * (y1 - y0),
    ensures
        exact_cubic(y0, y1, m0, m1, s + 1) - exact_cubic(y0, y1, m0, m1, s) >= 3 * (y1 - y0),
{
    let d = y1 - y0;
    let (exact, next) = (exact_weights(s), exact_weights(s + 1));
    lemma_exact_weights_change(s);
    let (a, b, c) = (next.1 - exact.1, next.2 - exact.2, next.3 - exact.3);
    lemma_difference_times(next.0, exact.0, y0);
    lemma_difference_times(next.1, exact.1, m0);
    lemma_difference_times(next.2, exact.2, y1);
    lemma_difference_times(next.3, exact.3, m1);
    assert((-b) * y0 + b * y1 == b * d) by (nonlinear_arith)
        requires
            d == y1 - y0,
    ;
    let (ad, bd, cd) = (a * d, b * d, c * d);
    lemma_change(a, m0, d);
    lemma_change(c, m1, d);
    assert(bd >= 4 * d && bd + 3 * ad >= 4 * d && bd + 3 * cd >= 4 * d && bd + 3 * ad + 3 * cd >= 4
        * d) by (nonlinear_arith)
        requires
            ad == a * d,
            bd == b * d,
            cd == c * d,
            b >= 4,
            b + 3 * a >= 4,
            b + 3 * c >= 4,
            b + 3 * a + 3 * c >= 4,
            d > 0,
    ;
}

proof fn lemma_difference_times(x: int, y: int, z: int)
    by (nonlinear_arith)
    ensures
        x * z - y * z == (x - y) * z,
{
}

/// What a tangent can take away from a change.
proof fn lemma_change(a: int, m: int, d: int)
    requires
        -50 <= a <= 100,
        0 <= m,
        0 < d,
        0x100_0000 * m <= 0x300_0001 * d,
    ensures
        a >= 0 ==> a * m >= 0,
        a < 0 ==> 4 * (a * m) >= 12 * (a * d) - d,
{
    if a >= 0 {
        assert(a * m >= 0) by (nonlinear_arith)
            requires
                a >= 0,
                m >= 0,
        ;
    } else {
        assert(0x100_0000 * (a * m) >= 0x300_0001 * (a * d)) by (nonlinear_arith)
            requires
                a < 0,
                0x100_0000 * m <= 0x300_0001 * d,
        ;
        assert(a * d >= -50 * d) by (nonlinear_arith)
            requires
                a >= -50,
                d > 0,
        ;
    }
}

/// From each sample of a cubic with held back tangents to the next, the cubic goes the way of its
/// ends or stays, where these are apart by a part in 2 to the power of 30 of the larger of them.
pub proof fn law_cubic_is_monotone(
    y0: Binary64,
    y1: Binary64,
    m0: Binary64,
    m1: Binary64,
    s: int,
)
    requires
        1 <= s,
        s + 1 < INTERPOLATION_SUBDIVISIONS,
        y0.is_finite(),
        y1.is_finite(),
        tangents::is_held(m0, y1.value() - y0.value()),
        tangents::is_held(m1, y1.value() - y0.value()),
        8 * extent(y0.value(), y1.value()) <= accuracy::limit(),
        0x4000_0000 * accuracy::size(y1.value() - y0.value()) >= higher(
            extent(y0.value(), y1.value()),
            MANTISSA_END as int,
        ),
    ensures
        ({
            let y = interpolation::hermite_at(y0, y1, m0, m1, interpolation::fraction(s as nat));
            let next = interpolation::hermite_at(
                y0,
                y1,
                m0,
                m1,
                interpolation::fraction((s + 1) as nat),
            );
            &&& y0.value() <= y1.value() ==> y.value() <= next.value()
            &&& y1.value() <= y0.value() ==> next.value() <= y.value()
        }),
{
    let (a, b) = (y0.value(), y1.value());
    let size = higher(extent(a, b), MANTISSA_END as int);
    lemma_units();
    assert(size * place() >= MANTISSA_END * place()) by (nonlinear_arith)
        requires
            size >= MANTISSA_END,
            place() >= 0,
    ;
    lemma_cubic_near(y0, y1, m0, m1, s, size);
    lemma_cubic_near(y0, y1, m0, m1, s + 1, size);
    if a < b {
        lemma_exact_cubic_rises(a, b, m0.value(), m1.value(), s);
    } else {
        let (c, e) = (m0.value(), m1.value());
        lemma_exact_cubic_rises(-a, -b, -c, -e, s);
        lemma_exact_cubic_mirrored(a, b, c, e, s);
        lemma_exact_cubic_mirrored(a, b, c, e, s + 1);
    }
}

proof fn lemma_exact_cubic_mirrored(y0: int, y1: int, m0: int, m1: int, s: int)
    ensures
        exact_cubic(-y0, -y1, -m0, -m1, s) == -exact_cubic(y0, y1, m0, m1, s),
{
    let exact = exact_weights(s);
    assert(exact.0 * (-y0) + exact.1 * (-m0) + exact.2 * (-y1) + exact.3 * (-m1) == -(exact.0 * y0
        + exact.1 * m0 + exact.2 * y1 + exact.3 * m1)) by (nonlinear_arith);
}

/// Where the averages are of ordinary size, the line goes the way of the data or stays from each
/// sample to the next, between neighbours that are apart by a part in 2 to the power of 30 of the
/// larger of them.
pub proof fn law_line_is_monotone<X: LinearInterpolate>(
    points: Seq<ChartPoint<X>>,
    i: int,
    s: int,
)
    requires
        tangents::are_ordinary(interpolation::averages(points)),
        0 <= i < points.len() - 1,
        0 <= s < INTERPOLATION_SUBDIVISIONS,
        0x4000_0000 * accuracy::size(points[i + 1].avg.value() - points[i].avg.value()) >= higher(
            extent(points[i].avg.value(), points[i + 1].avg.value()),
            MANTISSA_END as int,
        ),
    ensures
        i * INTERPOLATION_SUBDIVISIONS + s + 1 < interpolation::line_through(points).len(),
        ({
            let line = interpolation::line_through(points);
            let y = line[i * INTERPOLATION_SUBDIVISIONS + s].1;
            let next = line[i * INTERPOLATION_SUBDIVISIONS + s + 1].1;
            let (a, b) = (points[i].avg.value(), points[i + 1].avg.value());
            &&& a <= b ==> y.value() <= next.value()
            &&& b <= a ==> next.value() <= y.value()
        }),
{
    let ys = interpolation::averages(points);
    let m = interpolation::tangents_of(ys);
    let k = i * INTERPOLATION_SUBDIVISIONS + s;
    assert(ys[i] == points[i].avg && ys[i + 1] == points[i + 1].avg);
    if s + 1 == INTERPOLATION_SUBDIVISIONS {
        law_line_does_not_overshoot(points, i, s);
        tangents::law_ordinary_values_are_tame(ys);
        interpolation::law_line_passes_through_every_point(points, i + 1);
        assert((i + 1) * INTERPOLATION_SUBDIVISIONS == k + 1) by (nonlinear_arith)
            requires
                k == i * INTERPOLATION_SUBDIVISIONS + s,
                s + 1 == INTERPOLATION_SUBDIVISIONS,
        ;
    } else if s == 0 {
        law_line_does_not_overshoot(points, i, s + 1);
        tangents::law_ordinary_values_are_tame(ys);
        interpolation::law_line_passes_through_every_point(points, i);
    } else {
        lemma_segment_is_held(ys, i);
        lemma_line_at(points, i, s);
        lemma_line_at(points, i, s + 1);
        law_cubic_is_monotone(ys[i], ys[i + 1], m[i], m[i + 1], s);
    }
}

/// A sample of a cubic lies on the cubic through its ends with its tangents there, but for rounding: at
/// `s` twelfths of the way, what the values and the tangents weigh in 1728ths are the four cubics of
/// Hermite, from `2s³ - 36s² + 1728` for the first value on.
pub proof fn law_samples_lie_on_the_cubic(
    y0: Binary64,
    y1: Binary64,
    m0: Binary64,
    m1: Binary64,
    s: int,
    bound: int,
)
    requires
        0 <= s < 12,
        y0.is_finite() && y1.is_finite() && m0.is_finite() && m1.is_finite(),
        accuracy::size(y0.value()) <= bound,
        accuracy::size(y1.value()) <= bound,
        accuracy::size(m0.value()) <= 8 * bound,
        accuracy::size(m1.value()) <= 8 * bound,
        MANTISSA_END <= bound,
        8 * bound <= accuracy::limit(),
    ensures
        ({
            let twelfths = binary64::quotient_of(
                binary64::whole(false, s as nat),
                binary64::whole(false, 12),
            );
            let y = interpolation::hermite_at(y0, y1, m0, m1, twelfths);
            let exact = (2 * (s * s * s) - 36 * (s * s) + 1728) * y0.value() + (s * s * s - 24 * (s
                * s) + 144 * s) * m0.value() + (36 * (s * s) - 2 * (s * s * s)) * y1.value() + (s * s
                * s - 12 * (s * s)) * m1.value();
            &&& y.is_finite()
            &&& 0x8000_0000 * accuracy::size(1728 * y.value() - exact) <= bound
        }),
{
    lemma_units();
    assert(bound * place() >= MANTISSA_END * place()) by (nonlinear_arith)
        requires
            bound >= MANTISSA_END,
            place() >= 0,
    ;
    lemma_cubic_near(y0, y1, m0, m1, s, bound);
}

/// Between two points the line follows the cubic through their averages, with the tangents there, at
/// every twelfth of the way.
pub proof fn law_line_follows_the_cubics<X: LinearInterpolate>(
    points: Seq<ChartPoint<X>>,
    i: int,
    s: int,
)
    requires
        0 <= i < points.len() - 1,
        0 <= s < 12,
    ensures
        ({
            let m = interpolation::tangents_of(interpolation::averages(points));
            let twelfths = binary64::quotient_of(
                binary64::whole(false, s as nat),
                binary64::whole(false, 12),
            );
            &&& interpolation::line_through(points)[12 * i + s].1 == interpolation::hermite_at(
                points[i].avg,
                points[i + 1].avg,
                m[i],
                m[i + 1],
                twelfths,
            )
            &&& interpolation::line_through(points)[12 * i + s].0 == points[i].x.between(
                points[i + 1].x,
                twelfths,
            )
        }),
{
    lemma_line_at(points, i, s);
    vstd::arithmetic::div_mod::lemma_fundamental_div_mod_converse(12 * i + s, 12, i, s);
}

} // verus!
