//! With tangents as steep as the segment, the average line is straight.

use crate::accuracy;
use crate::binary64;
use crate::binary64::{Binary64, IMPLICIT, MANTISSA_END};
use crate::interpolation;
use crate::monotone;
use vstd::prelude::*;

verus! {

/// The square and the cube of a fraction are hardly more than one, and rounded by little.
proof fn lemma_powers(t: Binary64)
    requires
        t.is_finite(),
        0 <= t.value() <= binary64::one(),
    ensures
        ({
            let u = binary64::one() as int;
            let t2 = binary64::product_of(t, t);
            let t3 = binary64::product_of(t2, t);
            &&& t2.is_finite()
            &&& t3.is_finite()
            &&& accuracy::size(t2.value()) <= u + 6 * monotone::place()
            &&& accuracy::size(t3.value()) <= u + 6 * monotone::place()
            &&& accuracy::size(t2.value() * u - t.value() * t.value()) <= 2 * (u
                * monotone::place())
            &&& accuracy::size(t3.value() * u - t2.value() * t.value()) <= 4 * (u
                * monotone::place())
        }),
{
    monotone::lemma_units();
    let (u, w) = (binary64::one() as int, monotone::place() as int);
    let x = t.value();
    monotone::lemma_product_bound(x, x, u, u);
    monotone::lemma_product_near(t, t, 1);
    let t2 = binary64::product_of(t, t);
    let y = t2.value();
    assert(100 * w <= u) by (nonlinear_arith)
        requires
            u == MANTISSA_END * w,
            MANTISSA_END >= 100,
            w >= 0,
    ;
    monotone::lemma_product_bound(y, u, accuracy::size(y), u);
    assert((u + 2 * w) * u == u * u + 2 * (u * w)) by (nonlinear_arith);
    monotone::lemma_cancel(accuracy::size(y), u + 2 * w, u);
    monotone::lemma_product_bound(y, x, u + 2 * w, u);
    assert(u * w <= u * u) by (nonlinear_arith)
        requires
            0 <= w <= u,
    ;
    monotone::lemma_product_near(t2, t, 3);
    let z = binary64::product_of(t2, t).value();
    monotone::lemma_product_bound(z, u, accuracy::size(z), u);
    assert((u + 6 * w) * u == u * u + 6 * (u * w)) by (nonlinear_arith);
    monotone::lemma_cancel(accuracy::size(z), u + 6 * w, u);
}

/// Whether a weight is what it were without rounding, but for a few places.
spec fn is_near(h: Binary64, exact: int) -> bool {
    &&& h.is_finite()
    &&& accuracy::size(h.value() - exact) <= 30 * monotone::place()
}

/// A place is a small part of one.
proof fn lemma_place()
    ensures
        0 < 1000 * monotone::place() <= binary64::one(),
{
    monotone::lemma_units();
    let (u, w) = (binary64::one() as int, monotone::place() as int);
    assert(1000 * w <= u) by (nonlinear_arith)
        requires
            u == MANTISSA_END * w,
            MANTISSA_END >= 1000,
            w >= 0,
    ;
}

/// The square of a fraction.
spec fn square_of(t: Binary64) -> int {
    binary64::product_of(t, t).value()
}

/// The cube of a fraction.
spec fn cube_of(t: Binary64) -> int {
    binary64::product_of(binary64::product_of(t, t), t).value()
}

/// The weight of the first value.
proof fn lemma_first_value(t: Binary64)
    requires
        t.is_finite(),
        0 <= t.value() <= binary64::one(),
    ensures
        is_near(
            interpolation::first_value_weight(t),
            2 * cube_of(t) - 3 * square_of(t) + binary64::one(),
        ),
{
    let (u, w) = (binary64::one() as int, monotone::place() as int);
    lemma_place();
    lemma_powers(t);
    let t2 = binary64::product_of(t, t);
    let t3 = binary64::product_of(t2, t);
    crate::rounding::law_whole_numbers_are_held(false, 1);
    let one = binary64::whole(false, 1);
    monotone::lemma_multiple_near(false, 2, t3);
    monotone::lemma_multiple_near(false, 3, t2);
    let a = binary64::product_of(binary64::whole(false, 2), t3);
    let b = binary64::product_of(binary64::whole(false, 3), t2);
    monotone::lemma_difference_near(a, b, 6);
    monotone::lemma_sum_near(binary64::difference_of(a, b), one, 7);
}

/// The weight of the first tangent.
proof fn lemma_first_tangent(t: Binary64)
    requires
        t.is_finite(),
        0 <= t.value() <= binary64::one(),
    ensures
        is_near(
            interpolation::first_tangent_weight(t),
            cube_of(t) - 2 * square_of(t) + t.value(),
        ),
{
    let (u, w) = (binary64::one() as int, monotone::place() as int);
    lemma_place();
    lemma_powers(t);
    let t2 = binary64::product_of(t, t);
    let t3 = binary64::product_of(t2, t);
    monotone::lemma_multiple_near(false, 2, t2);
    let c = binary64::product_of(binary64::whole(false, 2), t2);
    monotone::lemma_difference_near(t3, c, 4);
    monotone::lemma_sum_near(binary64::difference_of(t3, c), t, 5);
}

/// The weight of the second value.
proof fn lemma_second_value(t: Binary64)
    requires
        t.is_finite(),
        0 <= t.value() <= binary64::one(),
    ensures
        is_near(interpolation::second_value_weight(t), 3 * square_of(t) - 2 * cube_of(t)),
{
    let (u, w) = (binary64::one() as int, monotone::place() as int);
    lemma_place();
    lemma_powers(t);
    let t2 = binary64::product_of(t, t);
    let t3 = binary64::product_of(t2, t);
    monotone::lemma_multiple_near(false, 3, t2);
    monotone::lemma_multiple_near(true, 2, t3);
    let b = binary64::product_of(binary64::whole(false, 3), t2);
    let e = binary64::product_of(binary64::whole(true, 2), t3);
    monotone::lemma_sum_near(e, b, 6);
}

/// The weight of the second tangent.
proof fn lemma_second_tangent(t: Binary64)
    requires
        t.is_finite(),
        0 <= t.value() <= binary64::one(),
    ensures
        is_near(interpolation::second_tangent_weight(t), cube_of(t) - square_of(t)),
{
    let (u, w) = (binary64::one() as int, monotone::place() as int);
    lemma_place();
    lemma_powers(t);
    let t2 = binary64::product_of(t, t);
    let t3 = binary64::product_of(t2, t);
    monotone::lemma_difference_near(t3, t2, 3);
}

/// Whether a weight without rounding lies between zero and one, but for a few places.
spec fn is_share(k: int) -> bool {
    -20 * monotone::place() <= k <= binary64::one() + 20 * monotone::place()
}

/// The weights without rounding lie between zero and one, but for what the square and the cube are
/// rounded by.
proof fn lemma_shares(x: int, x2: int, x3: int)
    requires
        0 <= x <= binary64::one(),
        accuracy::size(x2 * binary64::one() - x * x) <= 2 * (binary64::one() * monotone::place()),
        accuracy::size(x3 * binary64::one() - x2 * x) <= 4 * (binary64::one() * monotone::place()),
    ensures
        is_share(2 * x3 - 3 * x2 + binary64::one()),
        is_share(x3 - 2 * x2 + x),
        is_share(3 * x2 - 2 * x3),
        is_share(x2 - x3),
        is_share(x + x2 - x3),
{
    monotone::lemma_units();
    let (u, w) = (binary64::one() as int, monotone::place() as int);
    let (e2, e3) = (x2 * u - x * x, x3 * u - x2 * x);
    let (uw, uu) = (u * w, u * u);
    let uuw = uu * w;
    let (f, g, h) = (e2 * x, e2 * u, e3 * u);
    monotone::lemma_product_bound(e2, x, 2 * uw, u);
    monotone::lemma_product_bound(e2, u, 2 * uw, u);
    monotone::lemma_product_bound(e3, u, 4 * uw, u);
    assert((2 * uw) * u == 2 * uuw && (4 * uw) * u == 4 * uuw) by (nonlinear_arith)
        requires
            uw == u * w,
            uu == u * u,
            uuw == uu * w,
    ;
    // The square and the cube, in one times one.
    let (c, q) = (x * x * x, x * x * u);
    assert(x2 * uu == q + g) by (nonlinear_arith)
        requires
            e2 == x2 * u - x * x,
            g == e2 * u,
            q == x * x * u,
            uu == u * u,
    ;
    assert(x3 * uu == c + f + h) by (nonlinear_arith)
        requires
            e2 == x2 * u - x * x,
            e3 == x3 * u - x2 * x,
            f == e2 * x,
            h == e3 * u,
            c == x * x * x,
            uu == u * u,
    ;
    let (cube, line) = (u * uu, x * uu);
    lemma_shapes(x, u);
    assert(c == x * x * x && q == x * x * u && cube == u * u * u && line == x * u * u)
        by (nonlinear_arith)
        requires
            c == x * x * x,
            q == x * x * u,
            uu == u * u,
            cube == u * uu,
            line == x * uu,
    ;
    assert((2 * x3 - 3 * x2 + u) * uu == 2 * (x3 * uu) - 3 * (x2 * uu) + cube) by (nonlinear_arith)
        requires
            cube == u * uu,
    ;
    assert((x3 - 2 * x2 + x) * uu == x3 * uu - 2 * (x2 * uu) + line) by (nonlinear_arith)
        requires
            line == x * uu,
    ;
    assert((3 * x2 - 2 * x3) * uu == 3 * (x2 * uu) - 2 * (x3 * uu)) by (nonlinear_arith);
    assert((x2 - x3) * uu == x2 * uu - x3 * uu) by (nonlinear_arith);
    assert((x + x2 - x3) * uu == line + x2 * uu - x3 * uu) by (nonlinear_arith)
        requires
            line == x * uu,
    ;
    assert(uu > 0) by (nonlinear_arith)
        requires
            uu == u * u,
            u > 0,
    ;
    lemma_share(2 * x3 - 3 * x2 + u, uu, u, w);
    lemma_share(x3 - 2 * x2 + x, uu, u, w);
    lemma_share(3 * x2 - 2 * x3, uu, u, w);
    lemma_share(x2 - x3, uu, u, w);
    lemma_share(x + x2 - x3, uu, u, w);
}

/// What is known of a weight times one times one, shows in the weight.
proof fn lemma_share(k: int, uu: int, u: int, w: int)
    requires
        uu > 0,
    ensures
        k * uu >= -20 * (uu * w) ==> k >= -20 * w,
        k * uu <= u * uu + 20 * (uu * w) ==> k <= u + 20 * w,
{
    if k * uu >= -20 * (uu * w) {
        assert(k >= -20 * w) by (nonlinear_arith)
            requires
                uu > 0,
                k * uu >= -20 * (uu * w),
        ;
    }
    if k * uu <= u * uu + 20 * (uu * w) {
        assert(k <= u + 20 * w) by (nonlinear_arith)
            requires
                uu > 0,
                k * uu <= u * uu + 20 * (uu * w),
        ;
    }
}

/// The shapes of the four weights, and of the first three of them together.
proof fn lemma_shapes(x: int, u: int)
    requires
        0 <= x <= u,
    ensures
        ({
            let (c, q, line, cube) = (x * x * x, x * x * u, x * u * u, u * u * u);
            &&& 0 <= 2 * c - 3 * q + cube <= cube
            &&& 0 <= c - 2 * q + line <= cube
            &&& 0 <= 3 * q - 2 * c <= cube
            &&& 0 <= q - c <= cube
            &&& 0 <= line + q - c <= cube
        }),
{
    let (c, q, line, cube) = (x * x * x, x * x * u, x * u * u, u * u * u);
    let y = u - x;
    assert(2 * c - 3 * q + cube == (y * y) * (u + 2 * x)) by (nonlinear_arith)
        requires
            y == u - x,
            c == x * x * x,
            q == x * x * u,
            cube == u * u * u,
    ;
    assert((y * y) * (u + 2 * x) >= 0) by (nonlinear_arith)
        requires
            u + 2 * x >= 0,
    ;
    assert(3 * q - 2 * c == (x * x) * (3 * u - 2 * x)) by (nonlinear_arith)
        requires
            c == x * x * x,
            q == x * x * u,
    ;
    assert((x * x) * (3 * u - 2 * x) >= 0) by (nonlinear_arith)
        requires
            3 * u - 2 * x >= 0,
    ;
    assert(c - 2 * q + line == x * (y * y)) by (nonlinear_arith)
        requires
            y == u - x,
            c == x * x * x,
            q == x * x * u,
            line == x * u * u,
    ;
    assert(0 <= x * (y * y)) by (nonlinear_arith)
        requires
            x >= 0,
    ;
    assert(q - c == (x * x) * y) by (nonlinear_arith)
        requires
            y == u - x,
            c == x * x * x,
            q == x * x * u,
    ;
    assert(0 <= (x * x) * y) by (nonlinear_arith)
        requires
            y >= 0,
    ;
    assert(cube - line - q + c == (y * y) * (u + x)) by (nonlinear_arith)
        requires
            y == u - x,
            c == x * x * x,
            q == x * x * u,
            line == x * u * u,
            cube == u * u * u,
    ;
    assert((y * y) * (u + x) >= 0) by (nonlinear_arith)
        requires
            u + x >= 0,
    ;
    assert(0 <= line) by (nonlinear_arith)
        requires
            line == x * u * u,
            0 <= x <= u,
    ;
    assert(q <= line) by (nonlinear_arith)
        requires
            q == x * x * u,
            line == x * u * u,
            0 <= x <= u,
    ;
}

/// Whether there is room for values of some size and a little more.
spec fn has_room(bound: int) -> bool {
    let (u, w) = (binary64::one() as int, monotone::place() as int);
    &&& bound * w >= u
    &&& bound * u + 1000 * (bound * w) <= accuracy::limit() * u
}

/// The error of a weighted value.
proof fn lemma_term(h: Binary64, exact: int, v: Binary64, bound: int)
    requires
        is_near(h, exact),
        accuracy::size(exact) <= binary64::one() + 20 * monotone::place(),
        v.is_finite(),
        accuracy::size(v.value()) <= bound,
        has_room(bound),
    ensures
        ({
            let p = binary64::product_of(h, v);
            let u = binary64::one() as int;
            &&& p.is_finite()
            &&& accuracy::size(p.value() * u - exact * v.value()) <= 33 * (bound
                * monotone::place())
        }),
{
    monotone::lemma_units();
    lemma_place();
    let (u, w) = (binary64::one() as int, monotone::place() as int);
    let bw = bound * w;
    monotone::lemma_product_bound(h.value(), v.value(), u + 50 * w, bound);
    assert((u + 50 * w) * bound == bound * u + 50 * bw) by (nonlinear_arith)
        requires
            bw == bound * w,
    ;
    accuracy::law_product_error(h, v);
    let p = binary64::product_of(h, v);
    let product = h.value() * v.value();
    let error = accuracy::size(p.value() * u - product);
    assert(bound * u == MANTISSA_END * bw) by (nonlinear_arith)
        requires
            u == MANTISSA_END * w,
            bw == bound * w,
    ;
    assert(error <= 3 * bw);
    let e = h.value() - exact;
    monotone::lemma_product_bound(e, v.value(), 30 * w, bound);
    assert((30 * w) * bound == 30 * bw) by (nonlinear_arith)
        requires
            bw == bound * w,
    ;
    assert(e * v.value() == product - exact * v.value()) by (nonlinear_arith)
        requires
            e == h.value() - exact,
            product == h.value() * v.value(),
    ;
}

/// The error of a sum.
proof fn lemma_sum(a: Binary64, b: Binary64, bound: int) -> (sum: Binary64)
    requires
        a.is_finite(),
        b.is_finite(),
        has_room(bound),
        accuracy::size((a.value() + b.value()) * binary64::one()) <= bound * binary64::one() + 900
            * (bound * monotone::place()),
    ensures
        sum == binary64::sum_of(a, b),
        sum.is_finite(),
        accuracy::size(
            sum.value() * binary64::one() - (a.value() + b.value()) * binary64::one(),
        ) <= 3 * (bound * monotone::place()),
{
    monotone::lemma_units();
    let (u, w) = (binary64::one() as int, monotone::place() as int);
    let bw = bound * w;
    let sum = binary64::sum_of(a, b);
    let exact = a.value() + b.value();
    let size = accuracy::size(exact);
    monotone::lemma_product_bound(exact, u, size, u);
    monotone::lemma_cancel(size, accuracy::limit() as int, u);
    accuracy::law_sum_error(a, b);
    let error = accuracy::size(sum.value() - exact);
    monotone::lemma_product_bound(sum.value() - exact, u, error, u);
    assert((sum.value() - exact) * u == sum.value() * u - exact * u) by (nonlinear_arith);
    assert(bound * u == MANTISSA_END * bw) by (nonlinear_arith)
        requires
            u == MANTISSA_END * w,
            bw == bound * w,
    ;
    let eu = error * u;
    assert(MANTISSA_END * eu <= size * u + IMPLICIT * u) by (nonlinear_arith)
        requires
            MANTISSA_END * error <= size + IMPLICIT,
            eu == error * u,
            u > 0,
    ;
    assert(eu <= 3 * bw);
    sum
}

/// The nearest number to `k` from zero to `u`.
spec fn clamped(k: int, u: int) -> int {
    if k < 0 {
        0
    } else if k > u {
        u
    } else {
        k
    }
}

/// A share of a value and of a rise from it do not reach beyond where the rise begins and ends.
proof fn lemma_partial(k: int, l: int, y: int, d: int, bound: int)
    requires
        is_share(k),
        is_share(l),
        accuracy::size(y) <= bound,
        accuracy::size(y + d) <= bound,
        accuracy::size(d) * binary64::one() <= bound * binary64::one() + 3 * (bound
            * monotone::place()),
    ensures
        accuracy::size(k * y + l * d) <= bound * binary64::one() + 63 * (bound * monotone::place()),
{
    monotone::lemma_units();
    let (u, w) = (binary64::one() as int, monotone::place() as int);
    let (bu, bw) = (bound * u, bound * w);
    let (a, b) = (clamped(k, u), clamped(l, u));
    monotone::lemma_product_bound(k - a, y, 20 * w, bound);
    monotone::lemma_product_bound(l - b, d, 20 * w, 2 * bound);
    assert((20 * w) * bound == 20 * bw && (20 * w) * (2 * bound) == 40 * bw) by (nonlinear_arith)
        requires
            bw == bound * w,
    ;
    assert((k - a) * y == k * y - a * y && (l - b) * d == l * d - b * d) by (nonlinear_arith);
    let (sy, sd) = (accuracy::size(y), accuracy::size(d));
    monotone::lemma_product_bound(a, y, u, sy);
    monotone::lemma_product_bound(b, d, u, sd);
    assert(u * sy <= bu) by (nonlinear_arith)
        requires
            sy <= bound,
            bu == bound * u,
            u > 0,
    ;
    assert(u * sd == sd * u) by (nonlinear_arith);
    if y >= 0 && d >= 0 || y <= 0 && d <= 0 {
        assert(u * sy + u * sd <= bu) by (nonlinear_arith)
            requires
                sy + sd <= bound,
                bu == bound * u,
                u > 0,
        ;
    } else {
        assert(y > 0 ==> a * y >= 0 && b * d <= 0) by {
            assert(y > 0 && d < 0 && a >= 0 && b >= 0 ==> a * y >= 0 && b * d <= 0)
                by (nonlinear_arith);
        }
        assert(y < 0 ==> a * y <= 0 && b * d >= 0) by {
            assert(y < 0 && d > 0 && a >= 0 && b >= 0 ==> a * y <= 0 && b * d >= 0)
                by (nonlinear_arith);
        }
        assert(bw >= 0) by (nonlinear_arith)
            requires
                bw == bound * w,
                bound >= 0,
                w >= 0,
        ;
    }
}

/// Whether a tangent is as steep as a segment: whether it is the rise or fall of the segment, or what
/// that is rounded to.
pub open spec fn is_as_steep(m: Binary64, y0: Binary64, y1: Binary64) -> bool {
    &&& m.is_finite()
    &&& m.value() == y1.value() - y0.value() || m.value() == binary64::difference_of(y1, y0).value()
}

/// Whether a number is below the largest by a part in 2 to the power of 40.
pub open spec fn has_margin(x: int) -> bool {
    0x100_0000_0000 * accuracy::size(x) <= 0xff_ffff_ffff * accuracy::limit()
}

/// By how much a tangent that is as steep as a segment differs from its rise or fall.
proof fn lemma_steep(m: Binary64, y0: Binary64, y1: Binary64)
    requires
        is_as_steep(m, y0, y1),
        y0.is_finite(),
        y1.is_finite(),
        has_margin(y1.value() - y0.value()),
    ensures
        ({
            let d = y1.value() - y0.value();
            MANTISSA_END * accuracy::size(m.value() - d) <= accuracy::size(d) + IMPLICIT
        }),
{
    crate::rounding::lemma_negated(y0);
    accuracy::law_sum_error(y1, binary64::negated(y0));
}

/// Where both tangents are as steep as the segment, a cubic is the straight line between its ends,
/// but for a part in 2 to the power of 44 of the larger of them. (Where the ends, or their
/// difference, are as large as numbers get, rounding can carry it to the infinity.)
pub proof fn law_matching_tangents_give_a_straight_line(
    y0: Binary64,
    y1: Binary64,
    m0: Binary64,
    m1: Binary64,
    t: Binary64,
)
    requires
        y0.is_finite(),
        y1.is_finite(),
        is_as_steep(m0, y0, y1),
        is_as_steep(m1, y0, y1),
        t.is_finite(),
        0 <= t.value() <= binary64::one(),
        has_margin(y0.value()),
        has_margin(y1.value()),
        has_margin(y1.value() - y0.value()),
    ensures
        ({
            let y = interpolation::hermite_at(y0, y1, m0, m1, t);
            let u = binary64::one() as int;
            let line = y0.value() * u + (y1.value() - y0.value()) * t.value();
            let size = monotone::higher(
                monotone::extent(y0.value(), y1.value()),
                MANTISSA_END as int,
            );
            &&& y.is_finite()
            &&& 0x1000_0000_0000 * accuracy::size(y.value() * u - line) <= size * u
        }),
{
    monotone::lemma_units();
    lemma_place();
    let (u, w) = (binary64::one() as int, monotone::place() as int);
    let d = y1.value() - y0.value();
    let size = monotone::higher(
        monotone::extent(y0.value(), y1.value()),
        MANTISSA_END as int,
    );
    let widest = monotone::higher(monotone::extent(y0.value(), y1.value()), accuracy::size(d));
    // Rounded differences can be a little larger than exact ones.
    lemma_steep(m0, y0, y1);
    lemma_steep(m1, y0, y1);
    let bound = monotone::higher(widest, MANTISSA_END as int) + monotone::higher(
        accuracy::size(m0.value() - d),
        accuracy::size(m1.value() - d),
    );
    lemma_room(widest, bound);
    lemma_weighted(y0, y1, m0, m1, t, bound);
    assert(2 * bound <= 5 * size);
    let (bw, sw) = (bound * w, size * w);
    assert(2 * bw <= 5 * sw && size * u == MANTISSA_END * sw) by (nonlinear_arith)
        requires
            2 * bound <= 5 * size,
            u == MANTISSA_END * w,
            bw == bound * w,
            sw == size * w,
            w > 0,
    ;
}

/// A weighted value is what it were without rounding, but for a few places.
spec fn is_weighted(p: Binary64, exact: int, bound: int) -> bool {
    &&& p.is_finite()
    &&& accuracy::size(p.value() * binary64::one() - exact) <= 37 * (bound * monotone::place())
}

/// The four weighted values.
proof fn lemma_terms(
    y0: Binary64,
    y1: Binary64,
    m0: Binary64,
    m1: Binary64,
    t: Binary64,
    bound: int,
)
    requires
        y0.is_finite() && accuracy::size(y0.value()) <= bound,
        y1.is_finite() && accuracy::size(y1.value()) <= bound,
        m0.is_finite() && accuracy::size(m0.value()) <= bound,
        m1.is_finite() && accuracy::size(m1.value()) <= bound,
        t.is_finite(),
        0 <= t.value() <= binary64::one(),
        has_room(bound),
        ({
            let d = y1.value() - y0.value();
            &&& accuracy::size(d) <= bound
            &&& MANTISSA_END * accuracy::size(m0.value() - d) <= accuracy::size(d) + IMPLICIT
            &&& MANTISSA_END * accuracy::size(m1.value() - d) <= accuracy::size(d) + IMPLICIT
        }),
    ensures
        ({
            let d = y1.value() - y0.value();
            let (x, x2, x3) = (t.value(), square_of(t), cube_of(t));
            let u = binary64::one() as int;
            let p0 = binary64::product_of(interpolation::first_value_weight(t), y0);
            let p1 = binary64::product_of(interpolation::first_tangent_weight(t), m0);
            let p2 = binary64::product_of(interpolation::second_value_weight(t), y1);
            let p3 = binary64::product_of(interpolation::second_tangent_weight(t), m1);
            &&& is_weighted(p0, (2 * x3 - 3 * x2 + u) * y0.value(), bound)
            &&& is_weighted(p1, (x3 - 2 * x2 + x) * d, bound)
            &&& is_weighted(p2, (3 * x2 - 2 * x3) * y1.value(), bound)
            &&& is_weighted(p3, (x3 - x2) * d, bound)
        }),
{
    monotone::lemma_units();
    lemma_place();
    let u = binary64::one() as int;
    let d = y1.value() - y0.value();
    lemma_powers(t);
    let (x, x2, x3) = (t.value(), square_of(t), cube_of(t));
    lemma_shares(x, x2, x3);
    lemma_first_value(t);
    lemma_first_tangent(t);
    lemma_second_value(t);
    lemma_second_tangent(t);
    let (k0, k1, k2, k3) = (2 * x3 - 3 * x2 + u, x3 - 2 * x2 + x, 3 * x2 - 2 * x3, x3 - x2);
    lemma_term(interpolation::first_value_weight(t), k0, y0, bound);
    lemma_term(interpolation::first_tangent_weight(t), k1, m0, bound);
    lemma_term(interpolation::second_value_weight(t), k2, y1, bound);
    lemma_term(interpolation::second_tangent_weight(t), k3, m1, bound);
    lemma_slope(k1, m0.value(), d, bound);
    lemma_slope(k3, m1.value(), d, bound);
}

/// What the weighted values of a straight line add up to.
proof fn lemma_weighted(
    y0: Binary64,
    y1: Binary64,
    m0: Binary64,
    m1: Binary64,
    t: Binary64,
    bound: int,
)
    requires
        y0.is_finite() && accuracy::size(y0.value()) <= bound,
        y1.is_finite() && accuracy::size(y1.value()) <= bound,
        m0.is_finite() && accuracy::size(m0.value()) <= bound,
        m1.is_finite() && accuracy::size(m1.value()) <= bound,
        t.is_finite(),
        0 <= t.value() <= binary64::one(),
        has_room(bound),
        ({
            let d = y1.value() - y0.value();
            &&& accuracy::size(d) <= bound
            &&& MANTISSA_END * accuracy::size(m0.value() - d) <= accuracy::size(d) + IMPLICIT
            &&& MANTISSA_END * accuracy::size(m1.value() - d) <= accuracy::size(d) + IMPLICIT
        }),
    ensures
        ({
            let y = interpolation::hermite_at(y0, y1, m0, m1, t);
            let u = binary64::one() as int;
            let line = y0.value() * u + (y1.value() - y0.value()) * t.value();
            &&& y.is_finite()
            &&& accuracy::size(y.value() * u - line) <= 200 * (bound * monotone::place())
        }),
{
    let u = binary64::one() as int;
    let (y, d) = (y0.value(), y1.value() - y0.value());
    lemma_powers(t);
    let (x, x2, x3) = (t.value(), square_of(t), cube_of(t));
    lemma_terms(y0, y1, m0, m1, t, bound);
    let p0 = binary64::product_of(interpolation::first_value_weight(t), y0);
    let p1 = binary64::product_of(interpolation::first_tangent_weight(t), m0);
    let p2 = binary64::product_of(interpolation::second_value_weight(t), y1);
    let p3 = binary64::product_of(interpolation::second_tangent_weight(t), m1);
    lemma_partials(y, d, x, x2, x3, bound);
    lemma_four(
        p0,
        p1,
        p2,
        p3,
        (2 * x3 - 3 * x2 + u) * y,
        (x3 - 2 * x2 + x) * d,
        (3 * x2 - 2 * x3) * (y + d),
        (x3 - x2) * d,
        bound,
    );
}

/// The sum of four weighted values, taken from the first on.
proof fn lemma_four(
    p0: Binary64,
    p1: Binary64,
    p2: Binary64,
    p3: Binary64,
    k0: int,
    k1: int,
    k2: int,
    k3: int,
    bound: int,
)
    requires
        has_room(bound),
        is_weighted(p0, k0, bound),
        is_weighted(p1, k1, bound),
        is_weighted(p2, k2, bound),
        is_weighted(p3, k3, bound),
        ({
            let most = bound * binary64::one() + 63 * (bound * monotone::place());
            &&& accuracy::size(k0 + k1) <= most
            &&& accuracy::size(k0 + k1 + k2) <= most
            &&& accuracy::size(k0 + k1 + k2 + k3) <= most
        }),
    ensures
        ({
            let s2 = binary64::sum_of(binary64::sum_of(p0, p1), p2);
            let sum = binary64::sum_of(s2, p3);
            &&& sum.is_finite()
            &&& accuracy::size(sum.value() * binary64::one() - (k0 + k1 + k2 + k3)) <= 200 * (bound
                * monotone::place())
        }),
{
    monotone::lemma_units();
    let u = binary64::one() as int;
    assert((p0.value() + p1.value()) * u == p0.value() * u + p1.value() * u) by (nonlinear_arith);
    let s1 = lemma_sum(p0, p1, bound);
    assert((s1.value() + p2.value()) * u == s1.value() * u + p2.value() * u) by (nonlinear_arith);
    let s2 = lemma_sum(s1, p2, bound);
    assert((s2.value() + p3.value()) * u == s2.value() * u + p3.value() * u) by (nonlinear_arith);
    let sum = lemma_sum(s2, p3, bound);
}

/// What the weighted values add up to without rounding.
proof fn lemma_partials(y: int, d: int, x: int, x2: int, x3: int, bound: int)
    requires
        0 <= x <= binary64::one(),
        accuracy::size(x2 * binary64::one() - x * x) <= 2 * (binary64::one() * monotone::place()),
        accuracy::size(x3 * binary64::one() - x2 * x) <= 4 * (binary64::one() * monotone::place()),
        accuracy::size(y) <= bound,
        accuracy::size(y + d) <= bound,
        accuracy::size(d) <= bound,
    ensures
        ({
            let u = binary64::one() as int;
            let (k0, k1) = ((2 * x3 - 3 * x2 + u) * y, (x3 - 2 * x2 + x) * d);
            let (k2, k3) = ((3 * x2 - 2 * x3) * (y + d), (x3 - x2) * d);
            let most = bound * u + 63 * (bound * monotone::place());
            &&& accuracy::size(k0 + k1) <= most
            &&& accuracy::size(k0 + k1 + k2) <= most
            &&& k0 + k1 + k2 + k3 == y * u + d * x
            &&& accuracy::size(y * u + d * x) <= most
        }),
{
    monotone::lemma_units();
    let (u, w) = (binary64::one() as int, monotone::place() as int);
    assert(accuracy::size(d) * u <= bound * u + 3 * (bound * w)) by (nonlinear_arith)
        requires
            0 <= accuracy::size(d) <= bound,
            u > 0,
            w > 0,
    ;
    lemma_shares(x, x2, x3);
    lemma_partial(2 * x3 - 3 * x2 + u, x3 - 2 * x2 + x, y, d, bound);
    lemma_partial(u, x + x2 - x3, y, d, bound);
    lemma_partial(u, x, y, d, bound);
    lemma_first_three(y, d, x, x2, x3, u);
    lemma_line(y, d, x, x2, x3, u);
    assert(y * u == u * y && d * x == x * d) by (nonlinear_arith);
}

/// There is room for values with a margin.
proof fn lemma_room(widest: int, bound: int)
    requires
        0 <= widest,
        has_margin(widest),
        bound >= MANTISSA_END,
        MANTISSA_END * (bound - monotone::higher(widest, MANTISSA_END as int)) <= widest + IMPLICIT,
    ensures
        has_room(bound),
{
    monotone::lemma_units();
    accuracy::lemma_one_is_large();
    let (u, w) = (binary64::one() as int, monotone::place() as int);
    assert(bound * w >= MANTISSA_END * w) by (nonlinear_arith)
        requires
            bound >= MANTISSA_END,
            w >= 0,
    ;
    let limit = accuracy::limit() as int;
    if widest <= MANTISSA_END {
        assert(bound <= MANTISSA_END + 1);
    } else {
        assert(MANTISSA_END * bound <= MANTISSA_END * widest + 2 * widest);
        assert(bound <= 2 * widest);
        assert(MANTISSA_END * widest <= MANTISSA_END * limit - 0x2000 * limit);
    }
    assert(MANTISSA_END * bound + 1000 * bound <= MANTISSA_END * limit);
    assert(bound * u + 1000 * (bound * w) <= limit * u) by (nonlinear_arith)
        requires
            MANTISSA_END * bound + 1000 * bound <= MANTISSA_END * limit,
            u == MANTISSA_END * w,
            w > 0,
    ;
}

/// What a weight makes of the rounding of a difference.
proof fn lemma_slope(k: int, m: int, d: int, bound: int)
    requires
        accuracy::size(k) <= binary64::one() + 20 * monotone::place(),
        MANTISSA_END * accuracy::size(m - d) <= accuracy::size(d) + IMPLICIT,
        accuracy::size(d) <= bound,
        has_room(bound),
    ensures
        accuracy::size(k * m - k * d) <= 4 * (bound * monotone::place()),
{
    monotone::lemma_units();
    lemma_place();
    let (u, w) = (binary64::one() as int, monotone::place() as int);
    let bw = bound * w;
    let e = accuracy::size(m - d);
    monotone::lemma_product_bound(k, m - d, 2 * u, e);
    assert(k * (m - d) == k * m - k * d) by (nonlinear_arith);
    assert((2 * u) * e <= 4 * bw) by (nonlinear_arith)
        requires
            MANTISSA_END * e <= bound + IMPLICIT,
            MANTISSA_END == 2 * IMPLICIT,
            u == MANTISSA_END * w,
            bw == bound * w,
            bw >= u,
            w > 0,
    ;
}

/// The first three weighted values add up to a straight line and a little more.
proof fn lemma_first_three(y: int, d: int, x: int, x2: int, x3: int, u: int)
    ensures
        (2 * x3 - 3 * x2 + u) * y + (x3 - 2 * x2 + x) * d + (3 * x2 - 2 * x3) * (y + d) == u * y + (x
            + x2 - x3) * d,
{
    assert((2 * x3 - 3 * x2 + u) * y + (3 * x2 - 2 * x3) * y == u * y) by (nonlinear_arith);
    assert((x3 - 2 * x2 + x) * d + (3 * x2 - 2 * x3) * d == (x + x2 - x3) * d) by (nonlinear_arith);
    assert((3 * x2 - 2 * x3) * (y + d) == (3 * x2 - 2 * x3) * y + (3 * x2 - 2 * x3) * d)
        by (nonlinear_arith);
}

/// The weighted values add up to a straight line.
proof fn lemma_line(y: int, d: int, x: int, x2: int, x3: int, u: int)
    ensures
        (2 * x3 - 3 * x2 + u) * y + (x3 - 2 * x2 + x) * d + (3 * x2 - 2 * x3) * (y + d) + (x3 - x2)
            * d == y * u + d * x,
{
    assert((2 * x3 - 3 * x2 + u) * y + (3 * x2 - 2 * x3) * y == u * y) by (nonlinear_arith);
    assert((x3 - 2 * x2 + x) * d + (3 * x2 - 2 * x3) * d + (x3 - x2) * d == x * d)
        by (nonlinear_arith);
    assert((3 * x2 - 2 * x3) * (y + d) == (3 * x2 - 2 * x3) * y + (3 * x2 - 2 * x3) * d)
        by (nonlinear_arith);
    assert(u * y == y * u && x * d == d * x) by (nonlinear_arith);
}

} // verus!
