//! The shapes of a temperature chart: its ranges, its min/max band and its average line.

use crate::accuracy;
use crate::binary64;
use crate::binary64::{Binary64, IMPLICIT, MANTISSA_END};
use crate::calendar;
use crate::calendar::{local_clock, Instant};
use crate::interpolation;
use crate::interpolation::interpolate_line;
use crate::numerals;
use crate::numerals::{push_one_decimal, push_two_digits};
use crate::rounding;
use crate::statistics;
use vstd::prelude::*;

verus! {

/// A single measurement point for a chart, generic over the x-axis type.
#[derive(Copy, Debug)]
pub struct ChartPoint<X> {
    /// Where the point lies on the x axis.
    pub x: X,
    /// Lowest temperature.
    pub min: Binary64,
    /// Highest temperature.
    pub max: Binary64,
    /// Average temperature.
    pub avg: Binary64,
}

impl<X: Copy> Clone for ChartPoint<X> {
    fn clone(&self) -> (copy: Self)
        ensures
            copy == *self,
    {
        *self
    }
}

/// Hourly measurement point keyed by an instant.
pub type HourlyPoint = ChartPoint<Instant>;

/// Daily measurement point keyed by an instant.
pub type DailyPoint = ChartPoint<Instant>;

/// The zero.
pub open spec fn zero() -> Binary64 {
    Binary64 { bits: 0 }
}

/// How far a range reaches beyond the data on either side: a tenth of what the data spans, and at
/// least half a degree.
pub open spec fn padding(lo: Binary64, hi: Binary64) -> Binary64 {
    binary64::larger_of(
        binary64::product_of(
            binary64::distance(binary64::difference_of(hi, lo)),
            binary64::quotient_of(binary64::whole(false, 1), binary64::whole(false, 10)),
        ),
        binary64::quotient_of(binary64::whole(false, 1), binary64::whole(false, 2)),
    )
}

/// The range of a y axis for some minima and maxima: padded on either side, or from zero to one
/// where there is no finite range.
pub open spec fn padded_range(lows: Seq<Binary64>, highs: Seq<Binary64>) -> (Binary64, Binary64) {
    let lo = statistics::lowest(lows);
    let hi = statistics::highest(highs);
    if !lo.is_finite() || !hi.is_finite() {
        (zero(), binary64::whole(false, 1))
    } else {
        (
            binary64::difference_of(lo, padding(lo, hi)),
            binary64::sum_of(hi, padding(lo, hi)),
        )
    }
}

/// The first numbers of some pairs.
pub open spec fn firsts(pairs: Seq<(Binary64, Binary64)>) -> Seq<Binary64> {
    pairs.map_values(|pair: (Binary64, Binary64)| pair.0)
}

/// The second numbers of some pairs.
pub open spec fn seconds(pairs: Seq<(Binary64, Binary64)>) -> Seq<Binary64> {
    pairs.map_values(|pair: (Binary64, Binary64)| pair.1)
}

/// Compute a y-axis range from `(min, max)` pairs with padding.
pub fn y_range(pairs: &Vec<(Binary64, Binary64)>) -> (range: (Binary64, Binary64))
    ensures
        range == padded_range(firsts(pairs@), seconds(pairs@)),
{
    let mut lo: Binary64 = Binary64 { bits: 0x7ff0_0000_0000_0000 };
    let mut hi: Binary64 = Binary64 { bits: 0xfff0_0000_0000_0000 };
    let mut i: usize = 0;
    while i < pairs.len()
        invariant
            i <= pairs@.len(),
            lo == statistics::lowest(firsts(pairs@.take(i as int))),
            hi == statistics::highest(seconds(pairs@.take(i as int))),
        decreases pairs@.len() - i,
    {
        let (mn, mx): (Binary64, Binary64) = pairs[i];
        proof {
            let upto = pairs@.take(i + 1);
            assert(firsts(upto).drop_last() =~= firsts(pairs@.take(i as int)));
            assert(seconds(upto).drop_last() =~= seconds(pairs@.take(i as int)));
        }
        if mn.is_below(lo) {
            lo = mn;
        }
        if hi.is_below(mx) {
            hi = mx;
        }
        i = i + 1;
    }
    assert(pairs@.take(pairs@.len() as int) =~= pairs@);
    if !lo.finite() || !hi.finite() {
        return (Binary64 { bits: 0 }, Binary64::from_count(1));
    }
    let tenth: Binary64 = Binary64::from_count(1).over(Binary64::from_count(10));
    let half: Binary64 = Binary64::from_count(1).over(Binary64::from_count(2));
    let pad: Binary64 = hi.minus(lo).abs().times(tenth).max(half);
    (lo.minus(pad), hi.plus(pad))
}

/// The padding is a number, and not negative.
proof fn lemma_padding(lo: Binary64, hi: Binary64)
    requires
        lo.is_finite(),
        hi.is_finite(),
    ensures
        !padding(lo, hi).is_nan(),
        !padding(lo, hi).negative(),
{
    let one = binary64::one();
    vstd::arithmetic::power2::lemma_pow2_pos(1074);
    rounding::law_whole_numbers_are_held(false, 1);
    rounding::law_whole_numbers_are_held(false, 10);
    rounding::law_whole_numbers_are_held(false, 2);
    let tenth = binary64::quotient_of(binary64::whole(false, 1), binary64::whole(false, 10));
    let half = binary64::quotient_of(binary64::whole(false, 1), binary64::whole(false, 2));
    rounding::lemma_quotient_of_wholes(1, 10);
    rounding::lemma_quotient_of_wholes(1, 2);
    rounding::lemma_sum_is_number(hi, binary64::negated(lo));
    let span = binary64::distance(binary64::difference_of(hi, lo));
    rounding::lemma_product_is_number(span, tenth);
}

/// The range of a y axis holds all data that it was made for.
pub proof fn law_range_holds_the_data(lows: Seq<Binary64>, highs: Seq<Binary64>, i: int)
    requires
        0 <= i < lows.len(),
        lows.len() == highs.len(),
        forall|j: int| 0 <= j < lows.len() ==> (#[trigger] lows[j]).is_finite(),
        forall|j: int| 0 <= j < highs.len() ==> (#[trigger] highs[j]).is_finite(),
    ensures
        binary64::at_most(padded_range(lows, highs).0, lows[i]),
        binary64::at_most(highs[i], padded_range(lows, highs).1),
{
    let lo = statistics::lowest(lows);
    let hi = statistics::highest(highs);
    statistics::law_finite_extremes(lows);
    statistics::law_finite_extremes(highs);
    statistics::law_numbers_lie_between_the_extremes(lows, i);
    statistics::law_numbers_lie_between_the_extremes(highs, i);
    lemma_padding(lo, hi);
    let pad = padding(lo, hi);
    rounding::law_sums_follow_the_sign(hi, pad);
    rounding::lemma_negated(pad);
    rounding::law_sums_follow_the_sign(lo, binary64::negated(pad));
}

/// A half is held.
proof fn lemma_half()
    ensures
        ({
            let half = binary64::quotient_of(binary64::whole(false, 1), binary64::whole(false, 2));
            &&& half.is_finite()
            &&& !half.negative()
            &&& 2 * half.value() == binary64::one()
        }),
{
    let u = binary64::one();
    rounding::lemma_quotient_of_wholes(1, 2);
    vstd::arithmetic::power2::lemma_pow2_pos(1074);
    vstd::arithmetic::power2::lemma_pow2_unfold(1074);
    let less = vstd::arithmetic::power2::pow2(1073);
    rounding::law_short_quotients_are_kept(1, 1073, 2 * u);
    assert((1 * less) * (2 * u) == (1 * u) * u) by (nonlinear_arith)
        requires
            u == 2 * less,
    ;
}

/// A tenth is hardly rounded.
proof fn lemma_tenth()
    ensures
        ({
            let tenth = binary64::quotient_of(binary64::whole(false, 1), binary64::whole(false, 10));
            &&& tenth.is_finite()
            &&& !tenth.negative()
            &&& binary64::one() <= 11 * tenth.value() <= 2 * binary64::one()
            &&& MANTISSA_END * accuracy::size(10 * tenth.value() - binary64::one())
                <= binary64::one() + 10 * IMPLICIT
        }),
{
    let u = binary64::one() as int;
    accuracy::lemma_one_is_large();
    rounding::law_whole_numbers_are_held(false, 1);
    rounding::law_whole_numbers_are_held(false, 10);
    let (one, ten) = (binary64::whole(false, 1), binary64::whole(false, 10));
    assert(u * u <= accuracy::limit() * (10 * u)) by (nonlinear_arith)
        requires
            0 < u <= accuracy::limit(),
    ;
    assert(ten.pattern() != 0) by {
        binary64::lemma_parts(0);
    }
    accuracy::law_quotient_error(one, ten);
    let x = binary64::quotient_of(one, ten).value();
    let e = 10 * x - u;
    assert(x * (10 * u) - u * u == e * u) by (nonlinear_arith)
        requires
            e == 10 * x - u,
    ;
    assert(MANTISSA_END * accuracy::size(e) <= u + 10 * IMPLICIT) by (nonlinear_arith)
        requires
            MANTISSA_END * accuracy::size(e * u) <= u * u + IMPLICIT * (10 * u),
            u > 0,
            accuracy::size(e) == (if e < 0 {
                -e
            } else {
                e
            }),
            accuracy::size(e * u) == (if e * u < 0 {
                -(e * u)
            } else {
                e * u
            }),
    ;
}

/// The padding is at least a half, and hardly less than a tenth of what the data spans.
proof fn lemma_padding_size(lo: Binary64, hi: Binary64)
    requires
        lo.is_finite(),
        hi.is_finite(),
    ensures
        !padding(lo, hi).is_nan(),
        !padding(lo, hi).negative(),
        padding(lo, hi).is_finite() ==> binary64::one() <= 2 * padding(lo, hi).value(),
        padding(lo, hi).is_finite() && accuracy::size(hi.value() - lo.value()) >= binary64::one()
            ==> accuracy::size(hi.value() - lo.value()) <= 12 * padding(lo, hi).value(),
{
    let u = binary64::one() as int;
    accuracy::lemma_one_is_large();
    lemma_padding(lo, hi);
    lemma_half();
    lemma_tenth();
    let half = binary64::quotient_of(binary64::whole(false, 1), binary64::whole(false, 2));
    let tenth = binary64::quotient_of(binary64::whole(false, 1), binary64::whole(false, 10));
    rounding::lemma_negated(lo);
    accuracy::law_sum_error(hi, binary64::negated(lo));
    let difference = binary64::difference_of(hi, lo);
    let span = binary64::distance(difference);
    let product = binary64::product_of(span, tenth);
    let exact = accuracy::size(hi.value() - lo.value());
    if span.is_finite() {
        assert(span.value() == accuracy::size(difference.value()));
        accuracy::law_product_error(span, tenth);
        if product.is_finite() && exact >= u {
            assert(100 * (exact - span.value()) <= exact);
            lemma_product_size(span.value(), tenth.value(), product.value(), exact, u);
        } else if product.is_infinite() {
            binary64::lemma_magnitude_grows(half.pattern(), binary64::INFINITE as nat);
            assert(padding(lo, hi) == product);
        }
    } else {
        assert(span.is_infinite());
        binary64::lemma_parts(0);
        binary64::lemma_parts(tenth.pattern());
        rounding::lemma_patterns_by_magnitude(tenth.pattern(), 0);
        rounding::lemma_patterns_by_magnitude(binary64::INFINITE as nat, 0);
        rounding::lemma_with_sign(false, binary64::INFINITE as nat);
        assert(product.is_infinite());
        binary64::lemma_magnitude_grows(half.pattern(), binary64::INFINITE as nat);
        assert(padding(lo, hi) == product);
    }
}

/// What a range is padded by without rounding, tenfold: what the data spans, and at least five
/// degrees.
pub open spec fn tenfold_padding(lo: int, hi: int) -> int {
    if accuracy::size(hi - lo) >= 5 * binary64::one() {
        accuracy::size(hi - lo)
    } else {
        5 * binary64::one() as int
    }
}

/// A tenth of a span is hardly rounded.
proof fn lemma_tenth_of(span: int, tenth: int, product: int, u: int)
    requires
        0 <= span,
        0x1000_0000_0000_0000 <= u,
        0 <= tenth,
        MANTISSA_END * accuracy::size(10 * tenth - u) <= u + 10 * IMPLICIT,
        MANTISSA_END * accuracy::size(product * u - span * tenth) <= accuracy::size(span * tenth)
            + IMPLICIT * u,
    ensures
        0x1_0000_0000_0000 * accuracy::size(10 * product - span) <= span + 0x10_0000_0000_0000,
{
    let e = 10 * tenth - u;
    let (x, f) = (span * tenth, span * e);
    assert(10 * x == span * u + f) by (nonlinear_arith)
        requires
            x == span * tenth,
            f == span * e,
            e == 10 * tenth - u,
    ;
    assert(accuracy::size(f) == span * accuracy::size(e)) by (nonlinear_arith)
        requires
            f == span * e,
            span >= 0,
            accuracy::size(e) == (if e < 0 {
                -e
            } else {
                e
            }),
            accuracy::size(f) == (if f < 0 {
                -f
            } else {
                f
            }),
    ;
    let su = span * u;
    assert(MANTISSA_END * accuracy::size(f) <= 2 * su) by (nonlinear_arith)
        requires
            accuracy::size(f) == span * accuracy::size(e),
            MANTISSA_END * accuracy::size(e) <= 2 * u,
            su == span * u,
            span >= 0,
    ;
    assert(x >= 0) by (nonlinear_arith)
        requires
            x == span * tenth,
            span >= 0,
            tenth >= 0,
    ;
    assert(su >= 0) by (nonlinear_arith)
        requires
            su == span * u,
            span >= 0,
            u > 0,
    ;
    let d = 10 * product - span;
    assert(d * u == 10 * (product * u) - su) by (nonlinear_arith)
        requires
            d == 10 * product - span,
            su == span * u,
    ;
    assert(MANTISSA_END * accuracy::size(d * u) <= 4 * su + 10 * (IMPLICIT * u));
    assert(accuracy::size(d * u) == accuracy::size(d) * u) by (nonlinear_arith)
        requires
            u > 0,
            accuracy::size(d) == (if d < 0 {
                -d
            } else {
                d
            }),
            accuracy::size(d * u) == (if d * u < 0 {
                -(d * u)
            } else {
                d * u
            }),
    ;
    assert(MANTISSA_END * accuracy::size(d) <= 4 * span + 10 * IMPLICIT) by (nonlinear_arith)
        requires
            MANTISSA_END * (accuracy::size(d) * u) <= 4 * (span * u) + 10 * (IMPLICIT * u),
            u > 0,
    ;
}

/// The padding is a tenth of what the data spans, and half a degree where that is less.
proof fn lemma_padding_is_a_tenth(lo: Binary64, hi: Binary64)
    requires
        lo.is_finite(),
        hi.is_finite(),
        4 * accuracy::size(lo.value()) <= accuracy::limit(),
        4 * accuracy::size(hi.value()) <= accuracy::limit(),
    ensures
        padding(lo, hi).is_finite(),
        padding(lo, hi).value() >= 0,
        0x1_0000_0000 * accuracy::size(
            10 * padding(lo, hi).value() - tenfold_padding(lo.value(), hi.value()),
        ) <= tenfold_padding(lo.value(), hi.value()),
{
    let u = binary64::one() as int;
    accuracy::lemma_one_is_large();
    lemma_padding(lo, hi);
    lemma_half();
    lemma_tenth();
    let half = binary64::quotient_of(binary64::whole(false, 1), binary64::whole(false, 2));
    let tenth = binary64::quotient_of(binary64::whole(false, 1), binary64::whole(false, 10));
    rounding::lemma_negated(lo);
    accuracy::law_sum_error(hi, binary64::negated(lo));
    let difference = binary64::difference_of(hi, lo);
    let span = binary64::distance(difference);
    let exact = accuracy::size(hi.value() - lo.value());
    assert(span.value() == accuracy::size(difference.value()));
    assert(MANTISSA_END * accuracy::size(span.value() - exact) <= exact);
    let (s, t) = (span.value(), tenth.value());
    assert(s * t <= accuracy::limit() * u && s * t >= 0) by (nonlinear_arith)
        requires
            0 <= s <= accuracy::limit(),
            0 <= t <= u,
    ;
    accuracy::law_product_error(span, tenth);
    let product = binary64::product_of(span, tenth);
    lemma_tenth_of(s, t, product.value(), u);
    assert(padding(lo, hi) == product || padding(lo, hi) == half);
}

/// The range of a y axis reaches beyond the data by a tenth of what it spans on either side, and by
/// half a degree where that is less, but for rounding.
pub proof fn law_range_is_padded_by_a_tenth(lows: Seq<Binary64>, highs: Seq<Binary64>)
    requires
        lows.len() > 0,
        highs.len() > 0,
        forall|j: int| 0 <= j < lows.len() ==> (#[trigger] lows[j]).is_finite(),
        forall|j: int| 0 <= j < highs.len() ==> (#[trigger] highs[j]).is_finite(),
        4 * accuracy::size(statistics::lowest(lows).value()) <= accuracy::limit(),
        4 * accuracy::size(statistics::highest(highs).value()) <= accuracy::limit(),
    ensures
        ({
            let lo = statistics::lowest(lows).value();
            let hi = statistics::highest(highs).value();
            let range = padded_range(lows, highs);
            let pad = tenfold_padding(lo, hi);
            &&& range.0.is_finite() && range.1.is_finite()
            &&& 0x1000_0000 * accuracy::size(10 * (lo - range.0.value()) - pad) <= pad
                + accuracy::size(lo)
            &&& 0x1000_0000 * accuracy::size(10 * (range.1.value() - hi) - pad) <= pad
                + accuracy::size(hi)
        }),
{
    let (lo, hi) = (statistics::lowest(lows), statistics::highest(highs));
    statistics::law_finite_extremes(lows);
    statistics::law_finite_extremes(highs);
    lemma_padding_is_a_tenth(lo, hi);
    accuracy::lemma_one_is_large();
    let pad = padding(lo, hi);
    rounding::lemma_negated(pad);
    let exact = tenfold_padding(lo.value(), hi.value());
    assert(10 * pad.value() <= 2 * exact);
    assert(2 * exact <= 2 * accuracy::limit());
    accuracy::law_sum_error(lo, binary64::negated(pad));
    accuracy::law_sum_error(hi, pad);
}

/// A tenth of a span, rounded, is at least a twelfth of it.
proof fn lemma_product_size(span: int, tenth: int, product: int, exact: int, u: int)
    requires
        100 * (exact - span) <= exact,
        0x1000_0000_0000_0000 <= u <= exact,
        u <= 11 * tenth,
        MANTISSA_END * accuracy::size(product * u - span * tenth) <= accuracy::size(span * tenth)
            + IMPLICIT * u,
    ensures
        exact <= 12 * product,
{
    let x = span * tenth;
    assert(11 * x >= span * u) by (nonlinear_arith)
        requires
            x == span * tenth,
            u <= 11 * tenth,
            span >= 0,
    ;
    assert(100 * (span * u) >= 99 * (exact * u)) by (nonlinear_arith)
        requires
            100 * span >= 99 * exact,
            u > 0,
    ;
    assert(exact * u >= 0x1000_0000_0000_0000 * u) by (nonlinear_arith)
        requires
            exact >= 0x1000_0000_0000_0000,
            u > 0,
    ;
    assert(1000 * (product * u) >= 999 * x - 1000 * u);
    assert(exact * u <= 12 * (product * u));
    assert(exact <= 12 * product) by (nonlinear_arith)
        requires
            exact * u <= 12 * (product * u),
            u > 0,
    ;
}

/// A sum with a padding that is not lost in rounding is higher.
proof fn lemma_room_above(v: Binary64, pad: Binary64)
    requires
        v.is_finite(),
        !pad.is_nan(),
        !pad.negative(),
        pad.is_finite() ==> binary64::one() <= 2 * pad.value(),
        pad.is_finite() ==> accuracy::size(v.value()) < IMPLICIT * binary64::one() || accuracy::size(
            v.value(),
        ) < (MANTISSA_END - 1) * pad.value(),
    ensures
        binary64::below(v, binary64::sum_of(v, pad)),
{
    let u = binary64::one() as int;
    accuracy::lemma_one_is_large();
    let infinite = binary64::INFINITE as nat;
    binary64::lemma_magnitude_grows(v.pattern(), infinite);
    accuracy::lemma_finite_numbers_are_within(v);
    if pad.is_finite() {
        accuracy::law_sum_error(v, pad);
        let sum = binary64::sum_of(v, pad);
        let exact = v.value() + pad.value();
        if sum.is_finite() && accuracy::size(v.value()) < IMPLICIT * u && exact >= IMPLICIT * u {
            // The sum reaches 2 to the power of 52, which the number does not.
            binary64::lemma_edges();
            rounding::law_short_quotients_are_kept(1, 1126, 1);
            vstd::arithmetic::power2::lemma_pow2_adds(52, 1074);
            let top = binary64::nearest_pattern((1 * vstd::arithmetic::power2::pow2(1126)) * 1, 1);
            let found = binary64::nearest_pattern(exact as nat, 1);
            rounding::law_rounding_stops_at_held_numbers(exact as nat, 1, top);
            rounding::lemma_with_sign(false, found);
            rounding::lemma_patterns_by_magnitude(top, found);
        } else if sum.is_finite() {
            let e = accuracy::size(sum.value() - exact);
            assert((MANTISSA_END - 1) * pad.value() == MANTISSA_END * pad.value() - pad.value())
                by (nonlinear_arith);
            assert(e < pad.value());
        }
    }
}

/// Whether a value is small enough, next to a degree or to what the data spans, for the padding not
/// to be lost in rounding.
pub open spec fn can_be_padded(v: int, span: int) -> bool {
    ||| accuracy::size(v) < IMPLICIT * binary64::one()
    ||| accuracy::size(v) <= 0x2_0000_0000_0000 * accuracy::size(span)
}

/// The range of a y axis leaves room on either side of the data, so that the series is not flush
/// against the axes, where the lowest and the highest value are below 2 to the power of 52, or not
/// beyond 2 to the power of 49 times what the data spans. (A flat series of larger values can leave
/// no room: half a degree is lost in rounding.)
pub proof fn law_range_leaves_room(lows: Seq<Binary64>, highs: Seq<Binary64>, i: int)
    requires
        0 <= i < lows.len(),
        lows.len() == highs.len(),
        forall|j: int| 0 <= j < lows.len() ==> (#[trigger] lows[j]).is_finite(),
        forall|j: int| 0 <= j < highs.len() ==> (#[trigger] highs[j]).is_finite(),
        ({
            let lo = statistics::lowest(lows).value();
            let hi = statistics::highest(highs).value();
            can_be_padded(lo, hi - lo) && can_be_padded(hi, hi - lo)
        }),
    ensures
        binary64::below(padded_range(lows, highs).0, lows[i]),
        binary64::below(highs[i], padded_range(lows, highs).1),
{
    let lo = statistics::lowest(lows);
    let hi = statistics::highest(highs);
    statistics::law_finite_extremes(lows);
    statistics::law_finite_extremes(highs);
    statistics::law_numbers_lie_between_the_extremes(lows, i);
    statistics::law_numbers_lie_between_the_extremes(highs, i);
    lemma_padding_size(lo, hi);
    let pad = padding(lo, hi);
    lemma_room_above(hi, pad);
    // Below is above, seen from the other side.
    rounding::lemma_negated(lo);
    rounding::lemma_negated(pad);
    lemma_room_above(binary64::negated(lo), pad);
    lemma_sum_mirrored(lo, binary64::negated(pad), binary64::negated(lo), pad);
}

/// The sum of two numbers with other signs is the sum with the other sign.
proof fn lemma_sum_mirrored(a: Binary64, b: Binary64, c: Binary64, d: Binary64)
    requires
        a.is_finite(),
        !b.is_nan(),
        c.pattern() == a.pattern() && c.value() == -a.value(),
        d.pattern() == b.pattern() && d.value() == -b.value() && d.negative() == !b.negative(),
    ensures
        !binary64::sum_of(a, b).is_nan(),
        binary64::sum_of(a, b).value() == -binary64::sum_of(c, d).value(),
{
    if b.is_finite() {
        let exact = a.value() + b.value();
        let pattern = binary64::nearest_pattern(accuracy::size(exact) as nat, 1);
        rounding::lemma_with_sign(true, pattern);
        rounding::lemma_with_sign(false, pattern);
        rounding::lemma_with_sign(a.negative() && b.negative(), 0);
        rounding::lemma_with_sign(c.negative() && d.negative(), 0);
        binary64::lemma_parts(0);
    }
}

// ---------------------------------------------------------------------------------------------
// Shapes
// ---------------------------------------------------------------------------------------------

/// The earliest instant of some points.
pub open spec fn earliest(points: Seq<ChartPoint<Instant>>) -> Instant
    recommends
        points.len() > 0,
    decreases points.len(),
{
    if points.len() <= 1 {
        points[0].x
    } else {
        let rest = earliest(points.drop_last());
        if points.last().x.earlier(rest) {
            points.last().x
        } else {
            rest
        }
    }
}

/// The latest instant of some points.
pub open spec fn latest(points: Seq<ChartPoint<Instant>>) -> Instant
    recommends
        points.len() > 0,
    decreases points.len(),
{
    if points.len() <= 1 {
        points[0].x
    } else {
        let rest = latest(points.drop_last());
        if rest.earlier(points.last().x) {
            points.last().x
        } else {
            rest
        }
    }
}

/// Every point lies between the earliest and the latest instant.
pub proof fn law_points_lie_within_the_time_range(points: Seq<ChartPoint<Instant>>, i: int)
    requires
        0 <= i < points.len(),
    ensures
        !points[i].x.earlier(earliest(points)),
        !latest(points).earlier(points[i].x),
    decreases points.len(),
{
    if points.len() > 1 && i < points.len() - 1 {
        law_points_lie_within_the_time_range(points.drop_last(), i);
    }
}

/// The time axis begins at a point and ends at a point.
pub proof fn law_time_range_begins_and_ends_at_points(points: Seq<ChartPoint<Instant>>)
    requires
        points.len() > 0,
    ensures
        exists|i: int| 0 <= i < points.len() && (#[trigger] points[i]).x == earliest(points),
        exists|i: int| 0 <= i < points.len() && (#[trigger] points[i]).x == latest(points),
    decreases points.len(),
{
    if points.len() == 1 {
        assert(points[0].x == earliest(points) && points[0].x == latest(points));
    } else {
        let shorter = points.drop_last();
        law_time_range_begins_and_ends_at_points(shorter);
        let i = choose|i: int| 0 <= i < shorter.len() && (#[trigger] shorter[i]).x == earliest(
            shorter,
        );
        let j = choose|j: int| 0 <= j < shorter.len() && (#[trigger] shorter[j]).x == latest(shorter);
        assert(points[i].x == shorter[i].x && points[j].x == shorter[j].x);
        let last = points[points.len() - 1].x;
        assert(earliest(points) == last || earliest(points) == points[i].x);
        assert(latest(points) == last || latest(points) == points[j].x);
    }
}

/// The outline of the min/max band: along the minima and back along the maxima.
pub open spec fn band_around<X>(points: Seq<ChartPoint<X>>) -> Seq<(X, Binary64)> {
    Seq::new(
        2 * points.len(),
        |i: int|
            if i < points.len() {
                (points[i].x, points[i].min)
            } else {
                (points[2 * points.len() - 1 - i].x, points[2 * points.len() - 1 - i].max)
            },
    )
}

/// The outline of the min/max band: along the minima and back along the maxima.
pub fn band_outline(points: &Vec<ChartPoint<Instant>>) -> (outline: Vec<(Instant, Binary64)>)
    ensures
        outline@ == band_around(points@),
{
    let n: usize = points.len();
    let mut outline: Vec<(Instant, Binary64)> = Vec::new();
    let mut i: usize = 0;
    while i < n
        invariant
            n == points@.len(),
            i <= n,
            outline@.len() == i,
            forall|j: int| 0 <= j < i ==> outline@[j] == band_around(points@)[j],
        decreases n - i,
    {
        let point: ChartPoint<Instant> = points[i];
        outline.push((point.x, point.min));
        i = i + 1;
    }
    let mut left: usize = n;
    while left > 0
        invariant
            n == points@.len(),
            left <= n,
            outline@.len() == 2 * n - left,
            forall|j: int| 0 <= j < 2 * n - left ==> outline@[j] == band_around(points@)[j],
        decreases left,
    {
        left = left - 1;
        let point: ChartPoint<Instant> = points[left];
        outline.push((point.x, point.max));
    }
    assert(outline@ =~= band_around(points@));
    outline
}

/// The outline of the band goes through the minimum of every point on the way out and through its
/// maximum on the way back, at the place of the point.
pub proof fn law_band_goes_through_every_minimum_and_maximum<X>(
    points: Seq<ChartPoint<X>>,
    i: int,
)
    requires
        0 <= i < points.len(),
    ensures
        ({
            let band = band_around(points);
            let back = band.reverse();
            &&& band.len() == 2 * points.len()
            &&& band[i].0 == points[i].x && band[i].1 == points[i].min
            &&& back[i].0 == points[i].x && back[i].1 == points[i].max
        }),
{
}

/// Every corner of the band is the minimum or the maximum of a point, at the place of that point.
pub proof fn law_band_has_no_other_corners<X>(points: Seq<ChartPoint<X>>, k: int)
    requires
        0 <= k < band_around(points).len(),
    ensures
        exists|i: int|
            0 <= i < points.len() && band_around(points)[k].0 == (#[trigger] points[i]).x && (
            band_around(points)[k].1 == points[i].min || band_around(points)[k].1 == points[i].max),
{
    let n = points.len() as int;
    if k < n {
        assert(band_around(points)[k].0 == points[k].x);
    } else {
        assert(band_around(points)[k].0 == points[2 * n - 1 - k].x);
    }
}

/// The minima and maxima of some points.
pub open spec fn extents(points: Seq<ChartPoint<Instant>>) -> Seq<(Binary64, Binary64)> {
    points.map_values(|point: ChartPoint<Instant>| (point.min, point.max))
}

/// The minimum and the maximum of every point lie on the temperature axis.
pub proof fn law_temperature_axis_holds_every_point(points: Seq<ChartPoint<Instant>>, i: int)
    requires
        0 <= i < points.len(),
        forall|j: int|
            0 <= j < points.len() ==> (#[trigger] points[j]).min.is_finite()
                && points[j].max.is_finite(),
    ensures
        ({
            let axis = padded_range(firsts(extents(points)), seconds(extents(points)));
            &&& !axis.0.is_nan() && axis.0.value() <= points[i].min.value()
            &&& !axis.1.is_nan() && points[i].max.value() <= axis.1.value()
        }),
{
    let (lows, highs) = (firsts(extents(points)), seconds(extents(points)));
    assert forall|j: int| 0 <= j < lows.len() implies (#[trigger] lows[j]).is_finite() by {
        assert(lows[j] == points[j].min);
    }
    assert forall|j: int| 0 <= j < highs.len() implies (#[trigger] highs[j]).is_finite() by {
        assert(highs[j] == points[j].max);
    }
    law_range_holds_the_data(lows, highs, i);
    assert(lows[i] == points[i].min && highs[i] == points[i].max);
}

/// What is drawn of a series of temperatures.
#[derive(Debug)]
pub struct TemperatureChart {
    /// Where the x axis begins.
    pub x_min: Instant,
    /// Where the x axis ends.
    pub x_max: Instant,
    /// Where the y axis begins.
    pub y_lo: Binary64,
    /// Where the y axis ends.
    pub y_hi: Binary64,
    /// The outline of the min/max band.
    pub band: Vec<(Instant, Binary64)>,
    /// The average line.
    pub line: Vec<(Instant, Binary64)>,
}

/// Lay out a temperature chart (min/max band + average line), or nothing where there is no data.
pub fn draft_chart(points: &Vec<ChartPoint<Instant>>) -> (chart: Option<TemperatureChart>)
    requires
        forall|i: int| 0 <= i < points@.len() ==> (#[trigger] points@[i]).x.exists_in_calendar(),
    ensures
        chart is None <==> points@.len() == 0,
        chart is Some ==> {
            let drawn = chart->0;
            &&& drawn.x_min == earliest(points@)
            &&& drawn.x_max == latest(points@)
            &&& (drawn.y_lo, drawn.y_hi) == padded_range(
                firsts(extents(points@)),
                seconds(extents(points@)),
            )
            &&& drawn.band@ == band_around(points@)
            &&& drawn.line@ == interpolation::line_through(points@)
        },
{
    let n: usize = points.len();
    if n == 0 {
        return None;
    }
    let first: ChartPoint<Instant> = points[0];
    let mut x_min: Instant = first.x;
    let mut x_max: Instant = first.x;
    let mut pairs: Vec<(Binary64, Binary64)> = Vec::new();
    pairs.push((first.min, first.max));
    let mut i: usize = 1;
    while i < n
        invariant
            1 <= i <= n == points@.len(),
            x_min == earliest(points@.take(i as int)),
            x_max == latest(points@.take(i as int)),
            pairs@.len() == i,
            forall|j: int| 0 <= j < i ==> pairs@[j] == extents(points@)[j],
        decreases n - i,
    {
        let point: ChartPoint<Instant> = points[i];
        proof {
            assert(points@.take(i + 1).drop_last() =~= points@.take(i as int));
        }
        if point.x.is_before(x_min) {
            x_min = point.x;
        }
        if x_max.is_before(point.x) {
            x_max = point.x;
        }
        pairs.push((point.min, point.max));
        i = i + 1;
    }
    assert(points@.take(n as int) =~= points@);
    assert(pairs@ =~= extents(points@));
    let (y_lo, y_hi): (Binary64, Binary64) = y_range(&pairs);
    let band: Vec<(Instant, Binary64)> = band_outline(points);
    proof {
        interpolation::law_dated_points_are_connected(points@);
    }
    let line: Vec<(Instant, Binary64)> = interpolate_line(points);
    Some(TemperatureChart { x_min, x_max, y_lo, y_hi, band, line })
}

/// The label of a temperature on the y axis.
pub fn temperature_label(temperature: Binary64) -> (label: String)
    ensures
        label@ == numerals::one_decimal(temperature) + "°C"@,
{
    let mut label = String::new();
    push_one_decimal(&mut label, temperature);
    label.append("°C");
    proof {
        assert(label@ =~= numerals::one_decimal(temperature) + "°C"@);
    }
    label
}

/// The time of day on the clocks in Zurich, as it stands on the x axis.
pub open spec fn hour_text(seconds: int) -> Seq<char> {
    let (_, hour, minute) = calendar::zurich_clock(seconds);
    numerals::two_digits(hour as nat) + ":"@ + numerals::two_digits(minute as nat)
}

/// The day in Zurich, as it stands on the x axis.
pub open spec fn day_text(seconds: int) -> Seq<char> {
    let (_, month, day) = calendar::civil(calendar::zurich_clock(seconds).0);
    numerals::two_digits(day as nat) + "."@ + numerals::two_digits(month as nat) + "."@
}

/// The label of an instant on the x axis of the hourly chart.
pub fn hour_label(instant: Instant) -> (label: Option<String>)
    ensures
        label is Some <==> instant.exists_in_calendar(),
        label is Some ==> label->0@ == hour_text(instant.seconds as int),
{
    match local_clock(instant) {
        Some(time) => {
            let mut label = String::new();
            push_two_digits(&mut label, time.hour);
            label.append(":");
            push_two_digits(&mut label, time.minute);
            proof {
                assert(label@ =~= hour_text(instant.seconds as int));
            }
            Some(label)
        },
        None => None,
    }
}

/// The label of an instant on the x axis of the daily chart.
pub fn day_label(instant: Instant) -> (label: Option<String>)
    ensures
        label is Some <==> instant.exists_in_calendar(),
        label is Some ==> label->0@ == day_text(instant.seconds as int),
{
    match local_clock(instant) {
        Some(time) => {
            let mut label = String::new();
            push_two_digits(&mut label, time.month_day);
            label.append(".");
            push_two_digits(&mut label, time.month);
            label.append(".");
            proof {
                assert(label@ =~= day_text(instant.seconds as int));
            }
            Some(label)
        },
        None => None,
    }
}

/// The label of an hour reads as the hour and the minute on the clocks in Zurich, with two digits each
/// and a colon between them.
pub proof fn law_hour_labels_read_as_the_time(seconds: int)
    requires
        0 <= calendar::zurich_clock(seconds).1 < 24,
        0 <= calendar::zurich_clock(seconds).2 < 60,
    ensures
        ({
            let label = hour_text(seconds);
            &&& label.len() == 5
            &&& label[2] == ':'
            &&& numerals::digits_value(label.take(2)) == Some(
                calendar::zurich_clock(seconds).1 as nat,
            )
            &&& numerals::digits_value(label.skip(3)) == Some(
                calendar::zurich_clock(seconds).2 as nat,
            )
        }),
{
    reveal_strlit(":");
    let (_, hour, minute) = calendar::zurich_clock(seconds);
    numerals::law_two_digits_are_two(hour as nat);
    numerals::law_two_digits_are_two(minute as nat);
    let label = hour_text(seconds);
    assert(label.take(2) =~= numerals::two_digits(hour as nat));
    assert(label.skip(3) =~= numerals::two_digits(minute as nat));
}

/// The label of a day reads as the day and then the month of its date, with two digits each and a
/// point behind either.
pub proof fn law_day_labels_read_as_the_date(seconds: int, year: int, month: int, day: int)
    requires
        calendar::is_date(calendar::zurich_clock(seconds).0, year, month, day),
    ensures
        ({
            let label = day_text(seconds);
            &&& label.len() == 6
            &&& label[2] == '.' && label[5] == '.'
            &&& numerals::digits_value(label.take(2)) == Some(day as nat)
            &&& numerals::digits_value(label.subrange(3, 5)) == Some(month as nat)
        }),
{
    reveal_strlit(".");
    let found = (year, month, day);
    calendar::law_days_have_one_date(calendar::zurich_clock(seconds).0, found, found);
    numerals::law_two_digits_are_two(day as nat);
    numerals::law_two_digits_are_two(month as nat);
    let label = day_text(seconds);
    assert(label.take(2) =~= numerals::two_digits(day as nat));
    assert(label.subrange(3, 5) =~= numerals::two_digits(month as nat));
}

} // verus!
