//! Monotone cubic (Fritsch-Carlson) interpolation for chart line series.
//!
//! The min/max temperature bands are drawn from raw data, but the average line is interpolated to
//! many intermediate points, so that straight lines between them look like a smooth curve through
//! every data point.

use crate::accuracy;
use crate::binary64;
use crate::binary64::{power_of_two, split, Binary64, IMPLICIT, INFINITE, MANTISSA_END};
use crate::calendar;
use crate::calendar::{after_nanoseconds, instant_at, nanoseconds_between, Instant};
use crate::chart;
use crate::chart::ChartPoint;
use crate::rounding;
use vstd::arithmetic::power2::*;
use vstd::prelude::*;

verus! {

/// Number of intermediate samples generated between each pair of adjacent input points during line
/// interpolation.
pub const INTERPOLATION_SUBDIVISIONS: usize = 12;

/// Values of a chart's x axis between which one can go in a straight line.
pub trait LinearInterpolate: Copy {
    /// Whether there is a value at the fraction `t` of the way.
    spec fn reaches(self, other: Self, t: Binary64) -> bool;

    /// The value at the fraction `t` of the way from this one to another.
    spec fn between(self, other: Self, t: Binary64) -> Self;

    /// Return the value at fraction `t` along the straight line from `self` (at `t = 0`) to `other`
    /// (at `t = 1`).
    fn linear_interpolate(&self, other: &Self, t: Binary64) -> (value: Self)
        requires
            self.reaches(*other, t),
        ensures
            value == self.between(*other, t),
    ;
}

/// The number nearest to an integer.
pub open spec fn from_int(integer: int) -> Binary64 {
    if integer < 0 {
        binary64::whole(true, (-integer) as nat)
    } else {
        binary64::whole(false, integer as nat)
    }
}

/// Whether a span of nanoseconds is so short, about 104 days at most, that a double precision number
/// holds it.
pub open spec fn is_short(span: int) -> bool {
    accuracy::size(span) < MANTISSA_END
}

/// The part of a span that a fraction of it is, without rounding, cut towards zero.
pub open spec fn exact_part(span: int, t: Binary64) -> int {
    let count = accuracy::size(span) * t.magnitude() / (binary64::one() as int);
    if t.is_nan() {
        0
    } else if (span < 0) != t.negative() {
        -count
    } else {
        count
    }
}

/// The part of a span of nanoseconds that a fraction of it is, cut to whole ones: the nearest
/// product of the two numbers where the span is short, and without rounding where it is long.
pub open spec fn part_of(span: int, t: Binary64) -> int {
    if is_short(span) {
        binary64::cut_to_integer(binary64::product_of(from_int(span), t))
    } else {
        exact_part(span, t)
    }
}

/// The nanoseconds since 1970-01-01T00:00:00Z at a fraction of the way between two instants.
pub open spec fn nanos_between(from: Instant, to: Instant, t: Binary64) -> int {
    from.total_nanos() + part_of(to.total_nanos() - from.total_nanos(), t)
}

impl LinearInterpolate for Instant {
    open spec fn reaches(self, other: Self, t: Binary64) -> bool {
        &&& self.exists_in_calendar()
        &&& other.exists_in_calendar()
        &&& calendar::has_nanos(nanos_between(self, other, t))
    }

    /// So many nanoseconds later as the fraction of the span is, cut to whole ones.
    open spec fn between(self, other: Self, t: Binary64) -> Self {
        calendar::instant_of(nanos_between(self, other, t))
    }

    fn linear_interpolate(&self, other: &Self, t: Binary64) -> (value: Self) {
        match nanoseconds_between(*self, *other) {
            Some(span) => {
                if -0x20_0000_0000_0000 < span && span < 0x20_0000_0000_0000 {
                    let shift: i64 = Binary64::from_integer(span).times(t).to_integer();
                    return after_nanoseconds(*self, shift);
                }
            },
            None => {},
        }
        proof {
            calendar::law_instants_are_nanoseconds(0, *self);
            calendar::law_instants_are_nanoseconds(0, *other);
        }
        let from: i128 = self.nanos_since_epoch();
        let to: i128 = other.nanos_since_epoch();
        if t.unsigned() > INFINITE {
            return instant_at(from);
        }
        let backwards: bool = to < from;
        let size: u128 = if backwards {
            (from - to) as u128
        } else {
            (to - from) as u128
        };
        let count: u128 = long_part(size, t);
        if backwards != t.is_negative() {
            instant_at(from - count as i128)
        } else {
            instant_at(from + count as i128)
        }
    }
}

/// The part of a long span that a fraction of it is, cut to a whole number.
fn long_part(size: u128, t: Binary64) -> (count: u128)
    requires
        MANTISSA_END <= size < 0x400_0000_0000_0000_0000,
        !t.is_nan(),
        size * t.magnitude() / (binary64::one() as int) < 0x400_0000_0000_0000_0000,
    ensures
        count == size * t.magnitude() / (binary64::one() as int),
        count < 0x400_0000_0000_0000_0000,
{
    let pattern: u64 = t.unsigned();
    let (m, r) = split(pattern);
    proof {
        binary64::lemma_parts(pattern as nat);
        binary64::lemma_edges();
        lemma_pow2_pos(1074);
        lemma_pow2_pos(r as nat);
    }
    let ghost unit = pow2(r as nat);
    let ghost exact = size * t.magnitude();
    assert(t.magnitude() == m * unit);
    if r >= 1074 {
        proof {
            if r > 1074 {
                lemma_pow2_strictly_increases(1074, r as nat);
            }
            let one = binary64::one();
            assert(exact >= 0x400_0000_0000_0000_0000 * one) by (nonlinear_arith)
                requires
                    exact == size * (m * unit),
                    size >= 0x20_0000_0000_0000,
                    m >= 0x10_0000_0000_0000,
                    unit >= one,
                    one > 0,
            ;
            vstd::arithmetic::div_mod::lemma_fundamental_div_mod(exact, one as int);
            assert(exact / (one as int) >= 0x400_0000_0000_0000_0000) by (nonlinear_arith)
                requires
                    exact >= 0x400_0000_0000_0000_0000 * one,
                    exact == one * (exact / (one as int)) + exact % (one as int),
                    exact % (one as int) < one,
                    one > 0,
            ;
        }
        return 0;
    }
    let drop: u32 = 1074 - r;
    proof {
        lemma_pow2_adds(r as nat, drop as nat);
        lemma_pow2_pos(drop as nat);
        lemma2_to64();
        lemma2_to64_rest();
        lemma_pow2_adds(64, 63);
        assert(size * m < 0x400_0000_0000_0000_0000 * 0x20_0000_0000_0000) by (nonlinear_arith)
            requires
                0 <= size < 0x400_0000_0000_0000_0000,
                0 <= m < 0x20_0000_0000_0000,
        ;
    }
    let product: u128 = size * m as u128;
    let ghost power = pow2(drop as nat);
    let count: u128 = if drop >= 127 {
        proof {
            if drop > 127 {
                lemma_pow2_strictly_increases(127, drop as nat);
            }
            vstd::arithmetic::div_mod::lemma_fundamental_div_mod_converse(
                product as int,
                power as int,
                0,
                product as int,
            );
        }
        0
    } else {
        product / power_of_two(drop)
    };
    proof {
        let rest = product as int - power * count;
        vstd::arithmetic::div_mod::lemma_fundamental_div_mod(product as int, power as int);
        assert(0 <= rest < power);
        let one = binary64::one();
        assert(exact == one * count + rest * unit) by (nonlinear_arith)
            requires
                exact == size * (m * unit),
                product == size * m,
                one == unit * power,
                rest == product - power * count,
        ;
        assert(0 <= rest * unit < one) by (nonlinear_arith)
            requires
                0 <= rest < power,
                one == unit * power,
                unit > 0,
        ;
        binary64::lemma_quotient_unique(exact as nat, one, count as nat, (rest * unit) as nat);
    }
    count
}

// ---------------------------------------------------------------------------------------------
// Tangents
// ---------------------------------------------------------------------------------------------

/// The slopes between adjacent points, one apart.
pub open spec fn secants(ys: Seq<Binary64>) -> Seq<Binary64> {
    Seq::new((ys.len() - 1) as nat, |i: int| binary64::difference_of(ys[i + 1], ys[i]))
}

/// The tangent that a point starts with: at the ends the slope next to it, elsewhere the mean of
/// the slopes on its two sides, or zero where the data turns or stands still.
pub open spec fn first_tangent(d: Seq<Binary64>, i: int) -> Binary64 {
    if i == 0 {
        d[0]
    } else if i == d.len() {
        d[d.len() - 1]
    } else if binary64::at_most(binary64::product_of(d[i - 1], d[i]), chart::zero()) {
        chart::zero()
    } else {
        binary64::quotient_of(binary64::sum_of(d[i - 1], d[i]), binary64::whole(false, 2))
    }
}

/// The tangents that the points start with.
pub open spec fn first_tangents(d: Seq<Binary64>) -> Seq<Binary64> {
    Seq::new(d.len() + 1, |i: int| first_tangent(d, i))
}

/// The tangents after those of one segment were held back: both zero where the segment is flat, and
/// scaled back onto a circle of radius three where they are too steep for it.
pub open spec fn held_back(d: Seq<Binary64>, m: Seq<Binary64>, i: int) -> Seq<Binary64> {
    if d[i].pattern() == 0 {
        m.update(i, chart::zero()).update(i + 1, chart::zero())
    } else {
        let alpha = binary64::quotient_of(m[i], d[i]);
        let beta = binary64::quotient_of(m[i + 1], d[i]);
        let s = binary64::sum_of(
            binary64::product_of(alpha, alpha),
            binary64::product_of(beta, beta),
        );
        if binary64::below(binary64::whole(false, 9), s) {
            let tau = binary64::quotient_of(binary64::whole(false, 3), binary64::root_of(s));
            m.update(
                i,
                binary64::product_of(binary64::product_of(tau, alpha), d[i]),
            ).update(i + 1, binary64::product_of(binary64::product_of(tau, beta), d[i]))
        } else {
            m
        }
    }
}

/// The tangents after those of the first `count` segments were held back, one after the other.
pub open spec fn held_back_upto(d: Seq<Binary64>, m: Seq<Binary64>, count: nat) -> Seq<Binary64>
    decreases count,
{
    if count == 0 {
        m
    } else {
        held_back(d, held_back_upto(d, m, (count - 1) as nat), count - 1)
    }
}

/// The tangents of monotone cubic interpolation.
pub open spec fn tangents_of(ys: Seq<Binary64>) -> Seq<Binary64> {
    if ys.len() == 0 {
        Seq::empty()
    } else if ys.len() == 1 {
        seq![chart::zero()]
    } else {
        let d = secants(ys);
        held_back_upto(d, first_tangents(d), d.len())
    }
}

/// There is a tangent for each point.
pub proof fn law_one_tangent_for_each_point(ys: Seq<Binary64>)
    ensures
        tangents_of(ys).len() == ys.len(),
{
    if ys.len() > 1 {
        let d = secants(ys);
        lemma_held_back_len(d, first_tangents(d), d.len());
    }
}

proof fn lemma_held_back_len(d: Seq<Binary64>, m: Seq<Binary64>, count: nat)
    requires
        m.len() == d.len() + 1,
        count <= d.len(),
    ensures
        held_back_upto(d, m, count).len() == m.len(),
    decreases count,
{
    if count > 0 {
        lemma_held_back_len(d, m, (count - 1) as nat);
    }
}

/// The slopes between adjacent points.
fn find_secants(ys: &Vec<Binary64>) -> (d: Vec<Binary64>)
    requires
        ys@.len() > 1,
    ensures
        d@ == secants(ys@),
{
    let mut d: Vec<Binary64> = Vec::new();
    let mut i: usize = 0;
    while i < ys.len() - 1
        invariant
            ys@.len() > 1,
            i < ys@.len(),
            d@.len() == i,
            forall|j: int| 0 <= j < i ==> d@[j] == secants(ys@)[j],
        decreases ys@.len() - i,
    {
        d.push(ys[i + 1].minus(ys[i]));
        i = i + 1;
    }
    assert(d@ =~= secants(ys@));
    d
}

/// The tangents that the points start with.
fn find_first_tangents(d: &Vec<Binary64>) -> (m: Vec<Binary64>)
    requires
        0 < d@.len() < usize::MAX,
    ensures
        m@ == first_tangents(d@),
{
    let n: usize = d.len();
    let mut m: Vec<Binary64> = Vec::new();
    m.push(d[0]);
    let mut i: usize = 1;
    while i < n
        invariant
            n == d@.len(),
            1 <= i <= n,
            m@.len() == i,
            forall|j: int| 0 <= j < i ==> m@[j] == first_tangent(d@, j),
        decreases n - i,
    {
        if d[i - 1].times(d[i]).is_at_most(Binary64 { bits: 0 }) {
            m.push(Binary64 { bits: 0 });
        } else {
            m.push(d[i - 1].plus(d[i]).over(Binary64::from_count(2)));
        }
        i = i + 1;
    }
    m.push(d[n - 1]);
    assert(m@ =~= first_tangents(d@));
    m
}

/// Hold back the tangents of one segment.
fn hold_back(d: &Vec<Binary64>, m: &mut Vec<Binary64>, i: usize)
    requires
        i < d@.len(),
        old(m)@.len() == d@.len() + 1,
    ensures
        final(m)@ == held_back(d@, old(m)@, i as int),
        final(m)@.len() == old(m)@.len(),
{
    let total: usize = m.len();
    assert(i + 1 < total);
    if d[i].unsigned() == 0 {
        m.set(i, Binary64 { bits: 0 });
        m.set(i + 1, Binary64 { bits: 0 });
    } else {
        let alpha: Binary64 = m[i].over(d[i]);
        let beta: Binary64 = m[i + 1].over(d[i]);
        let s: Binary64 = alpha.times(alpha).plus(beta.times(beta));
        if Binary64::from_count(9).is_below(s) {
            let tau: Binary64 = Binary64::from_count(3).over(s.sqrt());
            m.set(i, tau.times(alpha).times(d[i]));
            m.set(i + 1, tau.times(beta).times(d[i]));
        }
    }
}

/// Compute per-point tangents for monotone cubic interpolation using the Fritsch-Carlson method.
/// Assumes uniformly-spaced x values, so tangents are expressed in "y per segment" units.
pub fn monotone_tangents(ys: &Vec<Binary64>) -> (m: Vec<Binary64>)
    ensures
        m@ == tangents_of(ys@),
{
    if ys.len() == 0 {
        let none: Vec<Binary64> = Vec::new();
        assert(none@ =~= tangents_of(ys@));
        return none;
    }
    if ys.len() == 1 {
        let mut flat: Vec<Binary64> = Vec::new();
        flat.push(Binary64 { bits: 0 });
        assert(flat@ =~= tangents_of(ys@));
        return flat;
    }
    let d: Vec<Binary64> = find_secants(ys);
    let mut m: Vec<Binary64> = find_first_tangents(&d);
    let mut i: usize = 0;
    while i < d.len()
        invariant
            i <= d@.len(),
            m@ == held_back_upto(d@, first_tangents(d@), i as nat),
            m@.len() == d@.len() + 1,
        decreases d@.len() - i,
    {
        hold_back(&d, &mut m, i);
        i = i + 1;
    }
    m
}

// ---------------------------------------------------------------------------------------------
// The curve
// ---------------------------------------------------------------------------------------------

/// How much the first value weighs at a fraction of a segment: `2t³ - 3t² + 1`.
pub open spec fn first_value_weight(t: Binary64) -> Binary64 {
    let t2 = binary64::product_of(t, t);
    let t3 = binary64::product_of(t2, t);
    binary64::sum_of(
        binary64::difference_of(
            binary64::product_of(binary64::whole(false, 2), t3),
            binary64::product_of(binary64::whole(false, 3), t2),
        ),
        binary64::whole(false, 1),
    )
}

/// How much the first tangent weighs at a fraction of a segment: `t³ - 2t² + t`.
pub open spec fn first_tangent_weight(t: Binary64) -> Binary64 {
    let t2 = binary64::product_of(t, t);
    let t3 = binary64::product_of(t2, t);
    binary64::sum_of(
        binary64::difference_of(t3, binary64::product_of(binary64::whole(false, 2), t2)),
        t,
    )
}

/// How much the second value weighs at a fraction of a segment: `-2t³ + 3t²`.
pub open spec fn second_value_weight(t: Binary64) -> Binary64 {
    let t2 = binary64::product_of(t, t);
    let t3 = binary64::product_of(t2, t);
    binary64::sum_of(
        binary64::product_of(binary64::whole(true, 2), t3),
        binary64::product_of(binary64::whole(false, 3), t2),
    )
}

/// How much the second tangent weighs at a fraction of a segment: `t³ - t²`.
pub open spec fn second_tangent_weight(t: Binary64) -> Binary64 {
    let t2 = binary64::product_of(t, t);
    binary64::difference_of(binary64::product_of(t2, t), t2)
}

/// A cubic from `y0` to `y1` with the tangents `m0` and `m1`, at the fraction `t` of a segment of
/// unit width.
pub open spec fn hermite_at(y0: Binary64, y1: Binary64, m0: Binary64, m1: Binary64, t: Binary64) -> Binary64 {
    binary64::sum_of(
        binary64::sum_of(
            binary64::sum_of(
                binary64::product_of(first_value_weight(t), y0),
                binary64::product_of(first_tangent_weight(t), m0),
            ),
            binary64::product_of(second_value_weight(t), y1),
        ),
        binary64::product_of(second_tangent_weight(t), m1),
    )
}

/// Evaluate a Hermite cubic at parameter `t` in `[0, 1]` between `y0` and `y1` with tangents `m0`
/// and `m1`. Assumes a unit segment width, so the tangents should already be scaled accordingly.
pub fn hermite(y0: Binary64, y1: Binary64, m0: Binary64, m1: Binary64, t: Binary64) -> (y: Binary64)
    ensures
        y == hermite_at(y0, y1, m0, m1, t),
{
    let two: Binary64 = Binary64::from_count(2);
    let three: Binary64 = Binary64::from_count(3);
    let t2: Binary64 = t.times(t);
    let t3: Binary64 = t2.times(t);
    let h00: Binary64 = two.times(t3).minus(three.times(t2)).plus(Binary64::from_count(1));
    let h10: Binary64 = t3.minus(two.times(t2)).plus(t);
    let h01: Binary64 = Binary64::from_integer(-2).times(t3).plus(three.times(t2));
    let h11: Binary64 = t3.minus(t2);
    h00.times(y0).plus(h10.times(m0)).plus(h01.times(y1)).plus(h11.times(m1))
}

/// The fraction of a segment at which a sample lies.
pub open spec fn fraction(sample: nat) -> Binary64 {
    binary64::quotient_of(
        binary64::whole(false, sample),
        binary64::whole(false, INTERPOLATION_SUBDIVISIONS as nat),
    )
}

/// The averages of some points.
pub open spec fn averages<X>(points: Seq<ChartPoint<X>>) -> Seq<Binary64> {
    points.map_values(|point: ChartPoint<X>| point.avg)
}

/// A sample of the line through some points: at every twelfth place a point, and between them the
/// curve.
pub open spec fn line_sample<X: LinearInterpolate>(points: Seq<ChartPoint<X>>, k: int) -> (
    X,
    Binary64,
) {
    let i = k / INTERPOLATION_SUBDIVISIONS as int;
    let t = fraction((k % INTERPOLATION_SUBDIVISIONS as int) as nat);
    let m = tangents_of(averages(points));
    if i >= points.len() - 1 {
        (points.last().x, points.last().avg)
    } else {
        (
            points[i].x.between(points[i + 1].x, t),
            hermite_at(points[i].avg, points[i + 1].avg, m[i], m[i + 1], t),
        )
    }
}

/// How many samples the line through some points has.
pub open spec fn line_length(points: nat) -> nat {
    if points == 0 {
        0
    } else {
        ((points - 1) * INTERPOLATION_SUBDIVISIONS + 1) as nat
    }
}

/// The line through some points.
pub open spec fn line_through<X: LinearInterpolate>(points: Seq<ChartPoint<X>>) -> Seq<(X, Binary64)> {
    Seq::new(line_length(points.len()), |k: int| line_sample(points, k))
}

/// Whether all x values between adjacent points can be reached.
pub open spec fn is_connected<X: LinearInterpolate>(points: Seq<ChartPoint<X>>) -> bool {
    forall|i: int, s: nat|
        #![trigger points[i].x.reaches(points[i + 1].x, fraction(s))]
        0 <= i < points.len() - 1 && s < INTERPOLATION_SUBDIVISIONS ==> points[i].x.reaches(
            points[i + 1].x,
            fraction(s),
        )
}

/// Append the samples of one segment.
fn push_segment<X: LinearInterpolate>(
    out: &mut Vec<(X, Binary64)>,
    points: &Vec<ChartPoint<X>>,
    tangents: &Vec<Binary64>,
    i: usize,
)
    requires
        i + 1 < points@.len(),
        tangents@ == tangents_of(averages(points@)),
        tangents@.len() == points@.len(),
        is_connected(points@),
        old(out)@.len() == i * INTERPOLATION_SUBDIVISIONS,
        forall|k: int| 0 <= k < old(out)@.len() ==> #[trigger] old(out)@[k] == line_sample(points@, k),
    ensures
        final(out)@.len() == (i + 1) * INTERPOLATION_SUBDIVISIONS,
        forall|k: int|
            0 <= k < final(out)@.len() ==> #[trigger] final(out)@[k] == line_sample(points@, k),
{
    let total: usize = points.len();
    let start: ChartPoint<X> = points[i];
    let end: ChartPoint<X> = points[i + 1];
    let mut s: usize = 0;
    while s < INTERPOLATION_SUBDIVISIONS
        invariant
            s <= INTERPOLATION_SUBDIVISIONS,
            i + 1 < total == points@.len(),
            start == points@[i as int],
            end == points@[i + 1],
            tangents@ == tangents_of(averages(points@)),
            tangents@.len() == points@.len(),
            is_connected(points@),
            out@.len() == i * INTERPOLATION_SUBDIVISIONS + s,
            forall|k: int| 0 <= k < out@.len() ==> #[trigger] out@[k] == line_sample(points@, k),
        decreases INTERPOLATION_SUBDIVISIONS - s,
    {
        let t: Binary64 = Binary64::from_count(s as u64).over(
            Binary64::from_count(INTERPOLATION_SUBDIVISIONS as u64),
        );
        let y: Binary64 = hermite(start.avg, end.avg, tangents[i], tangents[i + 1], t);
        proof {
            assert(t == fraction(s as nat));
            assert(points@[i as int].x.reaches(points@[i + 1].x, fraction(s as nat)));
            let k = out@.len() as int;
            vstd::arithmetic::div_mod::lemma_fundamental_div_mod_converse(
                k,
                INTERPOLATION_SUBDIVISIONS as int,
                i as int,
                s as int,
            );
        }
        let x: X = start.x.linear_interpolate(&end.x, t);
        out.push((x, y));
        s = s + 1;
    }
    assert(i * INTERPOLATION_SUBDIVISIONS + INTERPOLATION_SUBDIVISIONS == (i + 1)
        * INTERPOLATION_SUBDIVISIONS) by (nonlinear_arith);
}

/// Produce a denser sequence of `(x, y)` pairs using monotone cubic (Fritsch-Carlson) interpolation
/// for the y values and linear interpolation for the x values.
pub fn interpolate_line<X: LinearInterpolate>(points: &Vec<ChartPoint<X>>) -> (line: Vec<(X, Binary64)>)
    requires
        is_connected(points@),
    ensures
        line@ == line_through(points@),
{
    let n: usize = points.len();
    let mut out: Vec<(X, Binary64)> = Vec::new();
    if n == 0 {
        assert(out@ =~= line_through(points@));
        return out;
    }
    let mut ys: Vec<Binary64> = Vec::new();
    let mut j: usize = 0;
    while j < n
        invariant
            n == points@.len(),
            j <= n,
            ys@.len() == j,
            forall|k: int| 0 <= k < j ==> ys@[k] == averages(points@)[k],
        decreases n - j,
    {
        let point: ChartPoint<X> = points[j];
        ys.push(point.avg);
        j = j + 1;
    }
    assert(ys@ =~= averages(points@));
    let tangents: Vec<Binary64> = monotone_tangents(&ys);
    proof {
        law_one_tangent_for_each_point(ys@);
    }
    let mut i: usize = 0;
    while i < n - 1
        invariant
            0 < n == points@.len(),
            i <= n - 1,
            tangents@ == tangents_of(averages(points@)),
            tangents@.len() == points@.len(),
            is_connected(points@),
            out@.len() == i * INTERPOLATION_SUBDIVISIONS,
            forall|k: int| 0 <= k < out@.len() ==> #[trigger] out@[k] == line_sample(points@, k),
        decreases n - i,
    {
        push_segment(&mut out, points, &tangents, i);
        i = i + 1;
    }
    let last: ChartPoint<X> = points[n - 1];
    out.push((last.x, last.avg));
    proof {
        let k = (n - 1) * INTERPOLATION_SUBDIVISIONS;
        vstd::arithmetic::div_mod::lemma_fundamental_div_mod_converse(
            k,
            INTERPOLATION_SUBDIVISIONS as int,
            n - 1,
            0,
        );
        assert(line_sample(points@, k) == (last.x, last.avg));
        assert(out@ =~= line_through(points@));
    }
    out
}

// ---------------------------------------------------------------------------------------------
// Laws
// ---------------------------------------------------------------------------------------------

/// The first sample of a segment lies at its start.
pub(crate) proof fn lemma_first_fraction()
    ensures
        fraction(0) == chart::zero(),
{
    rounding::lemma_quotient_of_wholes(0, INTERPOLATION_SUBDIVISIONS as nat);
    rounding::law_whole_numbers_are_held(false, 0);
    rounding::lemma_patterns_by_magnitude(binary64::whole(false, 0).pattern(), 0);
    assert(0 * binary64::one() == 0);
    let t = fraction(0);
    assert(t.pattern() == 0 && !t.negative());
}

/// A cubic starts at its first value, where all values are finite.
pub proof fn law_cubic_starts_at_its_first_value(
    y0: Binary64,
    y1: Binary64,
    m0: Binary64,
    m1: Binary64,
)
    requires
        y0.is_finite(),
        y1.is_finite(),
        m0.is_finite(),
        m1.is_finite(),
    ensures
        hermite_at(y0, y1, m0, m1, chart::zero()).is_finite(),
        hermite_at(y0, y1, m0, m1, chart::zero()).value() == y0.value(),
        y0.pattern() != 0 ==> hermite_at(y0, y1, m0, m1, chart::zero()) == y0,
{
    let t = chart::zero();
    let two = binary64::whole(false, 2);
    let three = binary64::whole(false, 3);
    let one = binary64::whole(false, 1);
    rounding::law_whole_numbers_are_held(false, 1);
    rounding::law_whole_numbers_are_held(false, 2);
    rounding::law_whole_numbers_are_held(true, 2);
    rounding::law_whole_numbers_are_held(false, 3);
    lemma_pow2_pos(1074);
    rounding::lemma_patterns_by_magnitude(one.pattern(), 0);
    let t2 = binary64::product_of(t, t);
    rounding::law_zero_times(t, t);
    let t3 = binary64::product_of(t2, t);
    rounding::law_zero_times(t2, t);
    rounding::lemma_times_zero(two, t3);
    rounding::lemma_times_zero(three, t2);
    rounding::lemma_times_zero(two, t2);
    rounding::lemma_times_zero(binary64::whole(true, 2), t3);
    let a = binary64::product_of(two, t3);
    let b = binary64::product_of(three, t2);
    let c = binary64::product_of(two, t2);
    let e = binary64::product_of(binary64::whole(true, 2), t3);
    rounding::lemma_negated(b);
    rounding::lemma_negated(c);
    rounding::lemma_negated(t2);
    rounding::law_plus_zero(a, binary64::negated(b));
    let h00 = binary64::sum_of(binary64::difference_of(a, b), one);
    rounding::law_plus_zero(one, binary64::difference_of(a, b));
    assert(h00 == one);
    rounding::law_plus_zero(t3, binary64::negated(c));
    rounding::law_plus_zero(binary64::difference_of(t3, c), t);
    let h10 = binary64::sum_of(binary64::difference_of(t3, c), t);
    rounding::law_plus_zero(e, b);
    let h01 = binary64::sum_of(e, b);
    rounding::law_plus_zero(t3, binary64::negated(t2));
    let h11 = binary64::difference_of(t3, t2);
    rounding::law_one_times(y0);
    rounding::law_zero_times(h10, m0);
    rounding::law_zero_times(h01, y1);
    rounding::law_zero_times(h11, m1);
    let first = binary64::sum_of(y0, binary64::product_of(h10, m0));
    rounding::law_plus_zero(y0, binary64::product_of(h10, m0));
    let second = binary64::sum_of(first, binary64::product_of(h01, y1));
    rounding::law_plus_zero(first, binary64::product_of(h01, y1));
    rounding::law_plus_zero(second, binary64::product_of(h11, m1));
}

/// The order of two factors does not matter.
proof fn lemma_times_swapped(a: Binary64, b: Binary64)
    ensures
        binary64::product_of(a, b) == binary64::product_of(b, a),
{
    assert(a.magnitude() * b.magnitude() == b.magnitude() * a.magnitude()) by (nonlinear_arith);
}

/// A cubic ends at its second value, where all values are finite.
pub proof fn law_cubic_ends_at_its_second_value(
    y0: Binary64,
    y1: Binary64,
    m0: Binary64,
    m1: Binary64,
)
    requires
        y0.is_finite(),
        y1.is_finite(),
        m0.is_finite(),
        m1.is_finite(),
    ensures
        hermite_at(y0, y1, m0, m1, binary64::whole(false, 1)).is_finite(),
        hermite_at(y0, y1, m0, m1, binary64::whole(false, 1)).value() == y1.value(),
        y1.pattern() != 0 ==> hermite_at(y0, y1, m0, m1, binary64::whole(false, 1)) == y1,
{
    let u = binary64::one();
    let one = binary64::whole(false, 1);
    let two = binary64::whole(false, 2);
    let three = binary64::whole(false, 3);
    let minus_two = binary64::whole(true, 2);
    rounding::law_whole_numbers_are_held(false, 1);
    rounding::law_whole_numbers_are_held(true, 1);
    rounding::law_whole_numbers_are_held(false, 2);
    rounding::law_whole_numbers_are_held(true, 2);
    rounding::law_whole_numbers_are_held(false, 3);
    lemma_pow2_pos(1074);
    // Every power of the fraction is one, and its multiples are whole.
    rounding::law_one_times(one);
    rounding::law_one_times(two);
    rounding::law_one_times(three);
    rounding::law_one_times(minus_two);
    lemma_times_swapped(one, two);
    lemma_times_swapped(one, three);
    lemma_times_swapped(one, minus_two);
    rounding::lemma_negated(one);
    rounding::lemma_negated(two);
    rounding::lemma_negated(three);
    assert(1 * u == u && 2 * u == u + u && 3 * u == u + u + u);
    // So are the weights.
    assert(binary64::difference_of(two, three) == binary64::whole(true, 1));
    assert(binary64::difference_of(one, two) == binary64::whole(true, 1));
    let h00 = first_value_weight(one);
    let h10 = first_tangent_weight(one);
    let h01 = second_value_weight(one);
    let h11 = second_tangent_weight(one);
    rounding::lemma_with_sign(false, 0);
    assert(h00.pattern() == 0);
    assert(h10.pattern() == 0);
    assert(h01 == one);
    assert(h11.pattern() == 0);
    rounding::law_zero_times(h00, y0);
    rounding::law_zero_times(h10, m0);
    rounding::law_one_times(y1);
    rounding::law_zero_times(h11, m1);
    let (p0, p1) = (binary64::product_of(h00, y0), binary64::product_of(h10, m0));
    let p3 = binary64::product_of(h11, m1);
    rounding::law_plus_zero(p0, p1);
    let first = binary64::sum_of(p0, p1);
    rounding::law_plus_zero(y1, first);
    let second = binary64::sum_of(first, y1);
    rounding::law_plus_zero(second, p3);
}

/// Whether a series of numbers and the tangents at them are finite.
pub open spec fn is_tame(ys: Seq<Binary64>) -> bool {
    &&& forall|i: int| 0 <= i < ys.len() ==> (#[trigger] ys[i]).is_finite()
    &&& forall|i: int| 0 <= i < ys.len() ==> (#[trigger] tangents_of(ys)[i]).is_finite()
}

/// The line passes through every point, where the averages and the tangents are finite: every
/// twelfth sample has the average of a point.
pub proof fn law_line_passes_through_every_point<X: LinearInterpolate>(
    points: Seq<ChartPoint<X>>,
    i: int,
)
    requires
        0 <= i < points.len(),
        is_tame(averages(points)),
    ensures
        i * INTERPOLATION_SUBDIVISIONS < line_through(points).len(),
        line_through(points)[i * INTERPOLATION_SUBDIVISIONS].1.value() == points[i].avg.value(),
        i < points.len() - 1 ==> line_through(points)[i * INTERPOLATION_SUBDIVISIONS].0
            == points[i].x.between(points[i + 1].x, chart::zero()),
        i == points.len() - 1 ==> line_through(points)[i * INTERPOLATION_SUBDIVISIONS].0
            == points[i].x,
{
    let k = i * INTERPOLATION_SUBDIVISIONS;
    vstd::arithmetic::div_mod::lemma_fundamental_div_mod_converse(
        k,
        INTERPOLATION_SUBDIVISIONS as int,
        i,
        0,
    );
    lemma_first_fraction();
    if i < points.len() - 1 {
        let ys = averages(points);
        let m = tangents_of(ys);
        assert(ys[i].is_finite() && ys[i + 1].is_finite());
        assert(m[i].is_finite() && m[i + 1].is_finite());
        law_cubic_starts_at_its_first_value(ys[i], ys[i + 1], m[i], m[i + 1]);
    }
}

/// None of the way from one instant to another is the first one.
pub proof fn law_ways_begin_at_their_first_instant(a: Instant, b: Instant)
    requires
        a.exists_in_calendar(),
    ensures
        a.between(b, chart::zero()) == a,
{
    let span = b.total_nanos() - a.total_nanos();
    let zero = chart::zero();
    binary64::lemma_parts(0);
    lemma_pow2_pos(1074);
    binary64::lemma_quotient_unique(0, binary64::one(), 0, 0);
    if is_short(span) {
        lemma_integers_are_finite(span);
        rounding::lemma_times_zero(from_int(span), zero);
        let shift = binary64::product_of(from_int(span), zero);
        binary64::lemma_parts(shift.pattern());
        assert(binary64::cut_to_integer(shift) == 0);
    } else {
        assert(accuracy::size(span) * 0 == 0);
    }
    calendar::law_instants_are_nanoseconds(0, a);
}

/// All of the way from one instant to another is the other one.
pub proof fn law_ways_end_at_their_last_instant(a: Instant, b: Instant)
    requires
        a.exists_in_calendar(),
        b.exists_in_calendar(),
    ensures
        a.between(b, binary64::whole(false, 1)) == b,
{
    let span = b.total_nanos() - a.total_nanos();
    let size = accuracy::size(span);
    let one = binary64::one();
    let t = binary64::whole(false, 1);
    lemma_pow2_pos(1074);
    rounding::law_whole_numbers_are_held(false, 1);
    assert(1 * one == one);
    assert(size * one == one * size) by (nonlinear_arith);
    binary64::lemma_quotient_unique((size * one) as nat, one, size as nat, 0);
    if is_short(span) {
        lemma_integers_are_finite(span);
        let number = from_int(span);
        rounding::law_whole_numbers_are_held(span < 0, size as nat);
        rounding::law_one_times(number);
        assert(binary64::product_of(number, t) == binary64::product_of(t, number)) by {
            assert(number.magnitude() * t.magnitude() == t.magnitude() * number.magnitude())
                by (nonlinear_arith);
        }
        assert(binary64::cut_to_integer(number) == span);
    }
    calendar::law_instants_are_nanoseconds(0, b);
}

/// Short spans are held.
proof fn lemma_integers_are_finite(integer: int)
    requires
        is_short(integer),
    ensures
        from_int(integer).is_finite(),
        from_int(integer).magnitude() == accuracy::size(integer) * binary64::one(),
        from_int(integer).negative() == (integer < 0),
{
    rounding::law_whole_numbers_are_held(integer < 0, accuracy::size(integer) as nat);
}

/// A sample lies within its segment.
proof fn lemma_fractions_stop_short(sample: nat)
    requires
        sample < INTERPOLATION_SUBDIVISIONS,
    ensures
        fraction(sample).is_finite(),
        0 <= fraction(sample).value() <= binary64::one(),
{
    let one = binary64::one();
    let parts = INTERPOLATION_SUBDIVISIONS as nat * one;
    rounding::lemma_quotient_of_wholes(sample, INTERPOLATION_SUBDIVISIONS as nat);
    lemma_pow2_pos(1074);
    rounding::law_whole_numbers_are_held(false, 1);
    let held = binary64::whole(false, 1).pattern();
    assert((sample * one) * one <= (1 * one) * parts) by (nonlinear_arith)
        requires
            parts == 12 * one,
            sample <= 11,
            one > 0,
    ;
    rounding::law_rounding_stops_at_held_numbers((sample * one) * one, parts, held);
    rounding::lemma_patterns_by_magnitude(fraction(sample).pattern(), held);
}

/// A fraction of a short span is not longer than the span.
proof fn lemma_shift_is_short(size: nat, t: Binary64)
    requires
        size < MANTISSA_END,
        t.is_finite(),
        t.magnitude() <= binary64::one(),
    ensures
        ({
            let pattern = binary64::nearest_pattern(
                (size * binary64::one()) * t.magnitude(),
                binary64::one(),
            );
            &&& pattern < INFINITE
            &&& binary64::magnitude_of(pattern) <= size * binary64::one()
        }),
{
    let one = binary64::one();
    let whole = size * one;
    lemma_pow2_pos(1074);
    rounding::law_short_quotients_are_kept(size, 1074, 1);
    assert((size * pow2(1074)) * 1 == whole);
    let held = binary64::nearest_pattern(whole, 1);
    assert(whole * t.magnitude() <= whole * one) by (nonlinear_arith)
        requires
            t.magnitude() <= one,
    ;
    rounding::law_rounding_stops_at_held_numbers(whole * t.magnitude(), one, held);
    let found = binary64::nearest_pattern(whole * t.magnitude(), one);
    rounding::lemma_patterns_by_magnitude(found, held);
}

/// Every fraction of the way between two instants of the calendar is an instant of the calendar.
pub proof fn law_calendar_has_no_gaps(a: Instant, b: Instant, t: Binary64)
    requires
        a.exists_in_calendar(),
        b.exists_in_calendar(),
        t.is_finite(),
        0 <= t.value() <= binary64::one(),
    ensures
        a.reaches(b, t),
        a.between(b, t).exists_in_calendar(),
{
    let one = binary64::one();
    let span = b.total_nanos() - a.total_nanos();
    let size = accuracy::size(span) as nat;
    lemma_pow2_pos(1074);
    assert(t.magnitude() == t.value());
    assert(one * size == size * one) by (nonlinear_arith);
    binary64::lemma_quotient_unique(size * one, one, size, 0);
    if is_short(span) {
        lemma_integers_are_finite(span);
        lemma_shift_is_short(size, t);
        let product = binary64::product_of(from_int(span), t);
        let pattern = binary64::nearest_pattern(from_int(span).magnitude() * t.magnitude(), one);
        rounding::lemma_with_sign((span < 0) != t.negative(), pattern);
        assert(product.pattern() == pattern);
        if t.negative() {
            assert(from_int(span).magnitude() * 0 == 0);
            binary64::lemma_nearest_zero(one);
            binary64::lemma_parts(0);
            binary64::lemma_quotient_unique(0, one, 0, 0);
        }
        vstd::arithmetic::div_mod::lemma_div_is_ordered(
            product.magnitude() as int,
            (size * one) as int,
            one as int,
        );
    } else {
        assert(size * 0 == 0);
        binary64::lemma_quotient_unique(0, one, 0, 0);
        assert(size * t.magnitude() <= size * one) by (nonlinear_arith)
            requires
                t.magnitude() <= one,
        ;
        vstd::arithmetic::div_mod::lemma_div_is_ordered(
            (size * t.magnitude()) as int,
            (size * one) as int,
            one as int,
        );
    }
    assert(accuracy::size(part_of(span, t)) <= size);
    assert(part_of(span, t) > 0 ==> span > 0);
    assert(part_of(span, t) < 0 ==> span < 0);
    calendar::law_instants_are_nanoseconds(nanos_between(a, b, t), a);
    calendar::law_instants_are_nanoseconds(0, b);
}

/// Points at instants of the calendar are connected.
pub proof fn law_dated_points_are_connected(points: Seq<ChartPoint<Instant>>)
    requires
        forall|i: int| 0 <= i < points.len() ==> (#[trigger] points[i]).x.exists_in_calendar(),
    ensures
        is_connected(points),
{
    assert forall|i: int, s: nat|
        #![trigger points[i].x.reaches(points[i + 1].x, fraction(s))]
        0 <= i < points.len() - 1 && s < INTERPOLATION_SUBDIVISIONS implies points[i].x.reaches(
        points[i + 1].x,
        fraction(s),
    ) by {
        assert(points[i].x.exists_in_calendar() && points[i + 1].x.exists_in_calendar());
        lemma_fractions_stop_short(s);
        law_calendar_has_no_gaps(points[i].x, points[i + 1].x, fraction(s));
    }
}

/// The line through points in time has twelve samples from each point to the next, and one at the
/// last point. Every twelfth is a point: it lies where the point lies, at its average.
pub proof fn law_every_twelfth_sample_is_a_point(points: Seq<ChartPoint<Instant>>, i: int)
    requires
        0 <= i < points.len(),
        forall|j: int| 0 <= j < points.len() ==> (#[trigger] points[j]).x.exists_in_calendar(),
        is_tame(averages(points)),
    ensures
        line_through(points).len() == 12 * (points.len() - 1) + 1,
        line_through(points)[12 * i].0 == points[i].x,
        line_through(points)[12 * i].1.value() == points[i].avg.value(),
{
    law_line_passes_through_every_point(points, i);
    assert(points[i].x.exists_in_calendar());
    if i < points.len() - 1 {
        law_ways_begin_at_their_first_instant(points[i].x, points[i + 1].x);
    }
}

/// At a fraction of the way between two instants lies the instant that is this share of the time
/// between them later, but for three nanoseconds.
pub proof fn law_instants_lie_at_their_share_of_the_way(a: Instant, b: Instant, t: Binary64)
    requires
        a.exists_in_calendar(),
        b.exists_in_calendar(),
        t.is_finite(),
        0 <= t.value() <= binary64::one(),
    ensures
        accuracy::size(
            (a.between(b, t).total_nanos() - a.total_nanos()) * binary64::one() - (b.total_nanos()
                - a.total_nanos()) * t.value(),
        ) <= 3 * binary64::one(),
{
    law_calendar_has_no_gaps(a, b, t);
    calendar::law_instants_are_nanoseconds(nanos_between(a, b, t), a);
    let span = b.total_nanos() - a.total_nanos();
    let u = binary64::one() as int;
    accuracy::lemma_one_is_large();
    let (size, v) = (accuracy::size(span), t.value());
    assert(t.magnitude() == v);
    let sv = size * v;
    assert(sv >= 0) by (nonlinear_arith)
        requires
            sv == size * v,
            size >= 0,
            v >= 0,
    ;
    assert(span * v == (if span < 0 {
        -sv
    } else {
        sv
    })) by (nonlinear_arith)
        requires
            sv == size * v,
            size == (if span < 0 {
                -span
            } else {
                span
            }),
    ;
    if is_short(span) {
        lemma_short_share(span, t);
    } else {
        let count = sv / u;
        vstd::arithmetic::div_mod::lemma_fundamental_div_mod(sv, u);
        assert(u * count == count * u && (-count) * u == -(count * u)) by (nonlinear_arith);
        if t.negative() {
            assert(sv == 0) by (nonlinear_arith)
                requires
                    sv == size * v,
                    v == 0,
            ;
            assert(count == 0);
        }
    }
}

/// The part of a short span that a fraction of it is.
proof fn lemma_short_share(span: int, t: Binary64)
    requires
        is_short(span),
        t.is_finite(),
        0 <= t.value() <= binary64::one(),
    ensures
        accuracy::size(part_of(span, t) * binary64::one() - span * t.value()) <= 3
            * binary64::one(),
{
    let u = binary64::one() as int;
    accuracy::lemma_one_is_large();
    let (size, v) = (accuracy::size(span), t.value());
    lemma_integers_are_finite(span);
    let number = from_int(span);
    rounding::law_whole_numbers_are_held(span < 0, size as nat);
    assert(number.value() == span * u) by (nonlinear_arith)
        requires
            number.value() == (if span < 0 {
                -(size * u)
            } else {
                size * u
            }),
            size == (if span < 0 {
                -span
            } else {
                span
            }),
    ;
    accuracy::law_product_error(number, t);
    let product = binary64::product_of(number, t);
    let exact = number.value() * v;
    let sv = span * v;
    assert(exact == sv * u) by (nonlinear_arith)
        requires
            exact == number.value() * v,
            number.value() == span * u,
            sv == span * v,
    ;
    assert(accuracy::size(sv) <= MANTISSA_END * u) by (nonlinear_arith)
        requires
            sv == span * v,
            0 <= v <= u,
            -MANTISSA_END <= span <= MANTISSA_END,
            accuracy::size(sv) == (if sv < 0 {
                -sv
            } else {
                sv
            }),
    ;
    assert(MANTISSA_END * u <= accuracy::limit());
    assert(accuracy::size(exact) == accuracy::size(sv) * u) by (nonlinear_arith)
        requires
            exact == sv * u,
            u > 0,
            accuracy::size(exact) == (if exact < 0 {
                -exact
            } else {
                exact
            }),
            accuracy::size(sv) == (if sv < 0 {
                -sv
            } else {
                sv
            }),
    ;
    assert(accuracy::size(exact) <= accuracy::limit() * u) by (nonlinear_arith)
        requires
            accuracy::size(exact) == accuracy::size(sv) * u,
            accuracy::size(sv) <= accuracy::limit(),
            u > 0,
    ;
    let e = product.value() - sv;
    assert(product.value() * u - exact == e * u) by (nonlinear_arith)
        requires
            e == product.value() - sv,
            exact == sv * u,
    ;
    assert(accuracy::size(e * u) == accuracy::size(e) * u) by (nonlinear_arith)
        requires
            u > 0,
            accuracy::size(e) == (if e < 0 {
                -e
            } else {
                e
            }),
            accuracy::size(e * u) == (if e * u < 0 {
                -(e * u)
            } else {
                e * u
            }),
    ;
    assert(MANTISSA_END * accuracy::size(e) <= accuracy::size(sv) + IMPLICIT) by (nonlinear_arith)
        requires
            MANTISSA_END * (accuracy::size(e) * u) <= accuracy::size(sv) * u + IMPLICIT * u,
            u > 0,
    ;
    assert(accuracy::size(e) <= u + 1);
    // What is cut off is less than a nanosecond.
    let (p, whole) = (product.magnitude() as int, product.magnitude() as int / u);
    vstd::arithmetic::div_mod::lemma_fundamental_div_mod(p, u);
    assert(u * whole == whole * u && (-whole) * u == -(whole * u)) by (nonlinear_arith);
    assert(p <= MANTISSA_END * u + u + 1);
    assert(whole <= i64::MAX) by (nonlinear_arith)
        requires
            whole * u <= p,
            p <= 0x20_0000_0000_0000 * u + u + 1,
            u > 1,
    ;
}

} // verus!
