//! Temperature alerts: the swim-window average of a day and the state machine that decides when
//! to notify and when to watch again.

use crate::accuracy;
use crate::api::HourlyTemperature;
use crate::binary64;
use crate::binary64::{Binary64, MANTISSA_END};
use crate::calendar::Date;
use crate::rounding;
use crate::sequences;
use crate::statistics;
use crate::store::AlertStatus;
use vstd::arithmetic::power2::*;
use vstd::prelude::*;

verus! {

/// The first local hour of the swimming window.
pub const SWIM_WINDOW_START: u8 = 12;

/// The first local hour after the swimming window.
pub const SWIM_WINDOW_END: u8 = 18;

/// Fewest hourly buckets within the window for the day's average to be trustworthy.
pub const MIN_BUCKETS: usize = 4;

/// Consecutive warm days required before notifying the user.
pub const NOTIFY_DAYS: u32 = 2;

/// Consecutive clearly-below days required to reset a notified alert.
pub const RESET_DAYS: u32 = 3;

/// How far below the threshold (°C) a day must be to count toward resetting.
pub open spec fn reset_margin() -> Binary64 {
    binary64::quotient_of(binary64::whole(false, 3), binary64::whole(false, 2))
}

/// Whether an hourly bucket belongs to the swimming window of a day.
pub open spec fn in_swim_window(bucket: HourlyTemperature, date: Date) -> bool {
    bucket.aggregation_date == date && SWIM_WINDOW_START <= bucket.aggregation_hour
        < SWIM_WINDOW_END
}

/// The averages of the buckets in the swimming window of a day, in order.
pub open spec fn window_averages(hourly: Seq<HourlyTemperature>, date: Date) -> Seq<Binary64> {
    hourly.filter(|bucket: HourlyTemperature| in_swim_window(bucket, date)).map_values(
        |bucket: HourlyTemperature| bucket.average_temperature,
    )
}

/// The mean over the swimming window of a day, where enough buckets fall into it.
pub open spec fn swim_average(hourly: Seq<HourlyTemperature>, date: Date) -> Option<Binary64> {
    let averages = window_averages(hourly, date);
    if averages.len() >= MIN_BUCKETS {
        Some(statistics::mean(averages))
    } else {
        None
    }
}

/// The afternoon (swim-window) average for `date`, or `None` when too little data is available.
pub fn swim_window_average(hourly: &[HourlyTemperature], date: Date) -> (average: Option<Binary64>)
    ensures
        average == swim_average(hourly@, date),
{
    let mut sum: Binary64 = Binary64 { bits: 0 };
    let mut count: usize = 0;
    let mut i: usize = 0;
    let ghost wanted = |bucket: HourlyTemperature| in_swim_window(bucket, date);
    proof {
        sequences::lemma_filter_ends(hourly@, wanted);
        assert(window_averages(hourly@.take(0), date) =~= Seq::<Binary64>::empty());
    }
    while i < hourly.len()
        invariant
            i <= hourly@.len(),
            count <= i,
            wanted == (|bucket: HourlyTemperature| in_swim_window(bucket, date)),
            count == window_averages(hourly@.take(i as int), date).len(),
            sum == statistics::running_sum(window_averages(hourly@.take(i as int), date)),
        decreases hourly@.len() - i,
    {
        let ghost before = hourly@.take(i as int);
        let ghost upto = hourly@.take(i + 1);
        let bucket: HourlyTemperature = hourly[i];
        proof {
            sequences::lemma_filter_next(hourly@, wanted, i as int);
        }
        if bucket.aggregation_date == date && SWIM_WINDOW_START <= bucket.aggregation_hour
            && bucket.aggregation_hour < SWIM_WINDOW_END {
            proof {
                let averages = window_averages(before, date);
                assert(window_averages(upto, date) =~= averages.push(bucket.average_temperature));
                assert(window_averages(upto, date).drop_last() =~= averages);
            }
            sum = sum.plus(bucket.average_temperature);
            count = count + 1;
        }
        i = i + 1;
    }
    if count >= MIN_BUCKETS {
        Some(sum.over(Binary64::from_count(count as u64)))
    } else {
        None
    }
}

/// A bucket of another day, or of an hour before noon or from six o'clock on, makes no difference.
pub proof fn law_only_the_afternoon_counts(hourly: Seq<HourlyTemperature>, date: Date, i: int)
    requires
        0 <= i < hourly.len(),
        hourly[i].aggregation_date != date || hourly[i].aggregation_hour < 12
            || hourly[i].aggregation_hour >= 18,
    ensures
        swim_average(hourly.remove(i), date) == swim_average(hourly, date),
{
    sequences::lemma_filter_without(
        hourly,
        |bucket: HourlyTemperature| in_swim_window(bucket, date),
        i,
    );
}

/// The buckets of a day from noon up to six o'clock.
pub open spec fn afternoon_buckets(hourly: Seq<HourlyTemperature>, date: Date) -> Seq<
    HourlyTemperature,
> {
    hourly.filter(
        |bucket: HourlyTemperature|
            bucket.aggregation_date.days == date.days && (bucket.aggregation_hour == 12
                || bucket.aggregation_hour == 13 || bucket.aggregation_hour == 14
                || bucket.aggregation_hour == 15 || bucket.aggregation_hour == 16
                || bucket.aggregation_hour == 17),
    )
}

proof fn lemma_afternoon(hourly: Seq<HourlyTemperature>, date: Date)
    ensures
        window_averages(hourly, date).len() == afternoon_buckets(hourly, date).len(),
        forall|i: int|
            0 <= i < afternoon_buckets(hourly, date).len() ==> #[trigger] window_averages(
                hourly,
                date,
            )[i] == afternoon_buckets(hourly, date)[i].average_temperature,
{
    sequences::lemma_filter_alike(
        hourly,
        |bucket: HourlyTemperature| in_swim_window(bucket, date),
        |bucket: HourlyTemperature|
            bucket.aggregation_date.days == date.days && (bucket.aggregation_hour == 12
                || bucket.aggregation_hour == 13 || bucket.aggregation_hour == 14
                || bucket.aggregation_hour == 15 || bucket.aggregation_hour == 16
                || bucket.aggregation_hour == 17),
    );
}

/// There is an average exactly where at least four buckets of the day lie in the six hours from noon
/// on.
pub proof fn law_four_afternoon_hours_are_enough(hourly: Seq<HourlyTemperature>, date: Date)
    ensures
        swim_average(hourly, date) is Some <==> afternoon_buckets(hourly, date).len() >= 4,
{
    lemma_afternoon(hourly, date);
}

/// What the averages of some buckets add up to without rounding.
pub open spec fn bucket_sum(buckets: Seq<HourlyTemperature>) -> int
    decreases buckets.len(),
{
    if buckets.len() == 0 {
        0
    } else {
        buckets[0].average_temperature.value() + bucket_sum(buckets.drop_first())
    }
}

proof fn lemma_bucket_sum(buckets: Seq<HourlyTemperature>, averages: Seq<Binary64>)
    requires
        averages.len() == buckets.len(),
        forall|i: int|
            0 <= i < buckets.len() ==> #[trigger] averages[i] == buckets[i].average_temperature,
    ensures
        statistics::exact_sum(averages) == bucket_sum(buckets),
    decreases buckets.len(),
{
    if buckets.len() > 0 {
        let (rest, others) = (buckets.drop_first(), averages.drop_first());
        assert forall|i: int| 0 <= i < rest.len() implies #[trigger] others[i]
            == rest[i].average_temperature by {
            assert(others[i] == averages[i + 1]);
        }
        lemma_bucket_sum(rest, others);
        statistics::lemma_exact_sum_from_the_front(averages);
        assert(averages[0] == buckets[0].average_temperature);
    }
}

/// The average of an afternoon is what the averages of its buckets add up to divided by how many
/// there are, but for a part in 2 to the power of 31 of the largest of them.
pub proof fn law_afternoon_average_is_the_mean(
    hourly: Seq<HourlyTemperature>,
    date: Date,
    bound: int,
)
    requires
        ({
            let buckets = afternoon_buckets(hourly, date);
            &&& 4 <= buckets.len() <= 0x10_0000
            &&& forall|i: int|
                0 <= i < buckets.len() ==> (
                #[trigger] buckets[i]).average_temperature.is_finite() && accuracy::size(
                    buckets[i].average_temperature.value(),
                ) <= bound
        }),
        MANTISSA_END <= bound,
        0x20_0000 * bound <= accuracy::limit(),
    ensures
        ({
            let buckets = afternoon_buckets(hourly, date);
            let average = swim_average(hourly, date);
            &&& average is Some
            &&& average->0.is_finite()
            &&& 0x8000_0000 * accuracy::size(
                average->0.value() * buckets.len() - bucket_sum(buckets),
            ) <= buckets.len() * bound
        }),
{
    let buckets = afternoon_buckets(hourly, date);
    let averages = window_averages(hourly, date);
    lemma_afternoon(hourly, date);
    assert forall|i: int| 0 <= i < averages.len() implies (#[trigger] averages[i]).is_finite()
        && accuracy::size(averages[i].value()) <= bound by {
        assert(averages[i] == buckets[i].average_temperature);
    }
    lemma_bucket_sum(buckets, averages);
    statistics::law_mean_is_nearly_exact(averages, bound);
}

/// Where the water has one temperature all afternoon, that temperature is the average of the day, but
/// for a part in 2 to the power of 31, whatever it is at other hours.
pub proof fn law_steady_afternoons_are_averaged_to_their_temperature(
    hourly: Seq<HourlyTemperature>,
    date: Date,
    temperature: Binary64,
)
    requires
        ({
            let buckets = afternoon_buckets(hourly, date);
            &&& 4 <= buckets.len() <= 0x10_0000
            &&& forall|i: int|
                0 <= i < buckets.len() ==> (#[trigger] buckets[i]).average_temperature
                    == temperature
        }),
        temperature.is_finite(),
        0x40_0000 * accuracy::size(temperature.value()) <= accuracy::limit(),
    ensures
        ({
            let average = swim_average(hourly, date);
            &&& average is Some
            &&& average->0.is_finite()
            &&& 0x8000_0000 * accuracy::size(average->0.value() - temperature.value())
                <= accuracy::size(temperature.value()) + MANTISSA_END
        }),
{
    let buckets = afternoon_buckets(hourly, date);
    let averages = window_averages(hourly, date);
    lemma_afternoon(hourly, date);
    assert forall|i: int| 0 <= i < averages.len() implies #[trigger] averages[i] == temperature by {
        assert(averages[i] == buckets[i].average_temperature);
    }
    statistics::law_mean_of_equal_numbers(averages, temperature);
}

/// The mutable part of an alert's state machine.
#[derive(Clone, Copy, Debug, PartialEq, Eq, Structural)]
pub struct AlertState {
    /// Whether the alert is waiting to notify or has already notified.
    pub status: AlertStatus,
    /// Consecutive days the afternoon average was at or above the threshold.
    pub warm_streak: u32,
    /// Consecutive days the afternoon average was clearly below the threshold.
    pub cold_streak: u32,
}

/// The state of a new alert: watching, with no streaks.
pub open spec fn initial_state() -> AlertState {
    AlertState { status: AlertStatus::Watching, warm_streak: 0, cold_streak: 0 }
}

impl Default for AlertState {
    fn default() -> (state: Self)
        ensures
            state == initial_state(),
    {
        AlertState { status: AlertStatus::Watching, warm_streak: 0, cold_streak: 0 }
    }
}

/// What a single day's evaluation means for the user.
#[derive(Clone, Copy, Debug, PartialEq, Eq, Structural)]
pub enum Outcome {
    /// Nothing to do: streak building, dead-band, or skipped (no data).
    Quiet,
    /// Notify the user, the alert fired (`Watching` to `Notified`).
    Notify,
    /// The alert reset silently (`Notified` to `Watching`), no message.
    Reset,
}

/// The result of evaluating one day: the new state plus what it means for the user.
#[derive(Clone, Copy, Debug, PartialEq, Eq, Structural)]
pub struct Transition {
    /// State to persist after this day.
    pub state: AlertState,
    /// User-facing consequence.
    pub outcome: Outcome,
}

/// How a single day's swim-window average classifies relative to the threshold.
#[derive(Clone, Copy, Debug, PartialEq, Eq, Structural)]
pub enum DayClass {
    /// No swim-window average available (missing / insufficient data).
    NoData,
    /// At or above the threshold: counts toward notifying.
    Warm,
    /// Between the threshold and the reset margin: neither warm nor a recovery day.
    DeadBand,
    /// At or below the threshold less the reset margin: counts toward resetting.
    Cold,
}

/// A number rounded to one decimal place: ten times the number, rounded with halves away from zero,
/// divided by ten.
pub open spec fn to_tenths(value: Binary64) -> Binary64 {
    binary64::quotient_of(
        binary64::half_away(binary64::product_of(value, binary64::whole(false, 10))),
        binary64::whole(false, 10),
    )
}

/// Round to one decimal place, matching the 0.1 °C precision the bot shows users.
pub fn round1(value: Binary64) -> (rounded: Binary64)
    ensures
        rounded == to_tenths(value),
{
    let ten: Binary64 = Binary64::from_count(10);
    value.times(ten).round().over(ten)
}

/// The class of a day, from its average as the bot shows it.
pub open spec fn classified(swim_avg: Option<Binary64>, threshold: Binary64) -> DayClass {
    match swim_avg {
        None => DayClass::NoData,
        Some(average) => {
            let shown = to_tenths(average);
            if binary64::at_most(threshold, shown) {
                DayClass::Warm
            } else if binary64::at_most(shown, binary64::difference_of(threshold, reset_margin())) {
                DayClass::Cold
            } else {
                DayClass::DeadBand
            }
        },
    }
}

/// Classify a day's swim-window average relative to the threshold (at display precision).
pub fn classify(swim_avg: Option<Binary64>, threshold: Binary64) -> (class: DayClass)
    ensures
        class == classified(swim_avg, threshold),
{
    match swim_avg {
        None => DayClass::NoData,
        Some(average) => {
            let shown: Binary64 = round1(average);
            let margin: Binary64 = Binary64::from_count(3).over(Binary64::from_count(2));
            if threshold.is_at_most(shown) {
                DayClass::Warm
            } else if shown.is_at_most(threshold.minus(margin)) {
                DayClass::Cold
            } else {
                DayClass::DeadBand
            }
        },
    }
}

/// What a day of some class does to an alert.
///
/// A day without data changes nothing. A warm day extends the warm streak and ends the cold one, a
/// cold day the other way round, and a day between them ends the warm streak alone. A watching
/// alert fires when its warm streak is long enough, and a notified one resets when its cold streak
/// is; the streak that did it starts over.
pub open spec fn advanced(state: AlertState, class: DayClass) -> Transition {
    match class {
        DayClass::NoData => Transition { state, outcome: Outcome::Quiet },
        DayClass::Warm => {
            let streak = (state.warm_streak + 1) as u32;
            if state.status == AlertStatus::Watching && streak >= NOTIFY_DAYS {
                Transition {
                    state: AlertState {
                        status: AlertStatus::Notified,
                        warm_streak: 0,
                        cold_streak: 0,
                    },
                    outcome: Outcome::Notify,
                }
            } else {
                Transition {
                    state: AlertState {
                        status: state.status,
                        warm_streak: streak,
                        cold_streak: 0,
                    },
                    outcome: Outcome::Quiet,
                }
            }
        },
        DayClass::Cold => {
            let streak = (state.cold_streak + 1) as u32;
            if state.status == AlertStatus::Notified && streak >= RESET_DAYS {
                Transition { state: initial_state(), outcome: Outcome::Reset }
            } else {
                Transition {
                    state: AlertState {
                        status: state.status,
                        warm_streak: 0,
                        cold_streak: streak,
                    },
                    outcome: Outcome::Quiet,
                }
            }
        },
        DayClass::DeadBand => Transition {
            state: AlertState {
                status: state.status,
                warm_streak: 0,
                cold_streak: state.cold_streak,
            },
            outcome: Outcome::Quiet,
        },
    }
}

/// Whether a day of some class leaves the streaks of an alert within their type.
pub open spec fn can_advance(state: AlertState, class: DayClass) -> bool {
    match class {
        DayClass::Warm => state.warm_streak < u32::MAX,
        DayClass::Cold => state.cold_streak < u32::MAX,
        _ => true,
    }
}

/// Advance the alert state machine by one day.
///
/// `swim_avg` is the day's [`swim_window_average`] (`None` freezes the streaks).
pub fn evaluate(state: AlertState, swim_avg: Option<Binary64>, threshold: Binary64) -> (transition:
    Transition)
    requires
        can_advance(state, classified(swim_avg, threshold)),
    ensures
        transition == advanced(state, classified(swim_avg, threshold)),
{
    let mut state: AlertState = state;
    let outcome: Outcome = match classify(swim_avg, threshold) {
        DayClass::NoData => Outcome::Quiet,
        DayClass::Warm => {
            state.warm_streak = state.warm_streak + 1;
            state.cold_streak = 0;
            if state.status == AlertStatus::Watching && state.warm_streak >= NOTIFY_DAYS {
                state.status = AlertStatus::Notified;
                state.warm_streak = 0;
                Outcome::Notify
            } else {
                Outcome::Quiet
            }
        },
        DayClass::Cold => {
            state.cold_streak = state.cold_streak + 1;
            state.warm_streak = 0;
            if state.status == AlertStatus::Notified && state.cold_streak >= RESET_DAYS {
                state.status = AlertStatus::Watching;
                state.cold_streak = 0;
                Outcome::Reset
            } else {
                Outcome::Quiet
            }
        },
        DayClass::DeadBand => {
            state.warm_streak = 0;
            Outcome::Quiet
        },
    };
    Transition { state, outcome }
}

/// The reset margin is one and a half degrees.
pub proof fn law_reset_margin_is_one_and_a_half()
    ensures
        reset_margin().is_finite(),
        2 * reset_margin().value() == 3 * binary64::one(),
{
    let one = binary64::one();
    rounding::law_whole_numbers_are_held(false, 3);
    rounding::law_whole_numbers_are_held(false, 2);
    lemma_pow2_pos(1073);
    lemma_pow2_unfold(1074);
    assert((3 * one) * one == (3 * pow2(1073)) * (2 * one)) by (nonlinear_arith)
        requires
            one == 2 * pow2(1073),
    ;
    rounding::law_short_quotients_are_kept(3, 1073, 2 * one);
}

/// Of two averages the larger one is not shown as the smaller number.
pub proof fn law_shown_averages_keep_order(low: Binary64, high: Binary64)
    requires
        binary64::at_most(low, high),
    ensures
        binary64::at_most(to_tenths(low), to_tenths(high)),
{
    let ten = binary64::whole(false, 10);
    rounding::law_multiples_keep_order(low, high, 10);
    let (a, b) = (binary64::product_of(low, ten), binary64::product_of(high, ten));
    rounding::law_nearest_whole_keeps_order(a, b);
    rounding::law_parts_keep_order(binary64::half_away(a), binary64::half_away(b), 10);
}

/// A day whose average is at or above the threshold is warm, for thresholds that are shown as they
/// are.
pub proof fn law_warm_at_or_above_the_threshold(average: Binary64, threshold: Binary64)
    requires
        binary64::at_most(threshold, average),
        to_tenths(threshold) == threshold,
    ensures
        classified(Some(average), threshold) == DayClass::Warm,
{
    law_shown_averages_keep_order(threshold, average);
}

/// A difference of one and a half degrees is not rounded, for thresholds from two degrees up to a
/// million.
proof fn lemma_margin_is_exact(threshold: Binary64)
    requires
        threshold.is_finite(),
        2 * binary64::one() <= threshold.value() <= 1_000_000 * binary64::one(),
    ensures
        ({
            let less = binary64::difference_of(threshold, reset_margin());
            &&& less.is_finite()
            &&& 2 * less.value() == 2 * threshold.value() - 3 * binary64::one()
        }),
{
    let u = binary64::one();
    law_reset_margin_is_one_and_a_half();
    rounding::lemma_negated(reset_margin());
    let pattern = threshold.pattern();
    binary64::lemma_parts(pattern);
    let (mantissa, scale) = (binary64::mantissa_of(pattern), binary64::scale_of(pattern));
    lemma_pow2_pos(scale);
    binary64::lemma_edges();
    // The last place of the threshold is a part of half a degree.
    assert(scale < 1073) by {
        if scale >= 1073 {
            lemma_scale_is_large(mantissa, scale, threshold.value());
        }
    }
    let gap = (1073 - scale) as nat;
    lemma_pow2_adds(gap, scale);
    lemma_pow2_unfold(1074);
    let (unit, parts) = (pow2(scale) as int, pow2(gap) as int);
    let exact = threshold.value() - reset_margin().value();
    let count = mantissa - 3 * parts;
    assert(exact == count * unit) by (nonlinear_arith)
        requires
            threshold.value() == mantissa * unit,
            2 * reset_margin().value() == 3 * u,
            u == 2 * (parts * unit),
            exact == threshold.value() - reset_margin().value(),
            count == mantissa - 3 * parts,
    ;
    assert(count > 0) by (nonlinear_arith)
        requires
            exact == count * unit,
            exact > 0,
            unit > 0,
    ;
    lemma_pow2_pos(gap);
    rounding::law_short_quotients_are_kept(count as nat, scale, 1);
    let found = binary64::nearest_pattern((count as nat * pow2(scale)) * 1, 1);
    rounding::lemma_with_sign(false, found);
    assert((count as nat * pow2(scale)) * 1 == exact);
}

proof fn lemma_scale_is_large(mantissa: nat, scale: nat, value: int)
    requires
        scale >= 1073,
        mantissa >= binary64::IMPLICIT,
        value == mantissa * pow2(scale),
    ensures
        value > 1_000_000 * binary64::one(),
{
    lemma_pow2_unfold(1074);
    lemma_pow2_pos(1073);
    if scale > 1073 {
        lemma_pow2_strictly_increases(1073, scale);
    }
    assert(mantissa * pow2(scale) >= binary64::IMPLICIT * pow2(1073)) by (nonlinear_arith)
        requires
            mantissa >= binary64::IMPLICIT,
            pow2(scale) >= pow2(1073),
    ;
}

/// A day is warm if its average, as it is shown, is at or above the threshold, cold if it is one and a
/// half degrees or more below it, and else between the two.
pub proof fn law_days_are_classed_by_the_shown_average(average: Binary64, threshold: Binary64)
    requires
        threshold.is_finite(),
        2 * binary64::one() <= threshold.value() <= 1_000_000 * binary64::one(),
        !to_tenths(average).is_nan(),
    ensures
        ({
            let (shown, degree) = (to_tenths(average).value(), binary64::one() as int);
            let class = classified(Some(average), threshold);
            &&& class is Warm <==> shown >= threshold.value()
            &&& class is Cold <==> 2 * shown <= 2 * threshold.value() - 3 * degree
            &&& class is DeadBand <==> threshold.value() > shown && 2 * shown > 2
                * threshold.value() - 3 * degree
        }),
        classified(None, threshold) is NoData,
{
    lemma_margin_is_exact(threshold);
    lemma_pow2_pos(1074);
}

/// The number nearest to so many tenths, above zero or below it.
pub open spec fn tenths(negative: bool, count: nat) -> Binary64 {
    binary64::rounded(negative, count * binary64::one(), 10)
}

/// Ten times a number of up to a hundred thousand is hardly rounded.
proof fn lemma_tenfold(number: Binary64)
    requires
        number.is_finite(),
        10 * number.magnitude() <= 1_000_001 * binary64::one(),
    ensures
        ({
            let product = binary64::product_of(number, binary64::whole(false, 10));
            &&& product.is_finite()
            &&& product.negative() == number.negative()
            &&& 10_000_000 * accuracy::size(product.magnitude() - 10 * number.magnitude())
                <= binary64::one()
        }),
{
    let u = binary64::one() as int;
    accuracy::lemma_one_is_large();
    rounding::law_whole_numbers_are_held(false, 10);
    let ten = binary64::whole(false, 10);
    let v = number.magnitude() as int;
    let vu = v * (10 * u);
    assert(vu <= accuracy::limit() * u) by (nonlinear_arith)
        requires
            vu == v * (10 * u),
            10 * v <= accuracy::limit(),
            u > 0,
    ;
    assert(vu == (10 * v) * u && vu >= 0) by (nonlinear_arith)
        requires
            vu == v * (10 * u),
            v >= 0,
            u > 0,
    ;
    accuracy::law_rounding_error(vu as nat, binary64::one());
    let pattern = binary64::nearest_pattern(vu as nat, binary64::one());
    rounding::lemma_with_sign(number.negative(), pattern);
    let product = binary64::product_of(number, ten);
    let p = product.magnitude() as int;
    let e = p - 10 * v;
    assert(p * u - vu == e * u) by (nonlinear_arith)
        requires
            e == p - 10 * v,
            vu == (10 * v) * u,
    ;
    assert(accuracy::size(e * u) == accuracy::size(e) * u) by (nonlinear_arith)
        requires
            u > 0,
            accuracy::size(e) == (if e < 0 {
                -e
            } else {
                e
            }),
            accuracy::size(e * u) == (if e * u < 0 {
                -(e * u)
            } else {
                e * u
            }),
    ;
    assert(MANTISSA_END * accuracy::size(e) <= 10 * v + binary64::IMPLICIT) by (nonlinear_arith)
        requires
            MANTISSA_END * (accuracy::size(e) * u) <= vu + binary64::IMPLICIT * u,
            vu == (10 * v) * u,
            u > 0,
    ;
}

/// What is ten times as large as a number and nearest to some whole number shows what the number is
/// in tenths.
proof fn lemma_shown(number: Binary64, count: nat)
    requires
        number.is_finite(),
        count <= 1_000_001,
        ({
            let product = binary64::product_of(number, binary64::whole(false, 10));
            let u = binary64::one() as int;
            &&& product.is_finite()
            &&& product.negative() == number.negative()
            &&& 2 * count * u - u <= 2 * product.magnitude() < 2 * count * u + u
        }),
    ensures
        to_tenths(number) == tenths(number.negative(), count),
{
    let one = binary64::one();
    lemma_pow2_pos(1074);
    rounding::law_whole_numbers_are_held(false, 10);
    rounding::law_whole_numbers_are_held(number.negative(), count);
    let ten = binary64::whole(false, 10);
    let product = binary64::product_of(number, ten);
    let (num, den) = ((2 * product.magnitude() + one) as int, 2 * one as int);
    assert(den * count == 2 * count * one) by (nonlinear_arith)
        requires
            den == 2 * one,
    ;
    vstd::arithmetic::div_mod::lemma_fundamental_div_mod_converse(
        num,
        den,
        count as int,
        num - den * count,
    );
    let top = binary64::whole(number.negative(), count);
    assert(binary64::half_away(product) == top);
    assert(top.magnitude() * one == (count * one) * one);
    assert(ten.magnitude() == 10 * one);
    rounding::law_rounding_of_equal_quotients(count * one, 10, one);
    binary64::lemma_parts(0);
}

/// Averages are shown at the tenths that they lie nearest to: what differs from some tenths by less
/// than half of one is shown as these tenths.
pub proof fn law_averages_are_shown_at_the_nearest_tenth(average: Binary64, count: nat)
    requires
        average.is_finite(),
        count <= 1_000_000,
        // Less than half a tenth away, by more than rounding.
        -499_999 * binary64::one() <= 1_000_000 * (10 * average.magnitude() - count
            * binary64::one()) <= 499_999 * binary64::one(),
    ensures
        to_tenths(average) == tenths(average.negative(), count),
{
    let u = binary64::one() as int;
    let cu = count * u;
    lemma_pow2_pos(1074);
    assert(cu <= 1_000_000 * u && 2 * count * u == 2 * cu) by (nonlinear_arith)
        requires
            cu == count * u,
            count <= 1_000_000,
            u > 0,
    ;
    lemma_tenfold(average);
    lemma_shown(average, count);
}

/// Averages that lie in the middle between two tenths are shown as the one that is further from zero.
pub proof fn law_averages_between_two_tenths_are_shown_away_from_zero(
    average: Binary64,
    count: nat,
)
    requires
        average.is_finite(),
        count <= 1_000_000,
        20 * average.magnitude() == (2 * count + 1) * binary64::one(),
    ensures
        to_tenths(average) == tenths(average.negative(), count + 1),
{
    let one = binary64::one();
    lemma_pow2_pos(1073);
    lemma_pow2_unfold(1074);
    rounding::law_whole_numbers_are_held(false, 10);
    let odd = 2 * count + 1;
    let half = pow2(1073);
    let v = average.magnitude();
    assert(10 * v == odd * half) by (nonlinear_arith)
        requires
            20 * v == odd * one,
            one == 2 * half,
    ;
    rounding::law_short_quotients_are_kept(odd, 1073, one);
    let pattern = binary64::nearest_pattern((odd * half) * one, one);
    assert(v * (10 * one) == (odd * half) * one) by (nonlinear_arith)
        requires
            10 * v == odd * half,
    ;
    rounding::lemma_with_sign(average.negative(), pattern);
    let product = binary64::product_of(average, binary64::whole(false, 10));
    assert(product.magnitude() == odd * half);
    assert(2 * (odd * half) == 2 * (count + 1) * one - one) by (nonlinear_arith)
        requires
            odd == 2 * count + 1,
            one == 2 * half,
    ;
    lemma_shown(average, count + 1);
}

// ---------------------------------------------------------------------------------------------
// Over many days
// ---------------------------------------------------------------------------------------------

/// The state of an alert after some days.
pub open spec fn state_after(start: AlertState, days: Seq<DayClass>) -> AlertState
    decreases days.len(),
{
    if days.len() == 0 {
        start
    } else {
        advanced(state_after(start, days.drop_last()), days.last()).state
    }
}

/// What the last of some days means for the user.
pub open spec fn last_outcome(start: AlertState, days: Seq<DayClass>) -> Outcome {
    advanced(state_after(start, days.drop_last()), days.last()).outcome
}

/// How many warm days the days end in. Days without data do not count and do not interrupt.
pub open spec fn warm_run(days: Seq<DayClass>) -> nat
    decreases days.len(),
{
    if days.len() == 0 {
        0
    } else {
        match days.last() {
            DayClass::NoData => warm_run(days.drop_last()),
            DayClass::Warm => warm_run(days.drop_last()) + 1,
            _ => 0,
        }
    }
}

/// How many cold days came since the last warm one. Other days do not count and do not interrupt.
pub open spec fn cold_run(days: Seq<DayClass>) -> nat
    decreases days.len(),
{
    if days.len() == 0 {
        0
    } else {
        match days.last() {
            DayClass::Cold => cold_run(days.drop_last()) + 1,
            DayClass::Warm => 0,
            _ => cold_run(days.drop_last()),
        }
    }
}

/// Whether the days before the last one hold no run of warm days that is long enough to notify.
pub open spec fn not_yet_warm(days: Seq<DayClass>) -> bool {
    forall|n: int| 0 <= n < days.len() ==> warm_run(#[trigger] days.take(n)) < 2
}

/// Whether the days before the last one hold no run of cold days that is long enough to reset.
pub open spec fn not_yet_cold(days: Seq<DayClass>) -> bool {
    forall|n: int| 0 <= n < days.len() ==> cold_run(#[trigger] days.take(n)) < 3
}

proof fn lemma_runs_are_short(days: Seq<DayClass>)
    ensures
        warm_run(days) <= days.len(),
        cold_run(days) <= days.len(),
    decreases days.len(),
{
    if days.len() > 0 {
        lemma_runs_are_short(days.drop_last());
    }
}

proof fn lemma_shorter(days: Seq<DayClass>)
    requires
        days.len() > 0,
    ensures
        not_yet_warm(days) ==> not_yet_warm(days.drop_last()) && warm_run(days.drop_last())
            < 2,
        not_yet_cold(days) ==> not_yet_cold(days.drop_last()) && cold_run(days.drop_last())
            < 3,
{
    let shorter = days.drop_last();
    assert(days.take(days.len() - 1) =~= shorter);
    assert forall|n: int| 0 <= n < shorter.len() implies #[trigger] shorter.take(n) == days.take(
        n,
    ) by {
        assert(shorter.take(n) =~= days.take(n));
    }
    if not_yet_warm(days) {
        assert forall|n: int| 0 <= n < shorter.len() implies warm_run(#[trigger] shorter.take(n))
            < 2 by {
            assert(warm_run(days.take(n)) < 2);
        }
    }
    if not_yet_cold(days) {
        assert forall|n: int| 0 <= n < shorter.len() implies cold_run(#[trigger] shorter.take(n))
            < 3 by {
            assert(cold_run(days.take(n)) < 3);
        }
    }
}

/// A new alert fires on the second warm day in a row, and not before: until then it is watching,
/// with the warm days that the days end in as its warm streak.
pub proof fn law_fires_on_the_second_warm_day(days: Seq<DayClass>)
    requires
        not_yet_warm(days),
        days.len() <= u32::MAX,
    ensures
        warm_run(days) < 2 ==> state_after(initial_state(), days) == (AlertState {
            status: AlertStatus::Watching,
            warm_streak: warm_run(days) as u32,
            cold_streak: cold_run(days) as u32,
        }),
        warm_run(days) >= 2 ==> state_after(initial_state(), days) == (AlertState {
            status: AlertStatus::Notified,
            warm_streak: 0,
            cold_streak: 0,
        }),
        days.len() > 0 ==> last_outcome(initial_state(), days) == (if warm_run(days) >= 2 {
            Outcome::Notify
        } else {
            Outcome::Quiet
        }),
    decreases days.len(),
{
    if days.len() > 0 {
        lemma_shorter(days);
        lemma_runs_are_short(days.drop_last());
        law_fires_on_the_second_warm_day(days.drop_last());
    }
}

/// An alert that has fired goes quiet until the third cold day since the last warm one, and watches
/// again from then on with fresh streaks. Days without data and days in the dead band do not
/// interrupt the cold days.
pub proof fn law_resets_on_the_third_cold_day(warm_streak: u32, days: Seq<DayClass>)
    requires
        not_yet_cold(days),
        warm_streak + days.len() <= u32::MAX,
    ensures
        ({
            let start = AlertState { status: AlertStatus::Notified, warm_streak, cold_streak: 0 };
            let end = state_after(start, days);
            &&& cold_run(days) < 3 ==> end.status == AlertStatus::Notified
                && end.cold_streak == cold_run(days) && end.warm_streak <= warm_streak + days.len()
            &&& cold_run(days) >= 3 ==> end == initial_state()
            &&& days.len() > 0 ==> last_outcome(start, days) == (if cold_run(days) >= 3 {
                Outcome::Reset
            } else {
                Outcome::Quiet
            })
        }),
    decreases days.len(),
{
    if days.len() > 0 {
        lemma_shorter(days);
        lemma_runs_are_short(days.drop_last());
        law_resets_on_the_third_cold_day(warm_streak, days.drop_last());
    }
}

/// What a day does to the streaks of an alert: a warm day adds to the warm ones and ends the cold
/// ones, a cold day the other way round, a day between the two ends the warm ones alone, and a day
/// without data does nothing. The second warm day of a watching alert notifies, and the third cold
/// day of a notified one resets; nothing else does either.
pub proof fn law_days_move_the_streaks(state: AlertState, class: DayClass)
    requires
        state.warm_streak < u32::MAX,
        state.cold_streak < u32::MAX,
    ensures
        ({
            let next = advanced(state, class);
            let after = next.state;
            &&& next.outcome is Notify <==> class is Warm && state.status is Watching
                && state.warm_streak >= 1
            &&& next.outcome is Reset <==> class is Cold && state.status is Notified
                && state.cold_streak >= 2
            &&& next.outcome is Notify ==> after.status is Notified && after.warm_streak == 0
                && after.cold_streak == 0
            &&& next.outcome is Reset ==> after.status is Watching && after.warm_streak == 0
                && after.cold_streak == 0
            &&& next.outcome is Quiet ==> after.status == state.status
            &&& next.outcome is Quiet && class is Warm ==> after.warm_streak == state.warm_streak + 1
                && after.cold_streak == 0
            &&& next.outcome is Quiet && class is Cold ==> after.cold_streak == state.cold_streak + 1
                && after.warm_streak == 0
            &&& class is DeadBand ==> after.warm_streak == 0 && after.cold_streak
                == state.cold_streak
            &&& class is NoData ==> after == state
        }),
{
}

/// A day without data leaves an alert as it was.
pub proof fn law_days_without_data_freeze(state: AlertState, threshold: Binary64)
    ensures
        advanced(state, classified(None, threshold)) == (Transition {
            state,
            outcome: Outcome::Quiet,
        }),
{
}

/// Users hear of an alert only when it goes from watching to notified, and it goes back only by a
/// reset, so that between two messages there is a reset.
pub proof fn law_status_changes_with_the_outcome(state: AlertState, class: DayClass)
    ensures
        ({
            let next = advanced(state, class);
            &&& (next.outcome == Outcome::Notify) == (state.status == AlertStatus::Watching
                && next.state.status == AlertStatus::Notified)
            &&& (next.outcome == Outcome::Reset) == (state.status == AlertStatus::Notified
                && next.state.status == AlertStatus::Watching)
        }),
{
}

/// Without a reset in between, an alert that has notified does not notify again.
pub proof fn law_one_message_between_resets(start: AlertState, days: Seq<DayClass>)
    requires
        start.status == AlertStatus::Notified,
        forall|n: int|
            0 < n <= days.len() ==> last_outcome(start, #[trigger] days.take(n)) != Outcome::Reset,
    ensures
        state_after(start, days).status == AlertStatus::Notified,
        forall|n: int|
            0 < n <= days.len() ==> last_outcome(start, #[trigger] days.take(n)) == Outcome::Quiet,
    decreases days.len(),
{
    if days.len() > 0 {
        let shorter = days.drop_last();
        assert forall|n: int| 0 < n <= shorter.len() implies last_outcome(
            start,
            #[trigger] shorter.take(n),
        ) != Outcome::Reset by {
            assert(shorter.take(n) =~= days.take(n));
        }
        law_one_message_between_resets(start, shorter);
        assert(days.take(days.len() as int) =~= days);
        assert forall|n: int| 0 < n <= days.len() implies last_outcome(
            start,
            #[trigger] days.take(n),
        ) == Outcome::Quiet by {
            if n < days.len() {
                assert(shorter.take(n) =~= days.take(n));
            }
        }
    }
}

/// Whether the streaks of a state are shorter than what would have changed its status.
pub open spec fn settled(state: AlertState) -> bool {
    match state.status {
        AlertStatus::Watching => state.warm_streak < 2,
        AlertStatus::Notified => state.cold_streak < 3,
    }
}

/// Every state that a new alert can come to is settled.
pub proof fn law_states_stay_settled(state: AlertState, class: DayClass)
    requires
        settled(state),
    ensures
        settled(initial_state()),
        settled(advanced(state, class).state),
{
}

} // verus!
