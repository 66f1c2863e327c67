//! Chart points from the aggregates of the API.

use crate::api::{DailyTemperature, HourlyTemperature};
use crate::calendar;
use crate::calendar::{to_instant, utc_now, Instant};
use crate::chart::{ChartPoint, DailyPoint, HourlyPoint};
use crate::sequences;
use crate::sequences::{arrange, Ranked};
use vstd::prelude::*;

verus! {

/// The point of a day, at noon local time, if there is exactly one noon.
pub open spec fn daily_point(daily: DailyTemperature) -> Option<DailyPoint> {
    match calendar::local_instant(daily.aggregation_date, 12) {
        Some(x) => Some(
            ChartPoint {
                x,
                min: daily.minimum_temperature,
                max: daily.maximum_temperature,
                avg: daily.average_temperature,
            },
        ),
        None => None,
    }
}

/// The points of some days, those without a point left out.
pub open spec fn points_of_days(daily: Seq<DailyTemperature>) -> Seq<DailyPoint> {
    daily.filter_map(|d: DailyTemperature| daily_point(d))
}

/// The point of an hour, at its beginning in local time, if there is exactly one and it lies within
/// the 24 hours up to `now`.
pub open spec fn hourly_point(hourly: HourlyTemperature, now: Instant) -> Option<HourlyPoint> {
    match calendar::local_instant(hourly.aggregation_date, hourly.aggregation_hour) {
        Some(x) => if x.earlier(day_before(now)) || now.earlier(x) {
            None
        } else {
            Some(
                ChartPoint {
                    x,
                    min: hourly.minimum_temperature,
                    max: hourly.maximum_temperature,
                    avg: hourly.average_temperature,
                },
            )
        },
        None => None,
    }
}

/// The points of some hours within the 24 hours up to `now`, as they came.
pub open spec fn recent_points(hourly: Seq<HourlyTemperature>, now: Instant) -> Seq<HourlyPoint> {
    hourly.filter_map(|h: HourlyTemperature| hourly_point(h, now))
}

/// A day before an instant.
pub open spec fn day_before(now: Instant) -> Instant {
    Instant { seconds: (now.seconds - calendar::DAY_SECONDS) as i64, nanos: now.nanos }
}

/// The points of the hours within the 24 hours up to `now`, in order of time.
pub open spec fn points_of_hours(hourly: Seq<HourlyTemperature>, now: Instant) -> Seq<HourlyPoint> {
    sequences::arranged(recent_points(hourly, now))
}

impl Ranked for ChartPoint<Instant> {
    open spec fn precedes(self, other: Self) -> bool {
        self.x.earlier(other.x)
    }

    fn comes_before(&self, other: &Self) -> (before: bool) {
        self.x.is_before(other.x)
    }

    proof fn one_way(a: Self, b: Self) {
    }

    proof fn parted(a: Self, b: Self, c: Self) {
    }
}

/// Whether all points lie at instants of the calendar.
pub open spec fn are_dated(points: Seq<ChartPoint<Instant>>) -> bool {
    forall|i: int| 0 <= i < points.len() ==> (#[trigger] points[i]).x.exists_in_calendar()
}

/// Convert API daily aggregates into chart points, anchored at noon local time.
pub fn daily_points(daily: &[DailyTemperature]) -> (points: Vec<DailyPoint>)
    ensures
        points@ == points_of_days(daily@),
        are_dated(points@),
{
    let ghost point = |d: DailyTemperature| daily_point(d);
    let mut points: Vec<DailyPoint> = Vec::new();
    let mut i: usize = 0;
    assert(daily@.take(0).filter_map(point) =~= Seq::<DailyPoint>::empty());
    while i < daily.len()
        invariant
            i <= daily@.len(),
            point == (|d: DailyTemperature| daily_point(d)),
            points@ == daily@.take(i as int).filter_map(point),
            are_dated(points@),
        decreases daily@.len() - i,
    {
        let d: DailyTemperature = daily[i];
        proof {
            assert(daily@.take(i + 1).drop_last() =~= daily@.take(i as int));
        }
        let ghost before = points@;
        match to_instant(d.aggregation_date, 12) {
            Some(x) => {
                points.push(
                    ChartPoint {
                        x,
                        min: d.minimum_temperature,
                        max: d.maximum_temperature,
                        avg: d.average_temperature,
                    },
                );
                proof {
                    assert(points@ =~= before + seq![points@.last()]);
                }
            },
            None => {},
        }
        i = i + 1;
    }
    assert(daily@.take(daily@.len() as int) =~= daily@);
    points
}

/// Convert API hourly aggregates into chart points, keeping only those within the 24 hours up to
/// `now`, in order of time.
pub fn hourly_points_at(hourly: &[HourlyTemperature], now: Instant) -> (points: Vec<HourlyPoint>)
    requires
        now.seconds >= calendar::FIRST_SECOND + calendar::DAY_SECONDS,
    ensures
        points@ == points_of_hours(hourly@, now),
        are_dated(points@),
{
    let cutoff: Instant = Instant {
        seconds: now.seconds - calendar::DAY_SECONDS,
        nanos: now.nanos,
    };
    let ghost point = |h: HourlyTemperature| hourly_point(h, now);
    let mut points: Vec<HourlyPoint> = Vec::new();
    let mut i: usize = 0;
    assert(hourly@.take(0).filter_map(point) =~= Seq::<HourlyPoint>::empty());
    while i < hourly.len()
        invariant
            i <= hourly@.len(),
            point == (|h: HourlyTemperature| hourly_point(h, now)),
            cutoff == day_before(now),
            points@ == hourly@.take(i as int).filter_map(point),
            are_dated(points@),
        decreases hourly@.len() - i,
    {
        let h: HourlyTemperature = hourly[i];
        proof {
            assert(hourly@.take(i + 1).drop_last() =~= hourly@.take(i as int));
        }
        let ghost before = points@;
        match to_instant(h.aggregation_date, h.aggregation_hour) {
            Some(x) => {
                if !x.is_before(cutoff) && !now.is_before(x) {
                    points.push(
                        ChartPoint {
                            x,
                            min: h.minimum_temperature,
                            max: h.maximum_temperature,
                            avg: h.average_temperature,
                        },
                    );
                    proof {
                        assert(points@ =~= before + seq![points@.last()]);
                    }
                }
            },
            None => {},
        }
        i = i + 1;
    }
    assert(hourly@.take(hourly@.len() as int) =~= hourly@);
    let ghost found = points@;
    let sorted: Vec<HourlyPoint> = arrange(points);
    proof {
        lemma_arranged_are_dated(found);
    }
    sorted
}

/// Convert API hourly aggregates into chart points, keeping only those within the last 24 hours.
pub fn hourly_points(hourly: &[HourlyTemperature]) -> (points: Vec<HourlyPoint>)
    ensures
        exists|now: Instant|
            now.exists_in_calendar() && points@ == #[trigger] points_of_hours(hourly@, now),
        are_dated(points@),
{
    hourly_points_at(hourly, utc_now())
}

/// Putting points in order leaves them where they are in time.
proof fn lemma_arranged_are_dated(points: Seq<ChartPoint<Instant>>)
    requires
        are_dated(points),
    ensures
        are_dated(sequences::arranged(points)),
{
    let all = sequences::arranged(points);
    sequences::law_arranged_items_are_the_same(points);
    broadcast use vstd::seq_lib::group_to_multiset_ensures;

    assert forall|i: int| 0 <= i < all.len() implies (#[trigger] all[i]).x.exists_in_calendar() by {
        assert(all.contains(all[i]));
        assert(points.to_multiset().count(all[i]) > 0);
        assert(points.contains(all[i]));
        let j = choose|j: int| 0 <= j < points.len() && points[j] == all[i];
        assert(points[j].x.exists_in_calendar());
    }
}

/// The points of the last day are in order of time, none is older than a day, and none is yet to
/// come.
pub proof fn law_recent_points_are_in_order(hourly: Seq<HourlyTemperature>, now: Instant)
    ensures
        ({
            let points = points_of_hours(hourly, now);
            &&& forall|i: int, j: int|
                0 <= i < j < points.len() ==> !(#[trigger] points[j]).x.earlier(
                    (#[trigger] points[i]).x,
                )
            &&& forall|i: int|
                0 <= i < points.len() ==> !(#[trigger] points[i]).x.earlier(day_before(now))
                    && !now.earlier(points[i].x)
        }),
{
    let found = recent_points(hourly, now);
    let points = points_of_hours(hourly, now);
    sequences::law_arranged_items_are_in_order(found);
    sequences::law_arranged_items_are_the_same(found);
    broadcast use vstd::seq_lib::group_to_multiset_ensures;

    assert forall|i: int, j: int| 0 <= i < j < points.len() implies !(
    #[trigger] points[j]).x.earlier((#[trigger] points[i]).x) by {
        assert(!points[j].precedes(points[i]));
    }
    assert forall|i: int| 0 <= i < points.len() implies !(#[trigger] points[i]).x.earlier(
        day_before(now),
    ) && !now.earlier(points[i].x) by {
        assert(points.contains(points[i]));
        assert(found.to_multiset().count(points[i]) > 0);
        assert(found.contains(points[i]));
        hourly.lemma_filter_map_contains(
            |h: HourlyTemperature| hourly_point(h, now),
            points[i],
        );
    }
}

/// Every day is drawn at noon in Zurich, where there is exactly one, with its own minimum, maximum and
/// average; days are drawn in the order in which they came, and nothing else is.
pub proof fn law_days_are_drawn_at_noon(
    front: Seq<DailyTemperature>,
    back: Seq<DailyTemperature>,
    day: DailyTemperature,
)
    requires
        day.aggregation_date.exists_in_calendar(),
    ensures
        points_of_days(front + back) == points_of_days(front) + points_of_days(back),
        match calendar::zurich_second(day.aggregation_date.days as int, 12) {
            Some(seconds) => {
                let points = points_of_days(seq![day]);
                &&& points.len() == 1
                &&& points[0].x.seconds == seconds && points[0].x.nanos == 0
                &&& points[0].min == day.minimum_temperature
                &&& points[0].max == day.maximum_temperature
                &&& points[0].avg == day.average_temperature
            },
            None => points_of_days(seq![day]).len() == 0,
        },
{
    let point = |d: DailyTemperature| daily_point(d);
    lemma_filter_map_parts(front, back, point);
    assert(seq![day].drop_last() =~= Seq::<DailyTemperature>::empty());
    assert(seq![day].drop_last().filter_map(point) =~= Seq::<DailyPoint>::empty());
    assert(seq![day].last() == day);
}

/// What is made of two sequences together is what is made of each.
proof fn lemma_filter_map_parts<A, B>(front: Seq<A>, back: Seq<A>, f: spec_fn(A) -> Option<B>)
    ensures
        (front + back).filter_map(f) == front.filter_map(f) + back.filter_map(f),
    decreases back.len(),
{
    if back.len() == 0 {
        assert(front + back =~= front);
        assert(back.filter_map(f) =~= Seq::<B>::empty());
        assert(front.filter_map(f) + back.filter_map(f) =~= front.filter_map(f));
    } else {
        lemma_filter_map_parts(front, back.drop_last(), f);
        assert((front + back).drop_last() =~= front + back.drop_last());
        assert((front + back).last() == back.last());
        assert((front + back).filter_map(f) =~= front.filter_map(f) + back.filter_map(f));
    }
}

/// The point of an hour, where it begins in Zurich, with the minimum, the maximum and the average of
/// that hour.
pub open spec fn is_point_of(point: HourlyPoint, hour: HourlyTemperature) -> bool {
    &&& hour.aggregation_date.exists_in_calendar()
    &&& hour.aggregation_hour < 24
    &&& calendar::zurich_second(
        hour.aggregation_date.days as int,
        hour.aggregation_hour as int,
    ) == Some(point.x.seconds)
    &&& point.x.nanos == 0
    &&& point.min == hour.minimum_temperature
    &&& point.max == hour.maximum_temperature
    &&& point.avg == hour.average_temperature
}

/// Whether an instant lies within the 24 hours up to another one.
pub open spec fn is_of_the_last_day(time: Instant, now: Instant) -> bool {
    now.total_nanos() - 24 * 3600 * 1_000_000_000 <= time.total_nanos() <= now.total_nanos()
}

/// Every hour of the last 24 is drawn where it begins in Zurich, if there is exactly one such
/// instant, with its own minimum, maximum and average. Nothing else is drawn.
pub proof fn law_all_hours_of_the_last_day_are_drawn(
    hourly: Seq<HourlyTemperature>,
    now: Instant,
    point: HourlyPoint,
)
    requires
        now.exists_in_calendar(),
        now.seconds >= calendar::FIRST_SECOND + calendar::DAY_SECONDS,
    ensures
        points_of_hours(hourly, now).contains(point) <==> is_of_the_last_day(point.x, now) && exists|
            i: int,
        |
            0 <= i < hourly.len() && is_point_of(point, #[trigger] hourly[i]),
{
    let f = |h: HourlyTemperature| hourly_point(h, now);
    let found = recent_points(hourly, now);
    let points = points_of_hours(hourly, now);
    sequences::law_arranged_items_are_the_same(found);
    broadcast use vstd::seq_lib::group_to_multiset_ensures;

    assert(points.contains(point) == found.contains(point)) by {
        assert(points.to_multiset().count(point) > 0 <==> points.contains(point));
        assert(found.to_multiset().count(point) > 0 <==> found.contains(point));
    }
    if found.contains(point) {
        hourly.lemma_filter_map_contains(f, point);
        let i = choose|i: int| 0 <= i < hourly.len() && f(#[trigger] hourly[i]) == Some(point);
        assert(is_point_of(point, hourly[i]));
    }
    if is_of_the_last_day(point.x, now) && exists|i: int|
        0 <= i < hourly.len() && is_point_of(point, #[trigger] hourly[i]) {
        let i = choose|i: int| 0 <= i < hourly.len() && is_point_of(point, #[trigger] hourly[i]);
        assert(f(hourly[i]) == Some(point));
        lemma_filter_map_holds(hourly, f, i);
    }
}

proof fn lemma_filter_map_holds<A, B>(items: Seq<A>, f: spec_fn(A) -> Option<B>, i: int)
    requires
        0 <= i < items.len(),
        f(items[i]) is Some,
    ensures
        items.filter_map(f).contains(f(items[i])->0),
{
    let (front, back) = (items.take(i), items.skip(i));
    assert(items =~= front + back);
    lemma_filter_map_parts(front, back, f);
    let (one, rest) = (back.take(1), back.skip(1));
    assert(back =~= one + rest);
    lemma_filter_map_parts(one, rest, f);
    assert(one.drop_last() =~= Seq::<A>::empty());
    assert(one.drop_last().filter_map(f) =~= Seq::<B>::empty());
    assert(one.last() == items[i]);
    let b = f(items[i])->0;
    assert(one.filter_map(f) =~= seq![b]);
    let at = front.filter_map(f).len() as int;
    assert(items.filter_map(f)[at] == b);
}

/// Each hour of the last 24 adds one point, and any other hour none.
pub proof fn law_each_hour_is_drawn_once(
    hourly: Seq<HourlyTemperature>,
    hour: HourlyTemperature,
    point: HourlyPoint,
    now: Instant,
)
    requires
        now.exists_in_calendar(),
        now.seconds >= calendar::FIRST_SECOND + calendar::DAY_SECONDS,
        is_point_of(point, hour),
    ensures
        points_of_hours(hourly.push(hour), now).to_multiset() == (if is_of_the_last_day(
            point.x,
            now,
        ) {
            points_of_hours(hourly, now).to_multiset().insert(point)
        } else {
            points_of_hours(hourly, now).to_multiset()
        }),
{
    let f = |h: HourlyTemperature| hourly_point(h, now);
    let longer = hourly.push(hour);
    sequences::law_arranged_items_are_the_same(recent_points(hourly, now));
    sequences::law_arranged_items_are_the_same(recent_points(longer, now));
    broadcast use vstd::seq_lib::group_to_multiset_ensures;

    assert(longer.drop_last() =~= hourly);
    let found = recent_points(hourly, now);
    if is_of_the_last_day(point.x, now) {
        assert(f(hour) == Some(point));
        assert(recent_points(longer, now) =~= found.push(point));
    } else {
        assert(f(hour) is None);
    }
}

} // verus!
