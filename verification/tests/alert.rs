use chrono::{Datelike, NaiveDate};
use gfroerli_bot::alert::{classify, evaluate, round1, swim_window_average, AlertState, DayClass, Outcome};
use gfroerli_bot::api::HourlyTemperature;
use gfroerli_bot::binary64::Binary64;
use gfroerli_bot::calendar::Date;
use gfroerli_bot::store::AlertStatus;

fn b(x: f64) -> Binary64 {
    Binary64 { bits: x.to_bits() }
}

fn date(year: i32, month: u32, day: u32) -> Date {
    Date { days: NaiveDate::from_ymd_opt(year, month, day).unwrap().num_days_from_ce() }
}

/// Build an hourly bucket; min/max are irrelevant to the swim-window average, so mirror avg.
fn make_hourly(date: Date, hour: u8, avg: f64) -> HourlyTemperature {
    HourlyTemperature {
        aggregation_date: date,
        aggregation_hour: hour,
        minimum_temperature: b(avg),
        maximum_temperature: b(avg),
        average_temperature: b(avg),
    }
}

#[test]
fn averages_only_window_hours() {
    // Hours are local; the window is [12, 18). Out-of-window hours carry a wildly different value
    // so their exclusion is observable.
    let d = date(2025, 7, 1);
    let mut hourly = vec![make_hourly(d, 11, 100.0), make_hourly(d, 18, 100.0)];
    for hour in 12..18 {
        hourly.push(make_hourly(d, hour, 20.0));
    }
    assert_eq!(swim_window_average(&hourly, d), Some(b(20.0)));
}

#[test]
fn none_when_below_min_buckets() {
    let d = date(2025, 7, 1);
    // Only three in-window buckets (12, 13, 14); four are needed.
    let hourly: Vec<_> = (12..15).map(|h| make_hourly(d, h, 20.0)).collect();
    assert_eq!(swim_window_average(&hourly, d), None);
}

#[test]
fn four_buckets_are_enough() {
    let d = date(2025, 7, 1);
    let hourly: Vec<_> = (13..17).map(|h| make_hourly(d, h, h as f64)).collect();
    assert_eq!(swim_window_average(&hourly, d), Some(b(14.5)));
}

#[test]
fn excludes_other_dates() {
    let d = date(2025, 7, 1);
    let mut hourly: Vec<_> = (12..18).map(|h| make_hourly(d, h, 20.0)).collect();
    // In-window-hour buckets on another day must not count toward `d`.
    for hour in 12..18 {
        hourly.push(make_hourly(date(2025, 7, 2), hour, 100.0));
    }
    assert_eq!(swim_window_average(&hourly, d), Some(b(20.0)));
}

#[test]
fn averages_are_summed_in_order() {
    let d = date(2025, 7, 1);
    let values = [0.1, 0.2, 0.3, 19.7, 21.3, 22.9];
    let hourly: Vec<_> = values
        .iter()
        .enumerate()
        .map(|(i, &v)| make_hourly(d, 12 + i as u8, v))
        .collect();
    let mut sum = 0.0f64;
    for v in values {
        sum += v;
    }
    assert_eq!(swim_window_average(&hourly, d), Some(b(sum / 6.0)));
}

const THRESHOLD: f64 = 23.0;

/// Fold `evaluate` over a sequence of daily swim-window averages.
fn run(days: &[Option<f64>]) -> (AlertState, Vec<Outcome>) {
    let mut state = AlertState::default();
    let mut outcomes = Vec::new();
    for &avg in days {
        let transition = evaluate(state, avg.map(b), b(THRESHOLD));
        state = transition.state;
        outcomes.push(transition.outcome);
    }
    (state, outcomes)
}

fn count(outcomes: &[Outcome], target: Outcome) -> usize {
    outcomes.iter().filter(|&&o| o == target).count()
}

#[test]
fn single_day_from_watching() {
    let cases: [(Option<f64>, u32, u32); 4] =
        [(Some(23.0), 1, 0), (Some(22.0), 0, 0), (Some(20.0), 0, 1), (None, 0, 0)];
    for (avg, warm, cold) in cases {
        let transition = evaluate(AlertState::default(), avg.map(b), b(THRESHOLD));
        assert_eq!(transition.state.warm_streak, warm);
        assert_eq!(transition.state.cold_streak, cold);
        assert_eq!(transition.outcome, Outcome::Quiet);
    }
}

#[test]
fn two_warm_days_notify_once_on_day_two() {
    let (state, outcomes) = run(&[Some(23.0), Some(23.0)]);
    assert_eq!(outcomes, vec![Outcome::Quiet, Outcome::Notify]);
    assert_eq!(state.status, AlertStatus::Notified);
}

#[test]
fn broken_streak_does_not_notify() {
    // Warm, a dead-band day, warm again: the middle day breaks the streak.
    let (_, outcomes) = run(&[Some(23.0), Some(22.0), Some(23.0)]);
    assert_eq!(count(&outcomes, Outcome::Notify), 0);
}

#[test]
fn rounding_lets_a_borderline_day_qualify() {
    // 22.97 rounds to 23.0, so two such days notify.
    let (_, outcomes) = run(&[Some(22.97), Some(22.97)]);
    assert_eq!(count(&outcomes, Outcome::Notify), 1);
}

#[test]
fn resets_after_three_cold_days() {
    let (state, outcomes) = run(&[Some(23.0), Some(23.0), Some(21.0), Some(21.0), Some(21.0)]);
    assert_eq!(count(&outcomes, Outcome::Notify), 1);
    assert_eq!(count(&outcomes, Outcome::Reset), 1);
    assert_eq!(state.status, AlertStatus::Watching);
}

#[test]
fn two_cold_days_do_not_reset() {
    let (state, outcomes) = run(&[Some(23.0), Some(23.0), Some(21.0), Some(21.0)]);
    assert_eq!(count(&outcomes, Outcome::Reset), 0);
    assert_eq!(state.status, AlertStatus::Notified);
}

#[test]
fn gap_day_freezes_the_streak() {
    // A None day between two warm days must not reset the warm streak.
    let (_, outcomes) = run(&[Some(23.0), None, Some(23.0)]);
    assert_eq!(outcomes, vec![Outcome::Quiet, Outcome::Quiet, Outcome::Notify]);
}

#[test]
fn dead_band_keeps_cold_streak() {
    // After notifying: cold, dead-band, cold, cold. The dead-band day zeroes the warm streak but
    // leaves the cold streak, so the third cold day still resets.
    let (_, outcomes) =
        run(&[Some(23.0), Some(23.0), Some(21.0), Some(22.0), Some(21.0), Some(21.0)]);
    assert_eq!(count(&outcomes, Outcome::Reset), 1);
}

#[test]
fn a_warm_day_ends_the_cold_days() {
    let (state, outcomes) = run(&[
        Some(23.0),
        Some(23.0),
        Some(21.0),
        Some(21.0),
        Some(23.0),
        Some(21.0),
        Some(21.0),
    ]);
    assert_eq!(count(&outcomes, Outcome::Reset), 0);
    assert_eq!(state.cold_streak, 2);
}

#[test]
fn a_cold_snap_and_a_warm_spell_alert_again() {
    let (_, outcomes) = run(&[
        Some(23.0),
        Some(24.0),
        Some(25.0),
        Some(26.0),
        Some(21.0),
        Some(20.0),
        Some(19.0),
        Some(23.0),
        Some(23.0),
    ]);
    assert_eq!(
        outcomes,
        vec![
            Outcome::Quiet,
            Outcome::Notify,
            Outcome::Quiet,
            Outcome::Quiet,
            Outcome::Quiet,
            Outcome::Quiet,
            Outcome::Reset,
            Outcome::Quiet,
            Outcome::Notify,
        ]
    );
}

#[test]
fn days_are_classified_at_display_precision() {
    let class = |avg: f64| classify(Some(b(avg)), b(THRESHOLD));
    assert_eq!(classify(None, b(THRESHOLD)), DayClass::NoData);
    assert_eq!(class(23.0), DayClass::Warm);
    assert_eq!(class(22.95), DayClass::Warm);
    assert_eq!(class(22.94), DayClass::DeadBand);
    assert_eq!(class(21.6), DayClass::DeadBand);
    assert_eq!(class(21.54), DayClass::Cold);
    assert_eq!(class(21.5), DayClass::Cold);
    assert_eq!(class(f64::NAN), DayClass::DeadBand);
    // A threshold between two shown temperatures is not reached by itself.
    assert_eq!(classify(Some(b(23.04)), b(23.04)), DayClass::DeadBand);
}

#[test]
fn rounds_to_tenths_like_the_machine() {
    for x in [0.0, -0.0, 22.97, 22.95, -3.25, 1e300, f64::INFINITY, 0.05, 0.15, 17.849999999999998] {
        let expected = (x * 10.0f64).round() / 10.0;
        assert_eq!(round1(b(x)), b(expected));
    }
}
