use chrono::{DateTime, Datelike, NaiveDate, TimeZone, Utc};
use gfroerli_bot::api::{DailyTemperature, HourlyTemperature};
use gfroerli_bot::binary64::Binary64;
use gfroerli_bot::calendar::{Date, Instant};
use gfroerli_bot::chart::{
    band_outline, day_label, draft_chart, hour_label, temperature_label, y_range, ChartPoint, HourlyPoint,
};
use gfroerli_bot::interpolation::{
    hermite, interpolate_line, monotone_tangents, LinearInterpolate, INTERPOLATION_SUBDIVISIONS,
};
use gfroerli_bot::layout::{charts_height, footer_positions, note_position};
use gfroerli_bot::picture::{encode_picture, finish_picture, PictureFault};
use gfroerli_bot::points::{daily_points, hourly_points, hourly_points_at};

fn b(x: f64) -> Binary64 {
    Binary64 { bits: x.to_bits() }
}

fn f(x: Binary64) -> f64 {
    f64::from_bits(x.bits)
}

fn bs(xs: &[f64]) -> Vec<Binary64> {
    xs.iter().map(|&x| b(x)).collect()
}

fn range(pairs: &[(f64, f64)]) -> (f64, f64) {
    let (lo, hi) = y_range(&pairs.iter().map(|&(x, y)| (b(x), b(y))).collect());
    (f(lo), f(hi))
}

#[test]
fn chart_pads_normal_range() {
    let (lo, hi) = range(&[(10.0, 20.0), (12.0, 18.0)]);
    assert!(lo < 10.0);
    assert!(hi > 20.0);
}

#[test]
fn chart_pads_flat_range() {
    let (lo, hi) = range(&[(15.0, 15.0)]);
    assert!(lo < 15.0);
    assert!(hi > 15.0);
}

#[test]
fn chart_empty_yields_default() {
    assert_eq!(range(&[]), (0.0, 1.0));
}

#[test]
fn render_pads_normal_range() {
    let (lo, hi) = range(&[(10.0, 20.0), (12.0, 18.0)]);
    assert!(lo < 10.0);
    assert!(hi > 20.0);
}

#[test]
fn render_pads_flat_range() {
    let (lo, hi) = range(&[(15.0, 15.0)]);
    assert!(lo < 15.0);
    assert!(hi > 15.0);
}

#[test]
fn render_empty_yields_default() {
    assert_eq!(range(&[]), (0.0, 1.0));
}

#[test]
fn ranges_are_padded_by_a_tenth_or_half_a_degree() {
    assert_eq!(range(&[(10.0, 20.0), (12.0, 18.0)]), (9.0, 21.0));
    assert_eq!(range(&[(15.0, 15.0)]), (14.5, 15.5));
    assert_eq!(range(&[(f64::NAN, f64::NAN)]), (0.0, 1.0));
    assert_eq!(range(&[(f64::NEG_INFINITY, 3.0)]), (0.0, 1.0));
}

#[test]
fn single_point() {
    assert_eq!(monotone_tangents(&bs(&[5.0])), bs(&[0.0]));
}

#[test]
fn constant_series_has_zero_tangents() {
    for v in monotone_tangents(&bs(&[3.0, 3.0, 3.0, 3.0])) {
        assert!(f(v).abs() < 1e-9);
    }
}

#[test]
fn linear_series_has_uniform_slope_tangents() {
    // A linear increase of 2 per step should give tangents of 2 everywhere.
    for v in monotone_tangents(&bs(&[0.0, 2.0, 4.0, 6.0, 8.0])) {
        assert!((f(v) - 2.0).abs() < 1e-9);
    }
}

#[test]
fn local_extremum_gets_zero_tangent() {
    // Peak at index 2 (values go up then down): tangent should be 0.
    let out = monotone_tangents(&bs(&[0.0, 2.0, 5.0, 2.0, 0.0]));
    assert!(f(out[2]).abs() < 1e-9);
}

/// The same tangents on the machine's numbers.
fn machine_tangents(ys: &[f64]) -> Vec<f64> {
    let n = ys.len();
    let d: Vec<f64> = (0..n - 1).map(|i| ys[i + 1] - ys[i]).collect();
    let mut m = vec![0.0f64; n];
    m[0] = d[0];
    m[n - 1] = d[n - 2];
    for i in 1..n - 1 {
        m[i] = if d[i - 1] * d[i] <= 0.0 { 0.0 } else { (d[i - 1] + d[i]) / 2.0 };
    }
    for i in 0..n - 1 {
        if d[i] == 0.0 {
            m[i] = 0.0;
            m[i + 1] = 0.0;
            continue;
        }
        let alpha = m[i] / d[i];
        let beta = m[i + 1] / d[i];
        let s = alpha * alpha + beta * beta;
        if s > 9.0 {
            let tau = 3.0 / s.sqrt();
            m[i] = tau * alpha * d[i];
            m[i + 1] = tau * beta * d[i];
        }
    }
    m
}

#[test]
fn tangents_agree_with_the_machine() {
    let mut state: u64 = 88172645463325252;
    for n in 2..12usize {
        for _ in 0..20 {
            let ys: Vec<f64> = (0..n)
                .map(|_| {
                    state ^= state << 13;
                    state ^= state >> 7;
                    state ^= state << 17;
                    (state % 1000) as f64 / 37.0
                })
                .collect();
            let found: Vec<f64> = monotone_tangents(&bs(&ys)).into_iter().map(f).collect();
            assert_eq!(found, machine_tangents(&ys));
        }
    }
}

fn hermite_f(y0: f64, y1: f64, m0: f64, m1: f64, t: f64) -> f64 {
    f(hermite(b(y0), b(y1), b(m0), b(m1), b(t)))
}

#[test]
fn endpoints() {
    assert!((hermite_f(1.0, 5.0, 0.0, 0.0, 0.0) - 1.0).abs() < 1e-9);
    assert!((hermite_f(1.0, 5.0, 0.0, 0.0, 1.0) - 5.0).abs() < 1e-9);
}

#[test]
fn linear_segment_with_matching_tangents() {
    // y0=0, y1=1, tangents=1 → straight line y = t.
    for t in [0.0, 0.25, 0.5, 0.75, 1.0] {
        let v = hermite_f(0.0, 1.0, 1.0, 1.0, t);
        assert!((v - t).abs() < 1e-9, "t={t}: {v}");
    }
}

fn point(ts: i64, avg: f64) -> HourlyPoint {
    ChartPoint {
        x: Instant { seconds: ts, nanos: 0 },
        min: b(avg - 0.5),
        max: b(avg + 0.5),
        avg: b(avg),
    }
}

#[test]
fn interpolation_empty_input() {
    assert!(monotone_tangents(&vec![]).is_empty());
    let empty: Vec<HourlyPoint> = vec![];
    assert!(interpolate_line(&empty).is_empty());
}

#[test]
fn single_point_returned_as_is() {
    let input = vec![point(0, 10.0)];
    let out = interpolate_line(&input);
    assert_eq!(out.len(), 1);
    assert_eq!(f(out[0].1), 10.0);
    assert_eq!(out[0].0, input[0].x);
}

#[test]
fn passes_through_every_original_point() {
    let input: Vec<HourlyPoint> = (0..6).map(|i| point(i * 3600, i as f64 * 2.0)).collect();
    let out = interpolate_line(&input);
    // The first subdivision of each segment is the segment's start point.
    for (i, original) in input.iter().enumerate() {
        let idx = i * INTERPOLATION_SUBDIVISIONS;
        let idx = idx.min(out.len() - 1);
        assert!(
            (f(out[idx].1) - f(original.avg)).abs() < 1e-9,
            "point {i}: {} vs {}",
            f(out[idx].1),
            f(original.avg)
        );
        assert_eq!(f(out[idx].1), f(original.avg));
        assert_eq!(out[idx].0, original.x);
    }
}

#[test]
fn generates_n_minus_one_times_subdivisions_plus_one_points() {
    let input: Vec<HourlyPoint> = (0..4).map(|i| point(i * 3600, i as f64)).collect();
    let out = interpolate_line(&input);
    assert_eq!(out.len(), (input.len() - 1) * INTERPOLATION_SUBDIVISIONS + 1);
}

#[test]
fn no_overshoot_on_spiky_input() {
    // Alternating up/down pattern. Monotone cubic must keep every interpolated y within the range
    // of the two surrounding original values.
    let ys = [10.0, 20.0, 5.0, 25.0, 8.0, 22.0, 12.0];
    let input: Vec<HourlyPoint> =
        ys.iter().enumerate().map(|(i, &y)| point(i as i64 * 3600, y)).collect();
    let out = interpolate_line(&input);

    for seg in 0..ys.len() - 1 {
        let lo = f64::min(ys[seg], ys[seg + 1]);
        let hi = f64::max(ys[seg], ys[seg + 1]);
        let start = seg * INTERPOLATION_SUBDIVISIONS;
        let end = (seg + 1) * INTERPOLATION_SUBDIVISIONS;
        for (k, (_, y)) in out[start..=end].iter().enumerate() {
            let y = f(*y);
            assert!(
                y >= lo - 1e-9 && y <= hi + 1e-9,
                "segment {seg} sample {k}: y={y} out of [{lo}, {hi}]"
            );
        }
    }
}

#[test]
fn a_flat_line_is_flat_but_for_rounding() {
    let input: Vec<HourlyPoint> = (0..3).map(|i| point(i * 3600, 0.1)).collect();
    for (_, y) in interpolate_line(&input) {
        assert!((f(y) - 0.1).abs() < 1e-16);
    }
}

#[test]
fn the_line_neither_overshoots_nor_turns_between_two_points() {
    let ys = [7.7, 7.7001, 7.71, 7.7, 7.7, 30.0, 30.0001, -4.0, -3.9, 12.0, 12.00001, 40.0, 0.0];
    let input: Vec<HourlyPoint> =
        ys.iter().enumerate().map(|(i, &y)| point(i as i64 * 3600, y)).collect();
    let out = interpolate_line(&input);
    for seg in 0..ys.len() - 1 {
        let (from, to) = (ys[seg], ys[seg + 1]);
        for k in 0..INTERPOLATION_SUBDIVISIONS {
            let y = f(out[seg * INTERPOLATION_SUBDIVISIONS + k].1);
            let next = f(out[seg * INTERPOLATION_SUBDIVISIONS + k + 1].1);
            if from == to {
                assert!((y - from).abs() <= from.abs() / 2.0f64.powi(41));
            } else {
                assert!(f64::min(from, to) <= y && y <= f64::max(from, to));
                assert!(if from < to { y <= next } else { next <= y });
            }
        }
    }
}

#[test]
fn tangents_are_at_most_three_times_as_steep_as_their_secants() {
    let ys = [10.0, 10.1, 20.0, 5.0, 5.5, 25.0, 25.0, 8.0, 7.9, 7.8, -40.0];
    let out = monotone_tangents(&bs(&ys));
    for i in 0..ys.len() - 1 {
        let rise = ys[i + 1] - ys[i];
        for m in [f(out[i]), f(out[i + 1])] {
            assert!(m * rise >= 0.0);
            assert!(m.abs() <= 3.0 * rise.abs() * (1.0 + 1e-9));
        }
    }
}

#[test]
fn cubics_begin_and_end_at_their_values() {
    for (y0, y1, m0, m1) in [(1.0, 5.0, 0.0, 0.0), (0.1, -7.7, 3e9, -1e-9), (-0.0, 0.0, 1.0, 2.0)] {
        assert_eq!(f(hermite(b(y0), b(y1), b(m0), b(m1), b(0.0))), y0);
        assert_eq!(f(hermite(b(y0), b(y1), b(m0), b(m1), b(1.0))), y1);
    }
}

#[test]
fn cubics_with_matching_tangents_are_straight() {
    for (y0, y1) in [(0.0, 1.0), (20.0, 5.0), (7.5, 7.5), (-3.0, 40.0), (1e12, -1e12)] {
        let d = y1 - y0;
        for k in 0..=1000 {
            let t = k as f64 / 1000.0;
            let y = f(hermite(b(y0), b(y1), b(d), b(d), b(t)));
            let size = f64::max(f64::abs(y0), f64::abs(y1));
            assert!((y - (y0 + d * t)).abs() <= size / 2.0f64.powi(43), "{y0} {y1} {t}: {y}");
        }
    }
}

#[test]
fn cubics_are_straight_for_numbers_of_any_size() {
    // The differences are rounded, and the last ones are as large as numbers get.
    let pairs = [
        (0.1, 1e17),
        (1.0, 1e-20),
        (-1e300, 3.3e300),
        (5e-324, 3e-323),
        (-8.9e307, 8.9e307),
        (1.797e308, 1e300),
    ];
    for (y0, y1) in pairs {
        let d = y1 - y0;
        for k in 0..=1000 {
            let t = k as f64 / 1000.0;
            let y = f(hermite(b(y0), b(y1), b(d), b(d), b(t)));
            let size = f64::max(f64::max(f64::abs(y0), f64::abs(y1)), 2.0f64.powi(-1021));
            assert!((y - (y0 + d * t)).abs() <= size / 2.0f64.powi(43), "{y0} {y1} {t}: {y}");
        }
    }
}

#[test]
fn tangents_are_held_back_for_numbers_of_any_size() {
    let rows = [
        vec![0.0, 5e-324, 1e-323, 1e-310, 1e-310, 3e-3, 4e-3],
        vec![1e300, 1e307, 1.2e307, -2e307, 2e307, 1.9e307],
        vec![0.0, 1e150, 1e300, 1e300, 1e307],
        vec![-1e-300, 1e-300, 1.0, 1.0000001, 1e280, 2e280],
    ];
    for ys in rows {
        let out = monotone_tangents(&bs(&ys));
        for i in 0..ys.len() - 1 {
            let rise: f64 = ys[i + 1] - ys[i];
            for m in [f(out[i]), f(out[i + 1])] {
                assert!(m == 0.0 || (m > 0.0) == (rise > 0.0), "{ys:?} {i}: {m}");
                assert!(m.abs() <= 3.0000001 * rise.abs(), "{ys:?} {i}: {m}");
            }
        }
    }
}

#[test]
fn ranges_leave_room_for_large_numbers() {
    let most = 2.0f64.powi(52) - 0.5;
    let (lo, hi) = range(&[(most, most)]);
    assert!(lo < most && most < hi);
    let (lo, hi) = range(&[(-most, -most)]);
    assert!(lo < -most && -most < hi);
    let (lo, hi) = range(&[(1e300, 1.000000000001e300)]);
    assert!(lo < 1e300 && 1.000000000001e300 < hi);
    assert_eq!(range(&[(f64::MIN, f64::MAX)]), (f64::NEG_INFINITY, f64::INFINITY));
    // From here on half a degree can be lost in rounding.
    assert_eq!(range(&[(most + 0.5, most + 0.5)]).1, most + 0.5);
}

#[test]
fn pictures_are_png_files_in_the_final_size() {
    let drawing = [200u8, 100, 50].repeat(1440 * 2000);
    let picture = finish_picture(drawing).unwrap();
    assert_eq!(&picture[..16], b"\x89PNG\r\n\x1a\n\0\0\0\rIHDR");
    // 720 pixels wide and 1000 high, in eight bits of red, green and blue.
    assert_eq!(&picture[16..29], [0, 0, 2, 208, 0, 0, 3, 232, 8, 2, 0, 0, 0]);
    let decoded = image::load_from_memory(&picture).unwrap().to_rgb8();
    assert_eq!(decoded.dimensions(), (720, 1000));
    assert!(decoded.pixels().all(|pixel| pixel.0 == [200, 100, 50]));
    // A few bytes too many do no harm, and one too few does.
    assert!(finish_picture(vec![255; 1440 * 2000 * 3 + 1]).is_ok());
    let fault = finish_picture(vec![255; 1440 * 2000 * 3 - 1]).unwrap_err();
    assert_eq!(fault, PictureFault::SizeMismatch);
    assert_eq!(fault.message(), "render buffer size mismatch");
}

#[test]
fn pictures_keep_their_pixels() {
    let pixels: Vec<u8> = (0..720 * 1000 * 3).map(|i| (i * 7 % 251) as u8).collect();
    let picture = encode_picture(&pixels);
    assert_eq!(image::load_from_memory(&picture).unwrap().to_rgb8().into_raw(), pixels);
}

#[test]
fn axis_labels_are_local_times() {
    let summer = instant(Utc.with_ymd_and_hms(2025, 7, 5, 7, 5, 59).unwrap());
    assert_eq!(hour_label(summer), Some("09:05".to_string()));
    assert_eq!(day_label(summer), Some("05.07.".to_string()));
    // An hour before midnight in UTC it is the next day in Zurich.
    let winter = instant(Utc.with_ymd_and_hms(2025, 12, 30, 23, 0, 0).unwrap());
    assert_eq!(hour_label(winter), Some("00:00".to_string()));
    assert_eq!(day_label(winter), Some("31.12.".to_string()));
    assert_eq!(hour_label(Instant { seconds: i64::MAX, nanos: 0 }), None);
    assert_eq!(day_label(Instant { seconds: 0, nanos: 1_000_000_000 }), None);
    // At the ends of the calendar the clocks in Zurich are ahead of it.
    for time in [DateTime::<Utc>::MIN_UTC, DateTime::<Utc>::MAX_UTC] {
        let local = time.with_timezone(&chrono_tz::Tz::Europe__Zurich);
        assert_eq!(hour_label(instant(time)), Some(local.format("%H:%M").to_string()));
        assert_eq!(day_label(instant(time)), Some(local.format("%d.%m.").to_string()));
    }
    assert_eq!(hour_label(instant(DateTime::<Utc>::MAX_UTC)), Some("00:59".to_string()));
    assert_eq!(day_label(instant(DateTime::<Utc>::MAX_UTC)), Some("01.01.".to_string()));
    for hours in 0..2000 {
        let time = Utc.timestamp_opt(1_700_000_000 + hours * 12_345, 0).unwrap();
        let local = time.with_timezone(&chrono_tz::Tz::Europe__Zurich);
        assert_eq!(hour_label(instant(time)), Some(local.format("%H:%M").to_string()));
        assert_eq!(day_label(instant(time)), Some(local.format("%d.%m.").to_string()));
    }
}

fn instant(time: DateTime<Utc>) -> Instant {
    Instant { seconds: time.timestamp(), nanos: time.timestamp_subsec_nanos() }
}

#[test]
fn datetime_midpoint() {
    let a = instant(Utc.with_ymd_and_hms(2025, 1, 1, 0, 0, 0).unwrap());
    let z = instant(Utc.with_ymd_and_hms(2025, 1, 1, 10, 0, 0).unwrap());
    let m = a.linear_interpolate(&z, b(0.5));
    assert_eq!(m, instant(Utc.with_ymd_and_hms(2025, 1, 1, 5, 0, 0).unwrap()));
}

#[test]
fn datetime_endpoints() {
    let a = instant(Utc.with_ymd_and_hms(2025, 1, 1, 0, 0, 0).unwrap());
    let z = instant(Utc.with_ymd_and_hms(2025, 1, 1, 10, 0, 0).unwrap());
    assert_eq!(a.linear_interpolate(&z, b(0.0)), a);
    assert_eq!(a.linear_interpolate(&z, b(1.0)), z);
}

#[test]
fn datetime_fractions() {
    let a = Instant { seconds: -1, nanos: 999_999_999 };
    let z = Instant { seconds: 2, nanos: 1 };
    // Two seconds and two nanoseconds lie between them.
    assert_eq!(a.linear_interpolate(&z, b(0.25)), Instant { seconds: 0, nanos: 499_999_999 });
    assert_eq!(z.linear_interpolate(&a, b(0.25)), Instant { seconds: 1, nanos: 500_000_001 });
}

#[test]
fn long_ways_end_at_their_last_instant() {
    let a = instant(Utc.with_ymd_and_hms(1700, 1, 1, 0, 0, 0).unwrap());
    let z = instant(Utc.with_ymd_and_hms(2100, 1, 1, 0, 0, 0).unwrap());
    assert_eq!(a.linear_interpolate(&z, b(0.0)), a);
    assert_eq!(a.linear_interpolate(&z, b(1.0)), z);
    assert_eq!(z.linear_interpolate(&a, b(1.0)), a);
    assert_eq!(
        a.linear_interpolate(&z, b(0.5)),
        instant(Utc.with_ymd_and_hms(1900, 1, 1, 12, 0, 0).unwrap())
    );
    // A double precision number does not hold these spans to the nanosecond.
    for (seconds, nanos) in [(9_007_200, 1), (400_000_000, 123_456_789), (9_223_372_036, 854_775_807)] {
        let from = Instant { seconds: -5, nanos: 7 };
        let to = Instant { seconds: seconds - 5, nanos: nanos + 7 };
        assert_eq!(from.linear_interpolate(&to, b(1.0)), to);
        assert_eq!(to.linear_interpolate(&from, b(1.0)), from);
    }
    // From one end of the calendar to the other.
    let first = Instant { seconds: -8_334_601_228_800, nanos: 0 };
    let last = Instant { seconds: 8_210_266_876_799, nanos: 999_999_999 };
    assert_eq!(first.linear_interpolate(&last, b(1.0)), last);
    assert_eq!(last.linear_interpolate(&first, b(1.0)), first);
    assert_eq!(
        first.linear_interpolate(&last, b(0.25)),
        Instant { seconds: -4_198_384_202_401, nanos: 999_999_999 }
    );
    assert_eq!(first.linear_interpolate(&last, b(1e-300)), first);
}

#[test]
fn charts_are_laid_out() {
    assert!(draft_chart(&vec![]).is_none());
    let points = vec![point(7200, 18.0), point(0, 20.0), point(3600, 19.0)];
    let chart = draft_chart(&points).unwrap();
    assert_eq!((chart.x_min.seconds, chart.x_max.seconds), (0, 7200));
    // 17.5 to 20.5, half a degree more on either side.
    assert_eq!((f(chart.y_lo), f(chart.y_hi)), (17.0, 21.0));
    let band: Vec<(i64, f64)> = chart.band.iter().map(|p| (p.0.seconds, f(p.1))).collect();
    assert_eq!(
        band,
        vec![(7200, 17.5), (0, 19.5), (3600, 18.5), (3600, 19.5), (0, 20.5), (7200, 18.5)]
    );
    assert_eq!(chart.line.len(), 25);
    assert!(band_outline(&vec![]).is_empty());
}

#[test]
fn labels_have_one_decimal() {
    assert_eq!(temperature_label(b(17.25)), "17.2°C");
    assert_eq!(temperature_label(b(-0.5)), "-0.5°C");
}

#[test]
fn parts_of_the_image_are_placed() {
    assert_eq!(charts_height(1792), 1632);
    assert_eq!(note_position(1440, 736), (640, 368));
    let gap = (36f32 * 1.3) as i32;
    assert_eq!(footer_positions(1440, 160), ((1392, 80 - gap / 2), (1392, 80 + gap / 2)));
}

fn date(year: i32, month: u32, day: u32) -> Date {
    Date { days: NaiveDate::from_ymd_opt(year, month, day).unwrap().num_days_from_ce() }
}

fn hour(day: Date, hour: u8) -> HourlyTemperature {
    HourlyTemperature {
        aggregation_date: day,
        aggregation_hour: hour,
        minimum_temperature: b(1.0),
        maximum_temperature: b(3.0),
        average_temperature: b(2.0),
    }
}

#[test]
fn days_lie_at_noon_in_zurich() {
    let day = |d: Date| DailyTemperature {
        aggregation_date: d,
        minimum_temperature: b(1.0),
        maximum_temperature: b(3.0),
        average_temperature: b(2.0),
    };
    let points = daily_points(&[
        day(date(2025, 7, 15)),
        day(date(2025, 1, 15)),
        day(Date { days: i32::MAX }),
    ]);
    let xs: Vec<Instant> = points.iter().map(|p| p.x).collect();
    assert_eq!(
        xs,
        vec![
            instant(Utc.with_ymd_and_hms(2025, 7, 15, 10, 0, 0).unwrap()),
            instant(Utc.with_ymd_and_hms(2025, 1, 15, 11, 0, 0).unwrap()),
        ]
    );
    assert_eq!((points[0].min, points[0].max, points[0].avg), (b(1.0), b(3.0), b(2.0)));
}

#[test]
fn hours_are_those_of_the_last_day_in_order() {
    let now = Utc.with_ymd_and_hms(2025, 7, 15, 12, 0, 0).unwrap();
    let today = date(2025, 7, 15);
    let yesterday = date(2025, 7, 14);
    // 14:00 in Zurich is now. Yesterday's 14:00 is just recent enough, and there is no hour 24.
    let hourly =
        [hour(today, 13), hour(yesterday, 13), hour(yesterday, 14), hour(today, 0), hour(today, 24)];
    let xs: Vec<i64> =
        hourly_points_at(&hourly, instant(now)).iter().map(|p| p.x.seconds - now.timestamp()).collect();
    assert_eq!(xs, vec![-24 * 3600, -14 * 3600, -3600]);
    // Hours that are yet to begin are left out.
    let later = [hour(today, 14), hour(today, 15), hour(today, 23), hour(today, 13)];
    let xs: Vec<i64> =
        hourly_points_at(&later, instant(now)).iter().map(|p| p.x.seconds - now.timestamp()).collect();
    assert_eq!(xs, vec![-3600, 0]);
    let a_bit_later = Instant { nanos: 1, ..instant(now) };
    assert_eq!(hourly_points_at(&hourly, a_bit_later).len(), 2);
    assert!(hourly_points(&hourly).is_empty());
}

#[test]
fn skipped_and_repeated_hours_have_no_point() {
    // The clocks skip from 2 to 3 on 30 March 2025 and go back from 3 to 2 on 26 October 2025.
    let spring = date(2025, 3, 30);
    let noon = Instant { seconds: Utc.with_ymd_and_hms(2025, 3, 30, 12, 0, 0).unwrap().timestamp(), nanos: 0 };
    let found = hourly_points_at(&[hour(spring, 1), hour(spring, 2), hour(spring, 3)], noon);
    assert_eq!(found.len(), 2);
    assert_eq!(found[1].x.seconds - found[0].x.seconds, 3600);
    let autumn = date(2025, 10, 26);
    let noon = Instant { seconds: Utc.with_ymd_and_hms(2025, 10, 26, 12, 0, 0).unwrap().timestamp(), nanos: 0 };
    let found = hourly_points_at(&[hour(autumn, 1), hour(autumn, 2), hour(autumn, 3)], noon);
    assert_eq!(found.len(), 2);
    assert_eq!(found[1].x.seconds - found[0].x.seconds, 3 * 3600);
}
