use chrono::{Datelike, NaiveDate};
use gfroerli_bot::api::{Sensor, SensorId};
use gfroerli_bot::binary64::Binary64;
use gfroerli_bot::calendar::{local_clock, to_instant, Date, Instant, LocalTime};
use gfroerli_bot::client::{
    check_api_key, daily_endpoint, endpoint_url, has_no_sponsor, hourly_endpoint,
    log_request_duration, range_query, sensor_endpoint, sponsor_endpoint, SensorCache,
};
use gfroerli_bot::config::parse_args;
use gfroerli_bot::identity::Identity;
use gfroerli_bot::store::{
    removed_count, select_alert, select_alerts_of_user, select_all_alerts,
    was_removed, Alert, AlertStatus,
};

fn b(x: f64) -> Binary64 {
    Binary64 { bits: x.to_bits() }
}

fn date(year: i32, month: u32, day: u32) -> Date {
    Date { days: NaiveDate::from_ymd_opt(year, month, day).unwrap().num_days_from_ce() }
}

fn make_sensor(id: u32, name: &str) -> Sensor {
    Sensor {
        id: SensorId(id),
        device_name: name.to_string(),
        caption: None,
        latest_temperature: None,
        latest_measurement_at: None,
        maximum_temperature: None,
    }
}

#[test]
fn endpoints_of_a_sensor() {
    assert_eq!(sensor_endpoint(SensorId(7)), "/api/mobile_app/sensors/7");
    assert_eq!(sponsor_endpoint(SensorId(7)), "/api/mobile_app/sensors/7/sponsor");
    assert_eq!(daily_endpoint(SensorId(70)), "/api/mobile_app/sensors/70/daily_temperatures");
    assert_eq!(hourly_endpoint(SensorId(0)), "/api/mobile_app/sensors/0/hourly_temperatures");
    assert_eq!(endpoint_url("https://api.gfrör.li", "/api/sponsors"), "https://api.gfrör.li/api/sponsors");
}

#[test]
fn ranges_are_asked_for() {
    let query = range_query(date(2025, 6, 5), date(2025, 7, 15), 30);
    assert_eq!(
        query,
        vec![
            ("from", "2025-06-05".to_string()),
            ("to", "2025-07-15".to_string()),
            ("limit", "30".to_string()),
        ]
    );
}

#[test]
fn dates_are_written_as_in_iso_8601() {
    let text = |day: Date| range_query(day, day, 1)[0].1.clone();
    assert_eq!(text(date(2024, 2, 29)), "2024-02-29");
    assert_eq!(text(date(0, 1, 1)), "0000-01-01");
    assert_eq!(text(date(987, 12, 31)), "0987-12-31");
    assert_eq!(text(date(-1, 1, 1)), "-0001-01-01");
    assert_eq!(text(date(10000, 12, 31)), "+10000-12-31");
    assert_eq!(text(Date { days: 1 }), "0001-01-01");
    assert_eq!(text(Date { days: 0 }), "0000-12-31");
}

#[test]
fn days_are_counted_by_the_gregorian_calendar() {
    let lengths = [31, 28, 31, 30, 31, 30, 31, 31, 30, 31, 30, 31];
    for year in [-4001i32, -400, -1, 0, 1, 4, 100, 400, 1582, 1900, 1999, 2000, 2024, 2025, 2100] {
        let leap = year.rem_euclid(4) == 0 && (year.rem_euclid(100) != 0 || year.rem_euclid(400) == 0);
        let past = year - 1;
        let mut days =
            365 * past + past.div_euclid(4) - past.div_euclid(100) + past.div_euclid(400);
        for month in 1..=12u32 {
            let length = lengths[month as usize - 1] + u32::from(leap && month == 2);
            for day in 1..=length {
                days += 1;
                assert_eq!(date(year, month, day), Date { days });
            }
        }
    }
}

#[test]
fn answers_are_told_by_their_status() {
    let message = check_api_key(401).unwrap_err();
    assert_eq!(
        message,
        "Gfrörli API key is invalid (401 Unauthorized). \
         Check the api_key in your config or GFROERLI_BOT__GFROERLI__API_KEY env var."
    );
    for status in [200, 204, 400, 403, 404, 500] {
        assert_eq!(check_api_key(status), Ok(()));
    }
    assert!(has_no_sponsor(404));
    assert!(!has_no_sponsor(200));
    assert!(!has_no_sponsor(500));
}

#[test]
fn slow_requests_are_told() {
    let quick = log_request_duration("GET /api/sponsors", 1, 999_999_999);
    assert!(!quick.slow);
    assert_eq!(quick.line, "GET /api/sponsors completed in 2.0s");
    let edge = log_request_duration("HEAD /api/sponsors", 2, 0);
    assert!(!edge.slow);
    assert_eq!(edge.line, "HEAD /api/sponsors completed in 2.0s");
    assert!(log_request_duration("x", 2, 1).slow);
    assert!(log_request_duration("x", 3, 0).slow);
    assert_eq!(log_request_duration("x", 0, 153_260_000).line, "x completed in 153.3ms");
}

#[test]
fn the_cache_gives_back_what_was_put() {
    let mut cache = SensorCache::new();
    assert!(cache.get(0).is_none());
    let start = 5_000_000_000;
    cache.put(vec![make_sensor(1, "Aare"), make_sensor(2, "Rhein")], start);
    for now in [start, start + 1, start + 179_999_999_999] {
        let sensors = cache.get(now).unwrap();
        let names: Vec<&str> = sensors.iter().map(|s| s.device_name.as_str()).collect();
        assert_eq!(names, vec!["Aare", "Rhein"]);
    }
    assert!(cache.get(start + 180_000_000_000).is_none());
    cache.put(vec![], start + 180_000_000_000);
    assert!(cache.get(start + 180_000_000_001).unwrap().is_empty());
}

#[test]
fn config_paths_are_found() {
    let parse = |args: &[&str]| parse_args(&args.iter().map(|a| a.to_string()).collect());
    assert_eq!(parse(&[]), Ok(None));
    assert_eq!(parse(&["--verbose", "config.toml"]), Ok(None));
    assert_eq!(parse(&["--config", "config.toml"]), Ok(Some("config.toml".to_string())));
    assert_eq!(parse(&["-v", "--config", "a", "--config", "b"]), Ok(Some("a".to_string())));
    assert_eq!(parse(&["--config", "--config"]), Ok(Some("--config".to_string())));
    assert_eq!(parse(&["-v", "--config"]), Err("--config requires a path argument".to_string()));
}

#[test]
fn threema_ids_are_read() {
    for id in ["ECHOECHO", "*RICHTIG", "00000000", "ABCD1234"] {
        assert_eq!(Identity::parse(id).unwrap().text, id);
    }
    for id in ["", "ZUWENIG", "*NEINNEIN", "ECHÜECHÜ", "ECH_ECH_", "echoecho", "E*HOECHO"] {
        assert!(Identity::parse(id).is_none());
    }
}

#[test]
fn new_rows_watch_from_the_start() {
    let user = Identity::parse("ABCD1234").unwrap();
    let row = Alert::created(7, &user, SensorId(3), b(23.0), 1_752_589_800);
    assert_eq!(row.uid, 7);
    assert_eq!(row.threema_id, "ABCD1234");
    assert_eq!(row.sensor_id, SensorId(3));
    assert_eq!(row.threshold, b(23.0));
    assert_eq!(row.status, AlertStatus::Watching);
    assert_eq!((row.warm_streak, row.cold_streak), (0, 0));
    assert!(row.last_eval_date.is_none());
    assert_eq!(row.created_at_datetime(), Instant { seconds: 1_752_589_800, nanos: 0 });
    let odd = Alert { created_at: i64::MAX, ..row };
    assert_eq!(odd.created_at_datetime(), Instant { seconds: 0, nanos: 0 });
    assert_eq!(odd.state(), Default::default());
}

#[test]
fn statuses_are_written_in_lower_case() {
    for status in [AlertStatus::Watching, AlertStatus::Notified] {
        assert_eq!(AlertStatus::from_column(status.to_column()), Some(status));
    }
    assert_eq!(AlertStatus::Watching.to_column(), "watching");
    assert_eq!(AlertStatus::Notified.to_column(), "notified");
    assert_eq!(AlertStatus::from_column("Watching"), None);
}

#[test]
fn statements_select_all_columns() {
    let columns = "uid, threema_id, sensor_id, threshold, status, warm_streak, cold_streak, last_eval_date, created_at";
    assert_eq!(
        select_alert(),
        format!("SELECT {columns} FROM alerts WHERE threema_id = ? AND sensor_id = ?")
    );
    assert_eq!(
        select_alerts_of_user(),
        format!("SELECT {columns} FROM alerts WHERE threema_id = ? ORDER BY sensor_id")
    );
    assert_eq!(select_all_alerts(), format!("SELECT {columns} FROM alerts ORDER BY uid"));
    assert!(was_removed(1) && !was_removed(0));
    assert_eq!(removed_count(3), 3);
    assert_eq!(removed_count(u64::MAX), u32::MAX);
}

#[test]
fn clocks_in_zurich() {
    let summer = Instant { seconds: 1_752_589_800, nanos: 0 };
    assert_eq!(local_clock(summer), Some(LocalTime { day: date(2025, 7, 15), month: 7, month_day: 15, hour: 16, minute: 30 }));
    // An hour before midnight in UTC it is the next day in Zurich.
    let night = Instant { seconds: 1_752_620_400, nanos: 0 };
    assert_eq!(local_clock(night), Some(LocalTime { day: date(2025, 7, 16), month: 7, month_day: 16, hour: 1, minute: 0 }));
    assert_eq!(local_clock(Instant { seconds: i64::MIN, nanos: 0 }), None);
    assert_eq!(to_instant(date(2025, 7, 15), 16), Some(Instant { seconds: 1_752_588_000, nanos: 0 }));
    assert_eq!(to_instant(date(2025, 7, 15), 24), None);
    // The ends of the calendar.
    let first = NaiveDate::MIN.num_days_from_ce();
    let last = NaiveDate::MAX.num_days_from_ce();
    assert!(Date { days: first }.is_valid() && !Date { days: first - 1 }.is_valid());
    assert!(Date { days: last }.is_valid() && !Date { days: last + 1 }.is_valid());
    assert_eq!(to_instant(Date { days: last + 1 }, 0), None);
    // An hour before the end of the calendar the clocks show the day after it.
    let end = Instant { seconds: 8_210_266_876_799, nanos: 0 };
    let after = LocalTime { day: Date { days: last + 1 }, month: 1, month_day: 1, hour: 0, minute: 59 };
    assert_eq!(local_clock(end), Some(after));
    assert_eq!(local_clock(Instant { seconds: 8_210_266_876_800, nanos: 0 }), None);
}
