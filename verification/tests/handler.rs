use chrono::{Datelike, NaiveDate, TimeZone, Utc};
use gfroerli_bot::api::{DailyTemperature, HourlyTemperature, Sensor, SensorId, Sponsor, SponsorId, SponsorType};
use gfroerli_bot::binary64::Binary64;
use gfroerli_bot::calendar::{Date, Instant};
use gfroerli_bot::handler::{
    about_command, alert_commands, answer_alerts, answer_sponsor, answer_stats, answer_stats_at,
    answer_temp, answer_temp_at, answer_unalert, begin_alert, begin_alerts, begin_lookup,
    begin_unalert, decide_alert, find_command, parse_threshold, pick_sensor, sensor_commands,
    sensor_name, sponsor_commands, stats_window, stats_window_at, AlertChange, AlertRequest, Command,
    Lookup, UnalertRequest,
};
use gfroerli_bot::identity::Identity;
use gfroerli_bot::replies::{ALERT_USAGE, UNALERT_USAGE};
use gfroerli_bot::store::{Alert, AlertStatus};

fn b(x: f64) -> Binary64 {
    Binary64 { bits: x.to_bits() }
}

fn date(year: i32, month: u32, day: u32) -> Date {
    Date { days: NaiveDate::from_ymd_opt(year, month, day).unwrap().num_days_from_ce() }
}

fn make_sensor(id: u32, name: &str, temp: Option<f64>) -> Sensor {
    Sensor {
        id: SensorId(id),
        device_name: name.to_string(),
        caption: None,
        latest_temperature: temp.map(b),
        latest_measurement_at: None,
        maximum_temperature: None,
    }
}

fn sample_sensors() -> Vec<Sensor> {
    vec![
        make_sensor(1, "Aare Bern", Some(18.3)),
        make_sensor(3, "Aare Thun", Some(17.1)),
        make_sensor(7, "Limmat Zürich", None),
    ]
}

fn make_alert(uid: i64, sensor: u32, threshold: f64) -> Alert {
    let user = Identity::parse("ABCD1234").unwrap();
    Alert::created(uid, &user, SensorId(sensor), b(threshold), 0)
}

#[test]
fn accepts_valid() {
    for (input, expected) in [("20", 20.0), ("23.5", 23.5), ("5", 5.0), ("40", 40.0)] {
        assert_eq!(parse_threshold(input), Ok(b(expected)));
    }
}

#[test]
fn rejects_invalid() {
    for input in ["4.9", "40.1", "hot", ""] {
        assert!(parse_threshold(input).is_err());
    }
    assert_eq!(
        parse_threshold("hot"),
        Err("\"hot\" is not a valid temperature.\n\nExample: /alert Aare 20".to_string())
    );
    assert_eq!(
        parse_threshold("41"),
        Err("The temperature must be between 5°C and 40°C.".to_string())
    );
}

#[test]
fn thresholds_have_a_range() {
    for (text, x) in [("5", 5.0), ("5.0", 5.0), ("20", 20.0), ("40", 40.0), ("40.0", 40.0)] {
        assert_eq!(parse_threshold(text), Ok(b(x)));
    }
    for text in ["4.9", "4.999999999999", "40.1", "40.00000000001", "-20", "nan", "inf", "0", "1e3"] {
        assert_eq!(
            parse_threshold(text),
            Err("The temperature must be between 5°C and 40°C.".to_string())
        );
    }
}

/// What `parse_threshold` gives, from the number that the standard library reads.
fn threshold_by_std(raw: &str) -> Result<Binary64, String> {
    let value: f64 = raw
        .parse()
        .map_err(|_| format!("\"{raw}\" is not a valid temperature.\n\nExample: /alert Aare 20"))?;
    if !(5.0..=40.0).contains(&value) {
        return Err("The temperature must be between 5°C and 40°C.".to_string());
    }
    Ok(b(value))
}

#[test]
fn thresholds_are_read_in_every_notation() {
    let texts = [
        "20", "+20", "-20", "20.", ".5", "020.50", "2e1", "2E+1", "200e-1", "0.2e2", ".2e2", "1e1",
        "4e1", "4.0e1", "5e0", "39.99999999999999999999", "40.00000000000000000001", "5.0000",
        "4.99999999999999999999", "4.9999999999999993", "40.000000000000003", "40.00000000000001",
        "12.3456789012345678901234567890", "7.7", "33.333333333333333333333333333333333333333333",
        "20e", "20e+", "e20", ".", "", "+", "-", "+.", "20.5.1", "20 ", " 20", "2_0", "0x14", "20,5",
        "inf", "-INF", "Infinity", "NaN", "+nan", "infinit", "1e400", "1e-400", "9999999999", "0",
        "-0", "0.0000", "0.00000000000000000000000000000000002e36", "20000000000000000000000e-21",
        "20e99999999999999999999999999999999", "20e-99999999999999999999999999999999", "0e99", "6e00",
        "5.5511151231257827021181583404541015625", "16.0000000000000017763568394002504646778106689453125",
        "16.00000000000000177635683940025046467781066894531251", "8e+000", "20e0x", "20f", "２０",
    ];
    for text in texts {
        assert_eq!(parse_threshold(text), threshold_by_std(text), "{text:?}");
    }
}

#[test]
fn thresholds_are_rounded_as_the_standard_library_does() {
    let mut seed: u64 = 0x9e37_79b9_7f4a_7c15;
    for _ in 0..400 {
        seed = seed.wrapping_mul(6364136223846793005).wrapping_add(1442695040888963407);
        let whole = (seed >> 33) % 42;
        let fraction = seed.wrapping_mul(0xd134_2543_de82_ef95);
        let more = fraction.rotate_left(17);
        let text = format!("{whole}.{fraction}{more}");
        assert_eq!(parse_threshold(&text), threshold_by_std(&text), "{text}");
        let shifted = format!("{whole}{fraction}e-{}", fraction.to_string().len());
        assert_eq!(parse_threshold(&shifted), threshold_by_std(&shifted), "{shifted}");
        // Halfway between two neighbouring numbers, and a little beside it.
        let number = f64::from_bits((20.0f64 + (seed % 19) as f64).to_bits() + (fraction >> 40));
        let next = f64::from_bits(number.to_bits() + 1);
        let middle = format!("{:.60}", number);
        let middle = middle.trim_end_matches('0');
        assert_eq!(parse_threshold(middle), threshold_by_std(middle), "{middle}");
        let above = format!("{:.60}", next);
        assert_eq!(parse_threshold(&above), threshold_by_std(&above), "{above}");
    }
}

#[test]
fn commands_are_found() {
    assert_eq!(find_command("sensors"), Command::Sensors);
    assert_eq!(find_command("temp"), Command::Temp);
    assert_eq!(find_command("stats"), Command::Stats);
    assert_eq!(find_command("sponsors"), Command::Sponsors);
    assert_eq!(find_command("sponsor"), Command::Sponsor);
    assert_eq!(find_command("alert"), Command::Alert);
    assert_eq!(find_command("alerts"), Command::Alerts);
    assert_eq!(find_command("unalert"), Command::Unalert);
    assert_eq!(find_command("about"), Command::About);
    assert_eq!(find_command("help"), Command::Help);
    assert_eq!(find_command("Temp"), Command::Help);
    assert_eq!(find_command(""), Command::Help);
}

#[test]
fn listed_commands_are_found() {
    let mut listed = sensor_commands();
    listed.extend(sponsor_commands());
    listed.extend(alert_commands());
    listed.push(about_command());
    assert_eq!(listed.len(), 9);
    for (name, description) in listed {
        assert_ne!(find_command(name), Command::Help);
        assert!(!description.is_empty());
    }
}

#[test]
fn lookups_need_a_sensor() {
    match begin_lookup("stats", " \t ") {
        Lookup::Reply(message) => assert_eq!(
            message,
            "Please specify a sensor name or ID.\n\nExample: /stats Aare\nExample: /stats 1\n\nUse /sensors to list all available sensors."
        ),
        Lookup::Find(_) => panic!("there is nothing to find"),
    }
    assert!(matches!(begin_lookup("temp", "  Aare Bern "), Lookup::Find(query) if query == "Aare Bern"));
}

#[test]
fn picks_one_sensor() {
    assert_eq!(pick_sensor("thun", sample_sensors(), "/temp 1").unwrap().id, SensorId(3));
    assert_eq!(pick_sensor("7", sample_sensors(), "/temp 1").unwrap().id, SensorId(7));
    assert!(pick_sensor("rhein", sample_sensors(), "/temp 1")
        .unwrap_err()
        .starts_with("No sensor found matching \"rhein\"."));
    assert!(pick_sensor("aare", sample_sensors(), "/alert 1 20")
        .unwrap_err()
        .ends_with("(e.g. /alert 1 20)."));
}

#[test]
fn temperatures_are_answered() {
    assert_eq!(answer_temp("bern", sample_sensors()), "Aare Bern: *18.3°C* 😌");
    assert_eq!(answer_temp("limmat", sample_sensors()), "Limmat Zürich: no recent measurement available");
    let mut sensor = make_sensor(9, "Reuss", Some(9.0));
    sensor.latest_measurement_at = Some(Instant { seconds: 1000, nanos: 0 });
    let now = Instant { seconds: 1000 + 3 * 3600, nanos: 5 };
    assert_eq!(answer_temp_at("9", vec![sensor], now), "Reuss: *9.0°C* 🥶 (_3 hours ago_)");
}

#[test]
fn sponsors_are_answered() {
    let sensor = make_sensor(1, "Aare Bern", None);
    assert_eq!(
        answer_sponsor(&sensor, &None),
        "No sponsor information available for \"Aare Bern\"."
    );
    let sponsor = Sponsor {
        id: SponsorId(1),
        name: "Threema".to_string(),
        description: None,
        sponsor_type: SponsorType::Sponsor,
        created_at: None,
        sensor_ids: vec![],
    };
    assert_eq!(
        answer_sponsor(&sensor, &Some(sponsor)),
        "The sensor \"Aare Bern\" is sponsored by *Threema*."
    );
}

#[test]
fn stats_cover_thirty_days() {
    let noon = Utc.with_ymd_and_hms(2025, 7, 15, 12, 0, 0).unwrap().timestamp();
    let window = stats_window_at(Instant { seconds: noon, nanos: 0 });
    assert_eq!(window.today, date(2025, 7, 15));
    assert_eq!(window.daily_from, date(2025, 6, 15));
    assert_eq!(window.hourly_from, date(2025, 7, 14));
    assert_eq!((window.daily_limit, window.hourly_limit), (30, 48));
    // The last second of a day and the first one of the next.
    let midnight = Utc.with_ymd_and_hms(2025, 7, 16, 0, 0, 0).unwrap().timestamp();
    assert_eq!(stats_window_at(Instant { seconds: midnight - 1, nanos: 999_999_999 }).today, date(2025, 7, 15));
    assert_eq!(stats_window_at(Instant { seconds: midnight, nanos: 0 }).today, date(2025, 7, 16));
    // Before 1970.
    assert_eq!(stats_window_at(Instant { seconds: -1, nanos: 0 }).today, date(1969, 12, 31));
    let now = stats_window();
    assert!(now.today.days >= date(2025, 1, 1).days);
    assert_eq!(now.today.days - now.daily_from.days, 30);
}

fn hour(day: Date, hour: u8, avg: f64) -> HourlyTemperature {
    HourlyTemperature {
        aggregation_date: day,
        aggregation_hour: hour,
        minimum_temperature: b(avg - 1.0),
        maximum_temperature: b(avg + 1.0),
        average_temperature: b(avg),
    }
}

#[test]
fn stats_are_answered() {
    let mut sensor = make_sensor(1, "Aare Bern", Some(18.3));
    sensor.maximum_temperature = Some(b(27.4));
    let today = date(2025, 7, 15);
    let yesterday = date(2025, 7, 14);
    // 14:30 in Zurich.
    let now = Instant {
        seconds: Utc.with_ymd_and_hms(2025, 7, 15, 12, 30, 0).unwrap().timestamp(),
        nanos: 0,
    };
    // Out of order, and the first one is too old.
    let hourly = vec![hour(yesterday, 14, 30.0), hour(today, 14, 20.0), hour(yesterday, 15, 18.0)];
    let daily = vec![
        DailyTemperature {
            aggregation_date: yesterday,
            minimum_temperature: b(15.0),
            maximum_temperature: b(25.0),
            average_temperature: b(20.0),
        },
        DailyTemperature {
            aggregation_date: today,
            minimum_temperature: b(16.0),
            maximum_temperature: b(22.0),
            average_temperature: b(19.0),
        },
    ];
    let answer = answer_stats_at(&sensor, &hourly, &daily, now, now);
    assert_eq!(
        answer.text,
        "Aare Bern\n\n🌡️ *18.3°C* 😌\n\n\
         Over the last 24 hours, the temperature ranged from 17.0°C to 21.0°C, averaging 19.0°C.\n\n\
         Over the last 30 days, the temperature ranged from 15.0°C to 25.0°C, averaging 19.5°C.\n\n\
         The highest temperature ever measured at this location was 27.4°C."
    );
    let at = |y: i32, m: u32, d: u32, h: u32| Utc.with_ymd_and_hms(y, m, d, h, 0, 0).unwrap().timestamp();
    // 15:00 and 14:00 in Zurich are 13:00 and 12:00 in UTC.
    let hours: Vec<i64> = answer.hourly_chart.iter().map(|p| p.x.seconds).collect();
    assert_eq!(hours, vec![at(2025, 7, 14, 13), at(2025, 7, 15, 12)]);
    let days: Vec<i64> = answer.daily_chart.iter().map(|p| p.x.seconds).collect();
    assert_eq!(days, vec![at(2025, 7, 14, 10), at(2025, 7, 15, 10)]);
    // Nothing of that is recent today.
    let old = answer_stats(&sensor, &hourly, &[]);
    assert!(old.hourly_chart.is_empty());
    assert!(!old.text.contains("Over the last"));
}

#[test]
fn alerts_are_taken_apart() {
    for args in ["", "  ", "Aare", " 20 "] {
        assert!(matches!(begin_alert(args), AlertRequest::Reply(message) if message == ALERT_USAGE));
    }
    match begin_alert("  Aare Bern \t 20 ") {
        AlertRequest::Parts { query, temperature } => {
            assert_eq!(query, "Aare Bern");
            assert_eq!(temperature, "20");
        }
        AlertRequest::Reply(_) => panic!("there is an alert to set"),
    }
}

#[test]
fn new_alerts_are_added() {
    let sensor = make_sensor(7, "Aare", None);
    let decision = decide_alert(&vec![], &sensor, b(20.0));
    assert_eq!(decision.change, AlertChange::Add { sensor_id: SensorId(7), threshold: b(20.0) });
    assert!(decision.reply.starts_with("🔔 Alert set for *Aare*."));
}

#[test]
fn alerts_for_the_same_sensor_are_changed() {
    let sensor = make_sensor(7, "Aare", None);
    let existing = vec![make_alert(11, 3, 20.0), make_alert(12, 7, 20.0)];
    let decision = decide_alert(&existing, &sensor, b(25.0));
    assert_eq!(decision.change, AlertChange::Reset { uid: 12, threshold: b(25.0) });
    assert!(decision.reply.starts_with("🔔 Updated your alert for *Aare* to *25.0°C*."));
}

#[test]
fn alerts_at_the_same_threshold_are_kept() {
    let sensor = make_sensor(7, "Aare", None);
    let existing = vec![make_alert(12, 7, 20.0)];
    let decision = decide_alert(&existing, &sensor, b(20.0));
    assert_eq!(decision.change, AlertChange::Keep);
    assert!(decision.reply.starts_with("You already have an alert for *Aare* at 20.0°C."));
}

#[test]
fn alerts_at_any_other_threshold_are_updated() {
    let sensor = make_sensor(7, "Aare", None);
    let existing = vec![make_alert(12, 7, 20.0)];
    for other in [20.04, 19.96, 20.06, 20.0000001, 5.0, 40.0] {
        let decision = decide_alert(&existing, &sensor, b(other));
        assert_eq!(decision.change, AlertChange::Reset { uid: 12, threshold: b(other) });
        assert!(decision.reply.starts_with("🔔 Updated your alert for *Aare*"));
    }
}

#[test]
fn ten_alerts_are_enough() {
    let ten: Vec<Alert> = (0..10).map(|i| make_alert(i, i as u32, 20.0)).collect();
    let decision = decide_alert(&ten, &make_sensor(99, "Reuss", None), b(20.0));
    assert_eq!(decision.change, AlertChange::Keep);
    assert!(decision.reply.starts_with("You already have the maximum of 10 alerts."));
    // One of them can still be changed.
    let decision = decide_alert(&ten, &make_sensor(9, "Reuss", None), b(21.0));
    assert_eq!(decision.change, AlertChange::Reset { uid: 9, threshold: b(21.0) });
    // And nine leave room for one.
    let nine: Vec<Alert> = (0..9).map(|i| make_alert(i, i as u32, 20.0)).collect();
    let decision = decide_alert(&nine, &make_sensor(99, "Reuss", None), b(20.0));
    assert_eq!(decision.change, AlertChange::Add { sensor_id: SensorId(99), threshold: b(20.0) });
}

#[test]
fn removals_are_taken_apart() {
    assert!(matches!(begin_unalert("  "), UnalertRequest::Reply(message) if message == UNALERT_USAGE));
    for args in ["all", " ALL ", "aLl"] {
        assert!(matches!(begin_unalert(args), UnalertRequest::All));
    }
    assert!(matches!(begin_unalert(" Aare Bern "), UnalertRequest::One(query) if query == "Aare Bern"));
    assert!(matches!(begin_unalert("allaman"), UnalertRequest::One(_)));
}

#[test]
fn removals_are_answered() {
    let sensor = make_sensor(7, "Aare", None);
    assert_eq!(answer_unalert(&sensor, true), "🔕 Removed your alert for *Aare*.");
    assert_eq!(answer_unalert(&sensor, false), "You don't have an alert for *Aare*.");
}

#[test]
fn alerts_are_listed_by_name() {
    assert!(begin_alerts(&vec![]).unwrap().starts_with("You have no alerts yet."));
    let mut alerts = vec![make_alert(1, 3, 20.0), make_alert(2, 8, 18.5)];
    alerts[1].status = AlertStatus::Notified;
    assert_eq!(begin_alerts(&alerts), None);
    assert_eq!(
        answer_alerts(&alerts, &sample_sensors()),
        "Your alerts:\n\n- *Aare Thun* at 20.0°C (_watching_)\n- *#8* at 18.5°C (_already notified_)"
    );
}

#[test]
fn the_last_listed_name_counts() {
    let sensors = vec![make_sensor(1, "Old", None), make_sensor(1, "New", None), make_sensor(2, "Other", None)];
    assert_eq!(sensor_name(&sensors, SensorId(1)), "New");
    assert_eq!(sensor_name(&sensors, SensorId(3)), "#3");
}
