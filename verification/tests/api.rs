use chrono::{DateTime, TimeDelta, TimeZone, Utc};
use gfroerli_bot::api::{
    filter_sensors, format_relative_time, format_relative_time_at, format_sensor_list_text,
    format_sponsor_list_text, read_optional_timestamp, temperature_emoji, Sensor, SensorId, Sponsor,
    SponsorId, SponsorType,
};
use gfroerli_bot::binary64::Binary64;
use gfroerli_bot::calendar::Instant;

fn b(x: f64) -> Binary64 {
    Binary64 { bits: x.to_bits() }
}

fn instant(time: DateTime<Utc>) -> Instant {
    Instant { seconds: time.timestamp(), nanos: time.timestamp_subsec_nanos() }
}

fn make_sensor(id: u32, name: &str, temp: Option<f64>, time: Option<DateTime<Utc>>) -> Sensor {
    Sensor {
        id: SensorId(id),
        device_name: name.to_string(),
        caption: None,
        latest_temperature: temp.map(b),
        latest_measurement_at: time.map(instant),
        maximum_temperature: None,
    }
}

fn make_sponsor(
    id: u32,
    name: &str,
    sponsor_type: SponsorType,
    created_at: Option<DateTime<Utc>>,
    sensor_ids: Vec<u32>,
) -> Sponsor {
    Sponsor {
        id: SponsorId(id),
        name: name.to_string(),
        description: None,
        sponsor_type,
        created_at: created_at.map(instant),
        sensor_ids,
    }
}

fn ts(year: i32, month: u32, day: u32) -> DateTime<Utc> {
    Utc.with_ymd_and_hms(year, month, day, 0, 0, 0).unwrap()
}

#[test]
fn with_temperature() {
    let sensor = make_sensor(13, "Bennau, Alp", Some(34.5), None);
    assert_eq!(sensor.format_list_entry(), "Bennau, Alp (#13) \u{2013} 34.5°C 🥵");
}

#[test]
fn without_temperature() {
    let sensor = make_sensor(42, "Aare Bern", None, None);
    assert_eq!(sensor.format_list_entry(), "Aare Bern (#42)");
}

#[test]
fn unknown() {
    assert_eq!(temperature_emoji(None), "❓");
}

#[test]
fn buckets() {
    let cases = [
        (-5.0, "🥶"),
        (9.9, "🥶"),
        (10.0, "😨"),
        (15.0, "😨"),
        (18.0, "😨"),
        (18.1, "😌"),
        (20.0, "😌"),
        (21.0, "😌"),
        (21.1, "😎"),
        (23.0, "😎"),
        (24.0, "😎"),
        (24.1, "🥵"),
        (30.0, "🥵"),
        (f64::NAN, "🥵"),
        (f64::NEG_INFINITY, "🥶"),
    ];
    for (temp, expected) in cases {
        assert_eq!(temperature_emoji(Some(b(temp))), expected);
    }
}

#[test]
fn with_temp_and_time() {
    let time = Utc::now() - TimeDelta::hours(2);
    let sensor = make_sensor(1, "Aare Bern", Some(18.3), Some(time));
    assert_eq!(sensor.format_temperature(), "Aare Bern: *18.3°C* 😌 (_2 hours ago_)");
    assert_eq!(sensor.format_temperature_reading(), "*18.3°C* 😌 (_2 hours ago_)");
}

#[test]
fn with_temp_no_time() {
    let sensor = make_sensor(1, "Aare Bern", Some(18.3), None);
    assert_eq!(sensor.format_temperature(), "Aare Bern: *18.3°C* 😌");
}

#[test]
fn no_measurement() {
    let sensor = make_sensor(1, "Aare Bern", None, None);
    assert_eq!(sensor.format_temperature(), "Aare Bern: no recent measurement available");
}

#[test]
fn rounds_to_one_decimal() {
    let sensor = make_sensor(1, "Aare Bern", Some(18.347), None);
    assert_eq!(sensor.format_temperature(), "Aare Bern: *18.3°C* 😌");
}

#[test]
fn relative_time() {
    let cases = [
        (0, "a few seconds ago"),
        (30, "a few seconds ago"),
        (60, "1 minute ago"),
        (300, "5 minutes ago"),
        (3540, "59 minutes ago"),
        (3600, "1 hour ago"),
        (10800, "3 hours ago"),
        (82800, "23 hours ago"),
        (86400, "1 day ago"),
        (604800, "7 days ago"),
    ];
    for (seconds_ago, expected) in cases {
        let time = Utc::now() - TimeDelta::seconds(seconds_ago);
        assert_eq!(format_relative_time(instant(time)), expected);
    }
}

#[test]
fn relative_time_at_an_instant() {
    let now = Instant { seconds: 1_000_000, nanos: 250 };
    let at = |seconds: i64, nanos: u32| format_relative_time_at(Instant { seconds, nanos }, now);
    // Not quite a minute, and a minute.
    assert_eq!(at(1_000_000 - 60, 251), "a few seconds ago");
    assert_eq!(at(1_000_000 - 60, 250), "1 minute ago");
    assert_eq!(at(1_000_000 - 119, 0), "1 minute ago");
    assert_eq!(at(1_000_000 - 120, 0), "2 minutes ago");
    assert_eq!(at(1_000_000 - 7199, 0), "1 hour ago");
    assert_eq!(at(1_000_000 - 172_799, 0), "1 day ago");
    assert_eq!(at(1_000_000 - 172_800, 0), "2 days ago");
    // What is yet to come counts as just now.
    assert_eq!(at(2_000_000, 0), "a few seconds ago");
    assert_eq!(at(1_000_000, 999), "a few seconds ago");
}

#[test]
fn timestamps_are_read() {
    assert_eq!(read_optional_timestamp(None), Ok(None));
    let read = read_optional_timestamp(Some(1752589800)).unwrap().unwrap();
    assert_eq!(read, instant(Utc.with_ymd_and_hms(2025, 7, 15, 14, 30, 0).unwrap()));
    let before = read_optional_timestamp(Some(-1)).unwrap().unwrap();
    assert_eq!(before, Instant { seconds: -1, nanos: 0 });
}

#[test]
fn timestamps_outside_the_calendar_are_refused() {
    for seconds in [8_210_266_876_799i64, -8_334_601_228_800] {
        assert!(read_optional_timestamp(Some(seconds)).is_ok());
        assert!(DateTime::from_timestamp(seconds, 0).is_some());
    }
    for (seconds, message) in [
        (8_210_266_876_800i64, "invalid timestamp: 8210266876800"),
        (-8_334_601_228_801, "invalid timestamp: -8334601228801"),
        (i64::MAX, "invalid timestamp: 9223372036854775807"),
        (i64::MIN, "invalid timestamp: -9223372036854775808"),
    ] {
        assert_eq!(read_optional_timestamp(Some(seconds)), Err(message.to_string()));
        assert!(DateTime::from_timestamp(seconds, 0).is_none());
    }
}

fn sample_sensors() -> Vec<Sensor> {
    vec![
        make_sensor(1, "Aare Bern", None, None),
        make_sensor(2, "Rhein Basel", None, None),
        make_sensor(3, "Aare Thun", None, None),
        make_sensor(42, "Limmat Zürich", None, None),
    ]
}

#[test]
fn by_id() {
    let matches = filter_sensors(sample_sensors(), "2");
    assert_eq!(matches.len(), 1);
    assert_eq!(matches[0].id, SensorId(2));
}

#[test]
fn by_id_no_match() {
    let matches = filter_sensors(sample_sensors(), "999");
    assert!(matches.is_empty());
}

#[test]
fn by_name_substring_case_insensitive() {
    let matches = filter_sensors(sample_sensors(), "aare");
    assert_eq!(matches.len(), 2);
    assert_eq!(matches[0].device_name, "Aare Bern");
    assert_eq!(matches[1].device_name, "Aare Thun");
}

#[test]
fn by_name_with_umlauts() {
    let matches = filter_sensors(sample_sensors(), "ZÜRICH");
    assert_eq!(matches.len(), 1);
    assert_eq!(matches[0].id, SensorId(42));
}

#[test]
fn by_name_no_match() {
    let matches = filter_sensors(sample_sensors(), "Nothing");
    assert!(matches.is_empty());
}

#[test]
fn by_name_single_match() {
    let matches = filter_sensors(sample_sensors(), "Rhein");
    assert_eq!(matches.len(), 1);
    assert_eq!(matches[0].device_name, "Rhein Basel");
}

#[test]
fn prefers_id_over_name() {
    // Query "42" matches ID 42 exactly, not "Sensor 42"
    let sensors = vec![
        make_sensor(42, "Aare Bern", None, None),
        make_sensor(5, "Sensor 42 Test", None, None),
    ];
    let matches = filter_sensors(sensors, "42");
    assert_eq!(matches.len(), 1);
    assert_eq!(matches[0].id, SensorId(42));
}

#[test]
fn with_sensors_sorted_alphabetically() {
    let sensors = vec![
        make_sensor(1, "Rhein Basel", None, None),
        make_sensor(2, "Aare Bern", None, None),
        make_sensor(3, "Limmat Zürich", None, None),
    ];
    assert_eq!(
        format_sensor_list_text(sensors),
        "Available sensors:\n\nAare Bern (#2)\nLimmat Zürich (#3)\nRhein Basel (#1)"
    );
}

#[test]
fn sensors_of_one_name_keep_their_order() {
    let sensors = vec![
        make_sensor(9, "Zug", None, None),
        make_sensor(7, "Aare", None, None),
        make_sensor(3, "Aare", Some(7.25), None),
        make_sensor(8, "Aar", None, None),
    ];
    assert_eq!(
        format_sensor_list_text(sensors),
        "Available sensors:\n\nAar (#8)\nAare (#7)\nAare (#3) \u{2013} 7.2°C 🥶\nZug (#9)"
    );
}

#[test]
fn api_empty() {
    assert_eq!(format_sensor_list_text(vec![]), "No sensors found.");
    assert_eq!(format_sponsor_list_text(vec![]), "No sponsors to list.");
}

#[test]
fn singular_and_plural() {
    let sponsors = vec![
        make_sponsor(1, "Threema", SponsorType::Sponsor, Some(ts(2020, 1, 1)), vec![10, 11, 12]),
        make_sponsor(2, "OST", SponsorType::Sponsor, Some(ts(2021, 1, 1)), vec![13]),
    ];
    assert_eq!(
        format_sponsor_list_text(sponsors),
        "Thanks to the following sponsors for supporting the Gfrörli project:\n\n\
         - Threema (_3 sensors_)\n\
         - OST (_1 sensor_)"
    );
}

#[test]
fn sorts_by_count_desc_then_created_at_asc() {
    let sponsors = vec![
        make_sponsor(1, "Newer", SponsorType::Sponsor, Some(ts(2023, 1, 1)), vec![13]),
        make_sponsor(2, "Older", SponsorType::Sponsor, Some(ts(2020, 1, 1)), vec![14]),
        make_sponsor(3, "Top", SponsorType::Sponsor, Some(ts(2022, 1, 1)), vec![10, 11, 12]),
    ];
    assert_eq!(
        format_sponsor_list_text(sponsors),
        "Thanks to the following sponsors for supporting the Gfrörli project:\n\n\
         - Top (_3 sensors_)\n\
         - Older (_1 sensor_)\n\
         - Newer (_1 sensor_)"
    );
}

#[test]
fn equal_sponsors_are_sorted_by_id_and_undated_ones_come_first() {
    let sponsors = vec![
        make_sponsor(5, "Five", SponsorType::Sponsor, Some(ts(2020, 1, 1)), vec![1]),
        make_sponsor(4, "Four", SponsorType::Sponsor, Some(ts(2020, 1, 1)), vec![2]),
        make_sponsor(9, "Nine", SponsorType::Sponsor, None, vec![3]),
        make_sponsor(8, "Eight", SponsorType::Sponsor, None, vec![3]),
    ];
    assert_eq!(
        format_sponsor_list_text(sponsors),
        "Thanks to the following sponsors for supporting the Gfrörli project:\n\n\
         - Eight (_1 sensor_)\n\
         - Nine (_1 sensor_)\n\
         - Four (_1 sensor_)\n\
         - Five (_1 sensor_)"
    );
}

#[test]
fn filters_non_sponsor_types() {
    let sponsors = vec![
        make_sponsor(1, "Threema", SponsorType::Sponsor, Some(ts(2020, 1, 1)), vec![10]),
        make_sponsor(
            2,
            "MeteoSwiss",
            SponsorType::PublicDataProvider,
            Some(ts(2019, 1, 1)),
            vec![11],
        ),
        make_sponsor(3, "Partner", SponsorType::Partner, Some(ts(2018, 1, 1)), vec![12]),
    ];
    assert_eq!(
        format_sponsor_list_text(sponsors),
        "Thanks to the following sponsors for supporting the Gfrörli project:\n\n\
         - Threema (_1 sensor_)"
    );
}

#[test]
fn excludes_zero_sensor_sponsors() {
    let sponsors = vec![
        make_sponsor(1, "Active", SponsorType::Sponsor, Some(ts(2020, 1, 1)), vec![10]),
        make_sponsor(2, "Ghost", SponsorType::Sponsor, Some(ts(2019, 1, 1)), vec![]),
    ];
    assert_eq!(
        format_sponsor_list_text(sponsors),
        "Thanks to the following sponsors for supporting the Gfrörli project:\n\n\
         - Active (_1 sensor_)"
    );
}

#[test]
fn prepositions() {
    assert_eq!(SponsorType::Sponsor.preposition(), "sponsored by");
    assert_eq!(SponsorType::PublicDataProvider.preposition(), "powered by");
    assert_eq!(SponsorType::Partner.preposition(), "powered by");
    assert_eq!(SponsorType::Unknown.preposition(), "powered by");
}

#[test]
fn copies_hold_the_same() {
    let mut sensor = make_sensor(6, "Kempraten", Some(18.3), Some(ts(2025, 7, 1)));
    sensor.caption = Some("Am See".to_string());
    sensor.maximum_temperature = Some(b(27.4));
    let copy = sensor.clone();
    assert_eq!(copy.id, SensorId(6));
    assert_eq!(copy.device_name, "Kempraten");
    assert_eq!(copy.caption.as_deref(), Some("Am See"));
    assert_eq!(copy.latest_temperature, Some(b(18.3)));
    assert_eq!(copy.latest_measurement_at, Some(instant(ts(2025, 7, 1))));
    assert_eq!(copy.maximum_temperature, Some(b(27.4)));
}

/// The type of the sponsor that a JSON object describes.
fn sponsor_type(json: &str) -> SponsorType {
    let value: serde_json::Value = serde_json::from_str(json).unwrap();
    SponsorType::from_name(value["sponsor_type"].as_str().unwrap())
}

#[test]
fn public_data_provider() {
    let json = r#"{"id": 2, "name": "MeteoSwiss", "sponsor_type": "public_data_provider"}"#;
    assert_eq!(sponsor_type(json), SponsorType::PublicDataProvider);
}

#[test]
fn partner() {
    let json = r#"{"id": 3, "name": "OST", "sponsor_type": "partner"}"#;
    assert_eq!(sponsor_type(json), SponsorType::Partner);
}

#[test]
fn unknown_type_falls_back() {
    let json = r#"{"id": 4, "name": "X", "sponsor_type": "future_thing"}"#;
    assert_eq!(sponsor_type(json), SponsorType::Unknown);
    assert_eq!(SponsorType::from_name("Sponsor"), SponsorType::Unknown);
    assert_eq!(SponsorType::from_name("sponsor"), SponsorType::Sponsor);
}

/// The time of the last measurement of the sensor that a JSON object describes.
fn measured_at(json: &str) -> Result<Option<Instant>, String> {
    let value: serde_json::Value = serde_json::from_str(json).unwrap();
    read_optional_timestamp(value["latest_measurement_at"].as_i64())
}

#[test]
fn valid_timestamp() {
    let json = r#"{"id": 1, "device_name": "Aare Bern", "latest_temperature": 18.3, "latest_measurement_at": 1752589800}"#;
    assert_eq!(
        measured_at(json),
        Ok(Some(instant(Utc.with_ymd_and_hms(2025, 7, 15, 14, 30, 0).unwrap())))
    );
}

#[test]
fn null_timestamp() {
    let json = r#"{"id": 1, "device_name": "Aare Bern", "latest_temperature": null, "latest_measurement_at": null}"#;
    assert_eq!(measured_at(json), Ok(None));
}
