use chrono::{TimeDelta, Utc};
use gfroerli_bot::api::{Sensor, SensorId, Sponsor, SponsorId, SponsorType};
use gfroerli_bot::binary64::Binary64;
use gfroerli_bot::calendar::Instant;
use gfroerli_bot::identity::Identity;
use gfroerli_bot::replies::{
    compute_stats, format_about_text, format_alert_added, format_alert_limit_reached,
    format_alert_removed, format_alert_unchanged, format_alert_updated, format_alerts_cleared,
    format_alerts_list, format_no_alert_for, format_notification, format_sponsor_text,
    format_stats_text, format_stats_text_at, italicize_paragraphs, resolve_single_sensor, AlertEntry,
    TempStats,
};
use gfroerli_bot::store::AlertStatus;

fn b(x: f64) -> Binary64 {
    Binary64 { bits: x.to_bits() }
}

fn f(x: Binary64) -> f64 {
    f64::from_bits(x.bits)
}

#[test]
fn added() {
    assert_eq!(
        format_alert_added("Aare", b(20.0)),
        "🔔 Alert set for *Aare*. I'll message you once the average afternoon water \
         temperature reaches *20.0°C* two days in a row.\n\n\
         See your alerts with /alerts, or remove this one with /unalert Aare.\n\n\
         _To do this I store your Threema ID; removing the alert deletes it again._"
    );
}

#[test]
fn updated() {
    assert_eq!(
        format_alert_updated("Aare", b(25.0)),
        "🔔 Updated your alert for *Aare* to *25.0°C*. I'll message you once the \
         afternoon water temperature reaches it two days in a row."
    );
}

#[test]
fn unchanged() {
    assert_eq!(
        format_alert_unchanged("Aare", b(20.0)),
        "You already have an alert for *Aare* at 20.0°C. Send a different \
         temperature to change it, or /unalert Aare to remove it."
    );
}

#[test]
fn limit_reached() {
    assert_eq!(
        format_alert_limit_reached(),
        "You already have the maximum of 10 alerts. Remove one with \
         /unalert <sensor> before adding another."
    );
}

#[test]
fn removed() {
    assert_eq!(format_alert_removed("Aare"), "🔕 Removed your alert for *Aare*.");
}

#[test]
fn no_alert_for() {
    assert_eq!(format_no_alert_for("Aare"), "You don't have an alert for *Aare*.");
}

#[test]
fn cleared_none() {
    assert_eq!(format_alerts_cleared(0), "You have no alerts to remove.");
}

#[test]
fn cleared_one() {
    assert_eq!(format_alerts_cleared(1), "🔕 Removed your alert.");
}

#[test]
fn cleared_many() {
    assert_eq!(format_alerts_cleared(3), "🔕 Removed all 3 of your alerts.");
}

#[test]
fn handler_empty() {
    assert_eq!(
        format_alerts_list(&[]),
        "You have no alerts yet.\n\n\
         Set one with /alert <sensor> <temperature>, e.g. /alert Aare 20."
    );
    assert_eq!(compute_stats(&vec![]), None);
}

#[test]
fn with_entries() {
    let entries = [
        AlertEntry {
            sensor_name: "Aare".to_string(),
            threshold: b(20.0),
            status: AlertStatus::Watching,
        },
        AlertEntry {
            sensor_name: "Aare Bern".to_string(),
            threshold: b(18.5),
            status: AlertStatus::Notified,
        },
    ];
    assert_eq!(
        format_alerts_list(&entries),
        "Your alerts:\n\n\
         - *Aare* at 20.0°C (_watching_)\n\
         - *Aare Bern* at 18.5°C (_already notified_)"
    );
}

const ABOUT: &str =
    "Gfrörli is a community project that measures water temperatures in Swiss water bodies.\n\n\
     Website: https://gfrör.li/\n\n\
     This bot allows you to quickly check current water temperatures directly from your phone. \
     Use /sensors to see all available measurement stations, or /temp to get the latest reading \
     for a specific sensor.";

fn id(text: &str) -> Identity {
    Identity::parse(text).unwrap()
}

#[test]
fn without_maintainers() {
    assert_eq!(format_about_text(&vec![]), ABOUT);
}

#[test]
fn with_single_maintainer() {
    assert_eq!(
        format_about_text(&vec![id("AAAABBBB")]),
        format!(
            "{ABOUT}\n\nIf you have any question about this bot, please feel free to contact \
             https://threema.id/AAAABBBB"
        )
    );
}

#[test]
fn with_multiple_maintainers() {
    assert_eq!(
        format_about_text(&vec![id("AAAABBBB"), id("CCCCDDDD"), id("EEEEFFFF")]),
        format!(
            "{ABOUT}\n\nIf you have any question about this bot, please feel free to contact \
             https://threema.id/AAAABBBB or https://threema.id/CCCCDDDD or \
             https://threema.id/EEEEFFFF"
        )
    );
}

fn make_sensor(id: u32, name: &str, temp: Option<f64>) -> Sensor {
    Sensor {
        id: SensorId(id),
        device_name: name.to_string(),
        caption: None,
        latest_temperature: temp.map(b),
        latest_measurement_at: None,
        maximum_temperature: None,
    }
}

fn make_sponsor(name: &str, description: Option<&str>, sponsor_type: SponsorType) -> Sponsor {
    Sponsor {
        id: SponsorId(1),
        name: name.to_string(),
        description: description.map(str::to_string),
        sponsor_type,
        created_at: None,
        sensor_ids: Vec::new(),
    }
}

#[test]
fn sponsored_by_with_description() {
    let sensor = make_sensor(1, "Aare Bern", None);
    let sponsor = make_sponsor(
        "Threema",
        Some("Secure messaging from Switzerland"),
        SponsorType::Sponsor,
    );
    assert_eq!(
        format_sponsor_text(&sensor, &sponsor),
        "The sensor \"Aare Bern\" is sponsored by *Threema*:\n\n_Secure messaging from Switzerland _"
    );
}

#[test]
fn powered_by_partner() {
    let sensor = make_sensor(2, "Rhein Basel", None);
    let sponsor = make_sponsor("Partner Ltd", Some("A data partner"), SponsorType::Partner);
    assert_eq!(
        format_sponsor_text(&sensor, &sponsor),
        "The sensor \"Rhein Basel\" is powered by *Partner Ltd*:\n\n_A data partner _"
    );
}

#[test]
fn powered_by_public_data_provider() {
    let sensor = make_sensor(3, "Limmat Zürich", None);
    let sponsor = make_sponsor(
        "MeteoSwiss",
        Some("Swiss weather service"),
        SponsorType::PublicDataProvider,
    );
    assert_eq!(
        format_sponsor_text(&sensor, &sponsor),
        "The sensor \"Limmat Zürich\" is powered by *MeteoSwiss*:\n\n_Swiss weather service _"
    );
}

#[test]
fn no_description() {
    let sensor = make_sensor(1, "Aare Bern", None);
    let sponsor = make_sponsor("Threema", None, SponsorType::Sponsor);
    assert_eq!(
        format_sponsor_text(&sensor, &sponsor),
        "The sensor \"Aare Bern\" is sponsored by *Threema*."
    );
}

#[test]
fn multi_paragraph_description() {
    let sensor = make_sensor(1, "Zugersee", None);
    let sponsor = make_sponsor(
        "Segel Club Cham",
        Some("First paragraph about the club.\n\nMehr Infos unter https://www.scc.ch/"),
        SponsorType::Sponsor,
    );
    assert_eq!(
        format_sponsor_text(&sensor, &sponsor),
        "The sensor \"Zugersee\" is sponsored by *Segel Club Cham*:\n\n\
         _First paragraph about the club. _\n\n\
         _Mehr Infos unter https://www.scc.ch/ _"
    );
}

#[test]
fn empty_description_treated_as_none() {
    let sensor = make_sensor(1, "Aare Bern", None);
    let sponsor = make_sponsor("Threema", Some("   "), SponsorType::Sponsor);
    assert_eq!(
        format_sponsor_text(&sensor, &sponsor),
        "The sensor \"Aare Bern\" is sponsored by *Threema*."
    );
}

#[test]
fn blank_paragraphs_are_left_out() {
    assert_eq!(italicize_paragraphs("a\n\n  \n\n\nb\n"), "_a _\n\n_b _");
    assert_eq!(italicize_paragraphs("one\ntwo"), "_one\ntwo _");
    assert_eq!(italicize_paragraphs(" \n\n "), "");
}

#[test]
fn no_match() {
    let err = resolve_single_sensor("nonexistent", vec![], "/temp 1").unwrap_err();
    assert_eq!(
        err,
        "No sensor found matching \"nonexistent\".\n\nUse /sensors to list all available sensors."
    );
}

#[test]
fn single_match() {
    let sensors = vec![make_sensor(1, "Aare Bern", Some(18.3))];
    let sensor = resolve_single_sensor("Aare", sensors, "/temp 1").unwrap();
    assert_eq!(sensor.id, SensorId(1));
}

#[test]
fn multiple_matches_temp_hint() {
    let sensors = vec![
        make_sensor(1, "Aare Bern", Some(18.3)),
        make_sensor(3, "Aare Thun", Some(17.1)),
    ];
    let err = resolve_single_sensor("Aare", sensors, "/temp 1").unwrap_err();
    assert_eq!(
        err,
        "Multiple sensors match \"Aare\":\n\n\
         Aare Bern (#1) \u{2013} 18.3°C 😌\n\
         Aare Thun (#3) \u{2013} 17.1°C 😨\n\n\
         Please be more specific or use the sensor ID (e.g. /temp 1)."
    );
}

#[test]
fn multiple_matches_stats_hint() {
    let sensors = vec![
        make_sensor(1, "Aare Bern", Some(18.3)),
        make_sensor(3, "Aare Thun", Some(17.1)),
    ];
    let err = resolve_single_sensor("Aare", sensors, "/stats 1").unwrap_err();
    assert_eq!(
        err,
        "Multiple sensors match \"Aare\":\n\n\
         Aare Bern (#1) \u{2013} 18.3°C 😌\n\
         Aare Thun (#3) \u{2013} 17.1°C 😨\n\n\
         Please be more specific or use the sensor ID (e.g. /stats 1)."
    );
}

#[test]
fn single() {
    let stats = compute_stats(&vec![(b(10.0), b(20.0), b(15.0))]).unwrap();
    assert_eq!(f(stats.min), 10.0);
    assert_eq!(f(stats.max), 20.0);
    assert_eq!(f(stats.avg), 15.0);
}

#[test]
fn multi() {
    let cases: [(&[(f64, f64, f64)], f64, f64, f64); 2] = [
        (&[(10.0, 20.0, 15.0), (12.0, 22.0, 17.0)], 10.0, 22.0, 16.0),
        (
            &[(5.0, 8.0, 6.5), (9.0, 11.0, 10.0), (7.0, 15.0, 11.0)],
            5.0,
            15.0,
            9.166666666666666,
        ),
    ];
    for (input, expected_min, expected_max, expected_avg) in cases {
        let items: Vec<_> = input.iter().map(|&(x, y, z)| (b(x), b(y), b(z))).collect();
        let stats = compute_stats(&items).unwrap();
        assert_eq!(f(stats.min), expected_min);
        assert_eq!(f(stats.max), expected_max);
        assert!((f(stats.avg) - expected_avg).abs() < 1e-9);
    }
}

#[test]
fn missing_numbers_are_passed_over() {
    let nan = b(f64::NAN);
    let stats = compute_stats(&vec![(nan, nan, nan), (b(3.0), b(4.0), b(3.5))]).unwrap();
    assert_eq!(f(stats.min), 3.0);
    assert_eq!(f(stats.max), 4.0);
    assert!(f(stats.avg).is_nan());
}

fn sensor_with_time(id: u32, name: &str, temp: Option<f64>, hours_ago: i64) -> Sensor {
    let time = Utc::now() - TimeDelta::hours(hours_ago);
    Sensor {
        latest_measurement_at: Some(Instant {
            seconds: time.timestamp(),
            nanos: time.timestamp_subsec_nanos(),
        }),
        ..make_sensor(id, name, temp)
    }
}

fn stats(min: f64, max: f64, avg: f64) -> Option<TempStats> {
    Some(TempStats { min: b(min), max: b(max), avg: b(avg) })
}

#[test]
fn with_stats_and_current() {
    let sensor = sensor_with_time(1, "Aare Bern", Some(18.3), 2);
    let text = format_stats_text(&sensor, stats(17.8, 19.2, 18.5), stats(14.1, 22.4, 18.7));
    assert_eq!(
        text,
        "Aare Bern\n\
         \n\
         🌡️ *18.3°C* 😌 (_2 hours ago_)\n\
         \n\
         Over the last 24 hours, the temperature ranged from 17.8°C to 19.2°C, averaging 18.5°C.\n\
         \n\
         Over the last 30 days, the temperature ranged from 14.1°C to 22.4°C, averaging 18.7°C.",
    );
}

#[test]
fn with_all_time_maximum() {
    let mut sensor = sensor_with_time(1, "Aare Bern", Some(18.3), 1);
    sensor.maximum_temperature = Some(b(27.4));
    let text = format_stats_text(&sensor, None, None);
    assert!(text
        .ends_with("\n\nThe highest temperature ever measured at this location was 27.4°C."));
}

#[test]
fn with_caption() {
    let mut sensor = sensor_with_time(6, "Kempraten", Some(18.3), 1);
    sensor.caption = Some("Die Wassertemperatur in Kempraten.".to_string());
    let text = format_stats_text(&sensor, None, None);
    assert!(text.starts_with("Kempraten: _Die Wassertemperatur in Kempraten._\n"));
}

#[test]
fn without_stats() {
    let sensor = make_sensor(42, "Limmat Zürich", None);
    assert_eq!(
        format_stats_text(&sensor, None, None),
        "Limmat Zürich\n\n🌡️ no recent measurement available"
    );
}

#[test]
fn blank_captions_are_left_out() {
    let mut sensor = make_sensor(42, "Limmat", Some(5.0));
    sensor.caption = Some(" \n ".to_string());
    let now = Instant { seconds: 0, nanos: 0 };
    assert_eq!(format_stats_text_at(&sensor, None, None, now), "Limmat\n\n🌡️ *5.0°C* 🥶");
}

#[test]
fn message() {
    assert_eq!(
        format_notification("Aare", b(20.3), b(20.0)),
        "🏊 *Aare* is warm enough for a swim! The afternoon water temperature reached \
         *20.3°C* today, at or above your 20.0°C alert.\n\n\
         Check the latest reading anytime with: /temp Aare\n\n\
         Or view detailed statistics with: /stats Aare"
    );
}
