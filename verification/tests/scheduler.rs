use chrono::{Datelike, NaiveDate, TimeZone, Utc};
use gfroerli_bot::alert::{AlertState, Outcome};
use gfroerli_bot::api::{HourlyTemperature, SensorId};
use gfroerli_bot::binary64::Binary64;
use gfroerli_bot::calendar::{Date, Instant};
use gfroerli_bot::scheduler::{
    begin_pass, begin_pass_at, conclude, due_alerts, due_today, group_by_sensor, judge_alert,
    judge_group, NotificationReason, NotificationRecord, SensorGroup, StateUpdate, Verdict, Writes,
};
use gfroerli_bot::store::{Alert, AlertStatus};

fn b(x: f64) -> Binary64 {
    Binary64 { bits: x.to_bits() }
}

fn make_alert(last_eval_date: Option<Date>) -> Alert {
    Alert {
        uid: 1,
        threema_id: "ABCD1234".to_owned(),
        sensor_id: SensorId(1),
        threshold: b(20.0),
        status: AlertStatus::Watching,
        warm_streak: 0,
        cold_streak: 0,
        last_eval_date,
        created_at: 0,
    }
}

fn date(year: i32, month: u32, day: u32) -> Date {
    Date { days: NaiveDate::from_ymd_opt(year, month, day).unwrap().num_days_from_ce() }
}

#[test]
fn evaluated_on_a_later_day_is_not_due() {
    assert!(!due_today(&make_alert(Some(date(2026, 6, 15))), date(2026, 6, 14)));
}

#[test]
fn never_evaluated_is_due() {
    assert!(due_today(&make_alert(None), date(2026, 6, 14)));
}

#[test]
fn evaluated_earlier_is_due() {
    let alert = make_alert(Some(date(2026, 6, 13)));
    assert!(due_today(&alert, date(2026, 6, 14)));
}

#[test]
fn evaluated_today_is_not_due() {
    let today = date(2026, 6, 14);
    assert!(!due_today(&make_alert(Some(today)), today));
}

#[test]
fn passes_begin_in_the_evening() {
    let at = |month: u32, hour: u32, minute: u32| {
        let time = Utc.with_ymd_and_hms(2025, month, 15, hour, minute, 0).unwrap();
        begin_pass_at(Instant { seconds: time.timestamp(), nanos: 0 })
    };
    // In summer Zurich is two hours ahead, in winter one.
    assert_eq!(at(7, 16, 59), None);
    assert_eq!(at(7, 17, 0), Some(date(2025, 7, 15)));
    assert_eq!(at(7, 21, 59), Some(date(2025, 7, 15)));
    assert_eq!(at(7, 22, 0), None);
    assert_eq!(at(1, 17, 59), None);
    assert_eq!(at(1, 18, 0), Some(date(2025, 1, 15)));
    assert_eq!(begin_pass_at(Instant { seconds: i64::MAX, nanos: 0 }), None);
    // On the last day of the calendar too, until the day after it begins in Zurich.
    let end = 8_210_266_876_799;
    let last = begin_pass_at(Instant { seconds: end - 3_600, nanos: 0 });
    assert_eq!(last, Some(Date { days: 95_745_399 }));
    assert_eq!(begin_pass_at(Instant { seconds: end, nanos: 0 }), None);
    if let Some(today) = begin_pass() {
        assert!(today.is_valid());
    }
}

fn numbered(uid: i64, sensor: u32, last_eval_date: Option<Date>) -> Alert {
    Alert { uid, sensor_id: SensorId(sensor), ..make_alert(last_eval_date) }
}

#[test]
fn due_alerts_are_grouped_by_sensor() {
    let today = date(2026, 6, 14);
    let alerts = vec![
        numbered(1, 7, None),
        numbered(2, 3, Some(today)),
        numbered(3, 9, Some(date(2026, 6, 13))),
        numbered(4, 7, None),
        numbered(5, 3, None),
    ];
    let due = due_alerts(alerts, today);
    let uids: Vec<i64> = due.iter().map(|a| a.uid).collect();
    assert_eq!(uids, vec![1, 3, 4, 5]);
    let groups: Vec<(u32, Vec<i64>)> = group_by_sensor(due)
        .iter()
        .map(|g| (g.sensor_id.0, g.alerts.iter().map(|a| a.uid).collect()))
        .collect();
    assert_eq!(groups, vec![(7, vec![1, 4]), (9, vec![3]), (3, vec![5])]);
}

#[test]
fn firing_alerts_notify() {
    let today = date(2026, 6, 14);
    let alert = Alert { warm_streak: 1, ..make_alert(None) };
    let verdict = judge_alert(&alert, b(20.3), "Aare");
    match &verdict {
        Verdict::Notify { to, message, state } => {
            assert_eq!(to.text, "ABCD1234");
            assert!(message.starts_with("🏊 *Aare* is warm enough for a swim!"));
            assert_eq!(
                *state,
                AlertState { status: AlertStatus::Notified, warm_streak: 0, cold_streak: 0 }
            );
        }
        _ => panic!("the alert fires"),
    }
    let sent = conclude(&verdict, &alert, b(20.3), true, today);
    assert_eq!(
        sent,
        Writes {
            record: Some(NotificationRecord {
                uid: 1,
                sensor_id: SensorId(1),
                reason: NotificationReason::ThresholdReached,
                swim_avg: b(20.3),
                threshold: b(20.0),
            }),
            update: Some(StateUpdate {
                uid: 1,
                state: AlertState {
                    status: AlertStatus::Notified,
                    warm_streak: 0,
                    cold_streak: 0,
                },
                date: today,
            }),
        }
    );
    // A message that could not be sent changes nothing.
    let failed = conclude(&verdict, &alert, b(20.3), false, today);
    assert_eq!(failed, Writes { record: None, update: None });
}

#[test]
fn alerts_of_invalid_users_are_left_alone() {
    let today = date(2026, 6, 14);
    for id in ["", "abcd1234", "ABCD123", "ABCD12345", "ABC*1234", "ÄBCD123"] {
        let alert = Alert { warm_streak: 1, threema_id: id.to_string(), ..make_alert(None) };
        let verdict = judge_alert(&alert, b(20.3), "Aare");
        assert!(matches!(verdict, Verdict::InvalidRecipient));
        assert_eq!(
            conclude(&verdict, &alert, b(20.3), true, today),
            Writes { record: None, update: None }
        );
    }
    let gateway = Alert { warm_streak: 1, threema_id: "*ABC1234".to_string(), ..make_alert(None) };
    assert!(matches!(judge_alert(&gateway, b(20.3), "Aare"), Verdict::Notify { .. }));
}

#[test]
fn quiet_and_reset_alerts_are_kept() {
    let today = date(2026, 6, 14);
    let quiet = judge_alert(&make_alert(None), b(21.0), "Aare");
    assert!(matches!(quiet, Verdict::Settle { outcome: Outcome::Quiet, .. }));
    let writes = conclude(&quiet, &make_alert(None), b(21.0), false, today);
    assert_eq!(writes.record, None);
    let update = writes.update.unwrap();
    assert_eq!((update.uid, update.date), (1, today));
    assert_eq!(
        update.state,
        AlertState { status: AlertStatus::Watching, warm_streak: 1, cold_streak: 0 }
    );
    let notified = Alert { status: AlertStatus::Notified, cold_streak: 2, ..make_alert(None) };
    let reset = judge_alert(&notified, b(15.0), "Aare");
    match reset {
        Verdict::Settle { outcome, state } => {
            assert_eq!(outcome, Outcome::Reset);
            assert_eq!(state, AlertState::default());
        }
        _ => panic!("the alert resets"),
    }
}

#[test]
fn groups_without_data_are_left_for_later() {
    let today = date(2026, 6, 14);
    let hours = |count: u8, avg: f64| -> Vec<HourlyTemperature> {
        (12..12 + count)
            .map(|hour| HourlyTemperature {
                aggregation_date: today,
                aggregation_hour: hour,
                minimum_temperature: b(avg),
                maximum_temperature: b(avg),
                average_temperature: b(avg),
            })
            .collect()
    };
    let group = SensorGroup {
        sensor_id: SensorId(1),
        alerts: vec![
            Alert { warm_streak: 1, ..make_alert(None) },
            Alert { threshold: b(30.0), ..make_alert(None) },
        ],
    };
    assert!(judge_group(&group, &hours(3, 25.0), "Aare", today).is_none());
    let verdicts = judge_group(&group, &hours(6, 25.0), "Aare", today).unwrap();
    assert_eq!(verdicts.len(), 2);
    assert!(matches!(verdicts[0], Verdict::Notify { .. }));
    assert!(matches!(verdicts[1], Verdict::Settle { outcome: Outcome::Quiet, .. }));
}
