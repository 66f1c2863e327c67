//! The daily evaluation of all alerts.
//!
//! A pass begins in the early evening. It takes the alerts that were not evaluated today, sensor by
//! sensor, judges each by the sensor's swim-window average, and says for each what to send and what
//! to write. The fetching, sending and writing is up to the caller.

use crate::alert;
use crate::alert::{evaluate, swim_window_average, AlertState, Outcome, Transition};
use crate::api::{HourlyTemperature, SensorId};
use crate::binary64;
use crate::binary64::Binary64;
use crate::calendar;
use crate::calendar::{local_clock, utc_now, Date, Instant};
use crate::identity;
use crate::identity::Identity;
use crate::replies;
use crate::replies::format_notification;
use crate::sequences;
use crate::store;
use crate::store::{Alert, AlertView};
use vstd::prelude::*;

verus! {

/// How often the scheduler wakes to check whether evaluation is due, in seconds.
pub const POLL_INTERVAL: u64 = 300;

/// Local hour (Europe/Zurich) at or after which alerts are evaluated: the early evening, once the
/// swim window has closed.
pub const EVAL_HOUR: u8 = 19;

/// Upper bound on hourly buckets fetched per sensor per day (24 is enough; leave headroom).
pub const HOURLY_LIMIT: u32 = 48;

// ---------------------------------------------------------------------------------------------
// What is due
// ---------------------------------------------------------------------------------------------

/// The local day whose alerts are to be evaluated at an instant, if it is late enough.
pub open spec fn evaluation_day(now: Instant) -> Option<int> {
    let (day, hour, _) = calendar::zurich_clock(now.seconds as int);
    if now.exists_in_calendar() && hour >= EVAL_HOUR {
        Some(day)
    } else {
        None
    }
}

/// Alerts are evaluated from seven o'clock in the evening on the clocks in Zurich up to midnight, for
/// the day that these clocks show.
pub proof fn law_alerts_are_evaluated_in_the_evening(now: Instant)
    requires
        now.exists_in_calendar(),
    ensures
        calendar::zurich_clock(now.seconds as int).1 >= 19 ==> evaluation_day(now) == Some(
            calendar::zurich_clock(now.seconds as int).0,
        ),
        calendar::zurich_clock(now.seconds as int).1 < 19 ==> evaluation_day(now) is None,
{
}

/// The local day whose alerts are to be evaluated as of `now`, if it is late enough.
pub fn begin_pass_at(now: Instant) -> (today: Option<Date>)
    ensures
        match today {
            Some(today) => {
                &&& evaluation_day(now) == Some(today.days as int)
                &&& today.exists_in_calendar()
            },
            None => evaluation_day(now) is None,
        },
{
    match local_clock(now) {
        Some(time) => if time.hour < EVAL_HOUR {
            None
        } else {
            Some(time.day)
        },
        None => None,
    }
}

/// The local day whose alerts are to be evaluated now, if it is late enough.
pub fn begin_pass() -> (today: Option<Date>)
    ensures
        exists|now: Instant|
            now.exists_in_calendar() && #[trigger] evaluation_day(now) == (match today {
                Some(today) => Some(today.days as int),
                None => None,
            }),
        today is Some ==> today->0.exists_in_calendar(),
{
    let now: Instant = utc_now();
    let today: Option<Date> = begin_pass_at(now);
    proof {
        assert(evaluation_day(now) == (match today {
            Some(today) => Some(today.days as int),
            None => None,
        }));
    }
    today
}

/// Whether an alert still needs evaluating today (never evaluated, or last evaluated on an earlier
/// day).
pub open spec fn is_due(row: AlertView, today: Date) -> bool {
    row.last_eval_date is None || row.last_eval_date->0.days < today.days
}

/// Whether an alert still needs evaluating today (never evaluated, or last evaluated on an earlier
/// day).
pub fn due_today(alert: &Alert, today: Date) -> (due: bool)
    ensures
        due == is_due(alert@, today),
{
    match alert.last_eval_date {
        Some(date) => date.days < today.days,
        None => true,
    }
}

/// The alerts that still need evaluating today, as they are listed.
pub open spec fn due_among(alerts: Seq<Alert>, today: Date) -> Seq<Alert> {
    alerts.filter(|alert: Alert| is_due(alert@, today))
}

/// Keep the alerts that still need evaluating today.
pub fn due_alerts(alerts: Vec<Alert>, today: Date) -> (due: Vec<Alert>)
    ensures
        due@ == due_among(alerts@, today),
{
    let ghost given = alerts@;
    let ghost wanted = |alert: Alert| is_due(alert@, today);
    let mut due: Vec<Alert> = Vec::new();
    proof {
        sequences::lemma_filter_ends(given, wanted);
    }
    for alert in it: alerts
        invariant
            it.seq() == given,
            wanted == (|alert: Alert| is_due(alert@, today)),
            due@ == given.take(it.index()).filter(wanted),
    {
        proof {
            sequences::lemma_filter_next(given, wanted, it.index());
        }
        if due_today(&alert, today) {
            due.push(alert);
        }
    }
    proof {
        sequences::lemma_filter_ends(given, wanted);
    }
    due
}

/// The alerts that are due are those that were never evaluated or not since an earlier day, each
/// as often as it is listed and in that order.
pub proof fn law_alerts_of_earlier_days_are_due(
    front: Seq<Alert>,
    back: Seq<Alert>,
    alert: Alert,
    today: Date,
)
    ensures
        due_among(front + back, today) == due_among(front, today) + due_among(back, today),
        due_among(seq![alert], today) == (match alert.last_eval_date {
            None => seq![alert],
            Some(date) => if date.days < today.days {
                seq![alert]
            } else {
                Seq::<Alert>::empty()
            },
        }),
{
    let wanted = |alert: Alert| is_due(alert@, today);
    Seq::filter_distributes_over_add(front, back, wanted);
    reveal(Seq::filter);
    assert(seq![alert].drop_last() =~= Seq::<Alert>::empty());
    assert(seq![alert].drop_last().filter(wanted) =~= Seq::<Alert>::empty());
    assert(Seq::<Alert>::empty().push(alert) =~= seq![alert]);
}

/// An alert that was evaluated today is not due today again.
pub proof fn law_alerts_are_evaluated_once_a_day(row: AlertView, state: AlertState, today: Date)
    ensures
        !is_due(store::evaluated_row(row, state, today), today),
{
}

// ---------------------------------------------------------------------------------------------
// Sensor by sensor
// ---------------------------------------------------------------------------------------------

/// The alerts for one sensor.
#[derive(Debug)]
pub struct SensorGroup {
    /// The sensor.
    pub sensor_id: SensorId,
    /// Its alerts.
    pub alerts: Vec<Alert>,
}

/// The sensors of some alerts, each once, in the order in which they first come up.
pub open spec fn sensors_of(alerts: Seq<Alert>) -> Seq<SensorId>
    decreases alerts.len(),
{
    if alerts.len() == 0 {
        Seq::empty()
    } else {
        let rest = sensors_of(alerts.drop_last());
        if rest.contains(alerts.last().sensor_id) {
            rest
        } else {
            rest.push(alerts.last().sensor_id)
        }
    }
}

/// The alerts for one sensor among some alerts, as they are listed.
pub open spec fn alerts_for(alerts: Seq<Alert>, sensor_id: SensorId) -> Seq<Alert> {
    alerts.filter(|alert: Alert| alert.sensor_id == sensor_id)
}

/// Whether some groups are some alerts, sensor by sensor.
pub open spec fn are_grouped(groups: Seq<SensorGroup>, alerts: Seq<Alert>) -> bool {
    &&& groups.len() == sensors_of(alerts).len()
    &&& forall|i: int|
        0 <= i < groups.len() ==> (#[trigger] groups[i]).sensor_id == sensors_of(alerts)[i]
            && groups[i].alerts@ == alerts_for(alerts, sensors_of(alerts)[i])
}

/// Each sensor of some alerts comes up once.
proof fn lemma_sensors_of(alerts: Seq<Alert>)
    ensures
        sensors_of(alerts).no_duplicates(),
        forall|i: int|
            0 <= i < alerts.len() ==> sensors_of(alerts).contains((#[trigger] alerts[i]).sensor_id),
    decreases alerts.len(),
{
    if alerts.len() > 0 {
        let shorter = alerts.drop_last();
        let rest = sensors_of(shorter);
        let last = alerts.last().sensor_id;
        lemma_sensors_of(shorter);
        assert forall|id: SensorId| rest.contains(id) implies sensors_of(alerts).contains(id) by {
            let i = choose|i: int| 0 <= i < rest.len() && rest[i] == id;
            assert(sensors_of(alerts)[i] == id);
        }
        if !rest.contains(last) {
            assert(sensors_of(alerts)[rest.len() as int] == last);
        }
        assert forall|i: int| 0 <= i < alerts.len() implies sensors_of(alerts).contains(
            (#[trigger] alerts[i]).sensor_id,
        ) by {
            if i < shorter.len() {
                assert(rest.contains(shorter[i].sensor_id));
            }
        }
    }
}

/// What one more alert changes in the alerts for a sensor.
proof fn lemma_alerts_for_next(alerts: Seq<Alert>, n: int, sensor_id: SensorId)
    requires
        0 <= n < alerts.len(),
    ensures
        alerts_for(alerts.take(n + 1), sensor_id) == (if alerts[n].sensor_id == sensor_id {
            alerts_for(alerts.take(n), sensor_id).push(alerts[n])
        } else {
            alerts_for(alerts.take(n), sensor_id)
        }),
{
    sequences::lemma_filter_next(alerts, |alert: Alert| alert.sensor_id == sensor_id, n);
}

/// A sensor that has not come up has no alerts.
proof fn lemma_no_alerts_for(alerts: Seq<Alert>, sensor_id: SensorId)
    requires
        !sensors_of(alerts).contains(sensor_id),
    ensures
        alerts_for(alerts, sensor_id) == Seq::<Alert>::empty(),
{
    lemma_sensors_of(alerts);
    assert forall|i: int| 0 <= i < alerts.len() implies (#[trigger] alerts[i]).sensor_id
        != sensor_id by {
        assert(sensors_of(alerts).contains(alerts[i].sensor_id));
    }
    sequences::lemma_filter_nothing(alerts, |alert: Alert| alert.sensor_id == sensor_id);
}

/// Where the group of a sensor stands, or the number of groups where there is none.
fn find_group(groups: &Vec<SensorGroup>, sensor_id: SensorId) -> (at: usize)
    ensures
        at <= groups@.len(),
        at < groups@.len() ==> groups@[at as int].sensor_id == sensor_id,
        at == groups@.len() ==> forall|i: int|
            0 <= i < groups@.len() ==> (#[trigger] groups@[i]).sensor_id != sensor_id,
{
    let mut at: usize = 0;
    while at < groups.len()
        invariant
            at <= groups@.len(),
            forall|i: int| 0 <= i < at ==> (#[trigger] groups@[i]).sensor_id != sensor_id,
        decreases groups@.len() - at,
    {
        if groups[at].sensor_id == sensor_id {
            return at;
        }
        at = at + 1;
    }
    at
}

/// Group alerts by sensor so each sensor's data is fetched at most once.
pub fn group_by_sensor(alerts: Vec<Alert>) -> (groups: Vec<SensorGroup>)
    ensures
        are_grouped(groups@, alerts@),
{
    let ghost given = alerts@;
    let mut groups: Vec<SensorGroup> = Vec::new();
    assert(given.take(0) =~= Seq::<Alert>::empty());
    for alert in it: alerts
        invariant
            it.seq() == given,
            are_grouped(groups@, given.take(it.index())),
    {
        let ghost n = it.index();
        let ghost before = given.take(n);
        let ghost upto = given.take(n + 1);
        let ghost order = sensors_of(before);
        let ghost old_groups = groups@;
        proof {
            assert(upto.drop_last() =~= before);
            assert(upto.last() == alert);
            lemma_sensors_of(before);
        }
        let sensor_id: SensorId = alert.sensor_id;
        let at: usize = find_group(&groups, sensor_id);
        if at < groups.len() {
            let mut group: SensorGroup = groups.remove(at);
            group.alerts.push(alert);
            groups.insert(at, group);
            proof {
                assert(order[at as int] == sensor_id);
                assert(order.contains(sensor_id));
                assert forall|i: int| 0 <= i < groups@.len() implies (
                #[trigger] groups@[i]).sensor_id == sensors_of(upto)[i] && groups@[i].alerts@
                    == alerts_for(upto, sensors_of(upto)[i]) by {
                    lemma_alerts_for_next(given, n, order[i]);
                    if i != at {
                        assert(groups@[i] == old_groups[i]);
                        assert(order[i] != order[at as int]);
                    }
                }
            }
        } else {
            proof {
                assert forall|i: int| 0 <= i < order.len() implies order[i] != sensor_id by {
                    assert(groups@[i].sensor_id == order[i]);
                }
                lemma_no_alerts_for(before, sensor_id);
            }
            let mut single: Vec<Alert> = Vec::new();
            single.push(alert);
            groups.push(SensorGroup { sensor_id, alerts: single });
            proof {
                assert(sensors_of(upto) == order.push(sensor_id));
                assert forall|i: int| 0 <= i < groups@.len() implies (
                #[trigger] groups@[i]).sensor_id == sensors_of(upto)[i] && groups@[i].alerts@
                    == alerts_for(upto, sensors_of(upto)[i]) by {
                    lemma_alerts_for_next(given, n, sensors_of(upto)[i]);
                    if i < order.len() {
                        assert(groups@[i] == old_groups[i]);
                    } else {
                        assert(single@ =~= Seq::<Alert>::empty().push(alert));
                    }
                }
            }
        }
    }
    assert(given.take(given.len() as int) =~= given);
    groups
}

/// Grouping puts every alert into the group of its sensor, and no sensor has two groups.
pub proof fn law_every_alert_has_one_group(groups: Seq<SensorGroup>, alerts: Seq<Alert>, n: int)
    requires
        are_grouped(groups, alerts),
        0 <= n < alerts.len(),
    ensures
        exists|i: int|
            0 <= i < groups.len() && (#[trigger] groups[i]).alerts@.contains(alerts[n]),
        forall|i: int, j: int|
            0 <= i < j < groups.len() ==> (#[trigger] groups[i]).sensor_id != (
            #[trigger] groups[j]).sensor_id,
        forall|i: int, k: int|
            0 <= i < groups.len() && 0 <= k < groups[i].alerts@.len()
                ==> (#[trigger] groups[i].alerts@[k]).sensor_id == groups[i].sensor_id
                && alerts.contains(groups[i].alerts@[k]),
{
    let order = sensors_of(alerts);
    lemma_sensors_of(alerts);
    let id = alerts[n].sensor_id;
    assert(order.contains(id));
    let at = choose|i: int| 0 <= i < order.len() && order[i] == id;
    alerts.lemma_filter_contains(|alert: Alert| alert.sensor_id == id, n);
    assert(groups[at].alerts@.contains(alerts[n]));
    assert forall|i: int, k: int|
        0 <= i < groups.len() && 0 <= k < groups[i].alerts@.len() implies (
    #[trigger] groups[i].alerts@[k]).sensor_id == groups[i].sensor_id && alerts.contains(
        groups[i].alerts@[k],
    ) by {
        let wanted = |alert: Alert| alert.sensor_id == order[i];
        alerts.lemma_filter_pred(wanted, k);
        assert(alerts.filter(wanted).contains(groups[i].alerts@[k]));
        alerts.lemma_filter_contains_rev(wanted, groups[i].alerts@[k]);
    }
}

/// The group of a sensor holds all alerts for that sensor, in the order in which they are listed.
pub proof fn law_groups_are_complete(groups: Seq<SensorGroup>, alerts: Seq<Alert>, i: int)
    requires
        are_grouped(groups, alerts),
        0 <= i < groups.len(),
    ensures
        groups[i].alerts@ == alerts.filter(
            |alert: Alert| alert.sensor_id.0 == groups[i].sensor_id.0,
        ),
        groups[i].alerts@.len() > 0,
{
    let id = groups[i].sensor_id;
    assert(id == sensors_of(alerts)[i]);
    sequences::lemma_filter_alike(
        alerts,
        |alert: Alert| alert.sensor_id == id,
        |alert: Alert| alert.sensor_id.0 == groups[i].sensor_id.0,
    );
    lemma_sensors_come_up(alerts, i);
    let n = choose|n: int| 0 <= n < alerts.len() && (#[trigger] alerts[n]).sensor_id == id;
    alerts.lemma_filter_contains(|alert: Alert| alert.sensor_id == id, n);
}

/// A sensor of some alerts is that of one of them.
proof fn lemma_sensors_come_up(alerts: Seq<Alert>, i: int)
    requires
        0 <= i < sensors_of(alerts).len(),
    ensures
        exists|n: int|
            0 <= n < alerts.len() && (#[trigger] alerts[n]).sensor_id == sensors_of(alerts)[i],
    decreases alerts.len(),
{
    if alerts.len() > 0 {
        let shorter = alerts.drop_last();
        if i < sensors_of(shorter).len() {
            lemma_sensors_come_up(shorter, i);
            let n = choose|n: int|
                0 <= n < shorter.len() && (#[trigger] shorter[n]).sensor_id == sensors_of(shorter)[i];
            assert(alerts[n].sensor_id == sensors_of(alerts)[i]);
        } else {
            assert(alerts[alerts.len() - 1].sensor_id == sensors_of(alerts)[i]);
        }
    }
}

// ---------------------------------------------------------------------------------------------
// Judging an alert
// ---------------------------------------------------------------------------------------------

/// What an evaluation comes to for one alert.
#[derive(Debug)]
pub enum Verdict {
    /// Send the message, and keep the state once it is sent.
    Notify {
        /// Whom to send it to.
        to: Identity,
        /// What to send.
        message: String,
        /// What to keep.
        state: AlertState,
    },
    /// There is a message to send, but no valid Threema ID to send it to: leave the alert alone.
    InvalidRecipient,
    /// Nothing to send: keep the state.
    Settle {
        /// Whether the alert was reset.
        outcome: Outcome,
        /// What to keep.
        state: AlertState,
    },
}

/// What an evaluation of a row by an average makes of its alert.
pub open spec fn next_of(row: AlertView, swim_avg: Binary64) -> Transition {
    alert::advanced(row.state(), alert::classified(Some(swim_avg), row.threshold))
}

/// Whether a verdict is right for a row and an average.
pub open spec fn is_right(
    verdict: Verdict,
    row: AlertView,
    swim_avg: Binary64,
    sensor_name: Seq<char>,
) -> bool {
    let next = next_of(row, swim_avg);
    match verdict {
        Verdict::Notify { to, message, state } => {
            &&& next.outcome == Outcome::Notify
            &&& identity::is_threema_id(row.threema_id)
            &&& to.text@ == row.threema_id
            &&& message@ == replies::notification_text(sensor_name, swim_avg, row.threshold)
            &&& state == next.state
        },
        Verdict::InvalidRecipient => {
            &&& next.outcome == Outcome::Notify
            &&& !identity::is_threema_id(row.threema_id)
        },
        Verdict::Settle { outcome, state } => {
            &&& next.outcome != Outcome::Notify
            &&& outcome == next.outcome
            &&& state == next.state
        },
    }
}

/// Whether the streaks of a row have room for one more day.
pub open spec fn can_be_judged(row: AlertView, swim_avg: Binary64) -> bool {
    alert::can_advance(row.state(), alert::classified(Some(swim_avg), row.threshold))
}

/// Evaluate one alert against the day's swim-window average.
pub fn judge_alert(alert: &Alert, swim_avg: Binary64, sensor_name: &str) -> (verdict: Verdict)
    requires
        can_be_judged(alert@, swim_avg),
    ensures
        is_right(verdict, alert@, swim_avg, sensor_name@),
{
    let transition: Transition = evaluate(alert.state(), Some(swim_avg), alert.threshold);
    match transition.outcome {
        Outcome::Notify => match Identity::parse(alert.threema_id.as_str()) {
            Some(to) => Verdict::Notify {
                to,
                message: format_notification(sensor_name, swim_avg, alert.threshold),
                state: transition.state,
            },
            None => Verdict::InvalidRecipient,
        },
        Outcome::Reset => Verdict::Settle { outcome: Outcome::Reset, state: transition.state },
        Outcome::Quiet => Verdict::Settle { outcome: Outcome::Quiet, state: transition.state },
    }
}

/// The user of a watching alert is notified on the second day in a row whose average, as it is shown,
/// is at or above their threshold, and then only: the message goes to the user of the alert and tells
/// the sensor, the average and the threshold. It takes a valid Threema ID.
pub proof fn law_users_are_notified_on_the_second_warm_day(
    verdict: Verdict,
    row: AlertView,
    swim_avg: Binary64,
    sensor_name: Seq<char>,
)
    requires
        is_right(verdict, row, swim_avg, sensor_name),
        can_be_judged(row, swim_avg),
        row.threshold.is_finite(),
        2 * binary64::one() <= row.threshold.value() <= 1_000_000 * binary64::one(),
        !alert::to_tenths(swim_avg).is_nan(),
        row.warm_streak < u32::MAX,
        row.cold_streak < u32::MAX,
    ensures
        ({
            let warm = alert::to_tenths(swim_avg).value() >= row.threshold.value();
            let cold = 2 * alert::to_tenths(swim_avg).value() <= 2 * row.threshold.value() - 3
                * binary64::one();
            let fires = warm && row.status is Watching && row.warm_streak >= 1;
            &&& verdict is Notify || verdict is InvalidRecipient <==> fires
            &&& verdict is InvalidRecipient ==> !identity::is_threema_id(row.threema_id)
            &&& verdict is Notify ==> {
                &&& identity::is_threema_id(row.threema_id)
                &&& verdict->to.text@ == row.threema_id
                &&& verdict->message@ == replies::notification_text(
                    sensor_name,
                    swim_avg,
                    row.threshold,
                )
                &&& verdict->Notify_state.status is Notified
                &&& verdict->Notify_state.warm_streak == 0
                &&& verdict->Notify_state.cold_streak == 0
            }
            &&& verdict is Settle ==> {
                let after = verdict->Settle_state;
                let resets = cold && row.status is Notified && row.cold_streak >= 2;
                &&& verdict->outcome is Reset <==> resets
                &&& verdict->outcome is Quiet <==> !resets
                &&& resets ==> after.status is Watching && after.warm_streak == 0
                    && after.cold_streak == 0
                &&& !resets ==> after.status == row.status
                &&& warm ==> after.warm_streak == row.warm_streak + 1 && after.cold_streak == 0
                &&& cold && !resets ==> after.warm_streak == 0 && after.cold_streak
                    == row.cold_streak + 1
                &&& !warm && !cold ==> after.warm_streak == 0 && after.cold_streak
                    == row.cold_streak
            }
        }),
{
    alert::law_days_are_classed_by_the_shown_average(swim_avg, row.threshold);
    alert::law_days_move_the_streaks(
        row.state(),
        alert::classified(Some(swim_avg), row.threshold),
    );
    vstd::arithmetic::power2::lemma_pow2_pos(1074);
}

/// Whether the verdicts on a group are right: none where the day lacks a swim-window average, so
/// that its alerts are left for later, and else one for each alert.
pub open spec fn are_right(
    verdicts: Option<Vec<Verdict>>,
    alerts: Seq<Alert>,
    hourly: Seq<HourlyTemperature>,
    sensor_name: Seq<char>,
    today: Date,
) -> bool {
    match (alert::swim_average(hourly, today), verdicts) {
        (Some(swim_avg), Some(verdicts)) => {
            &&& verdicts@.len() == alerts.len()
            &&& forall|i: int|
                0 <= i < alerts.len() ==> is_right(
                    #[trigger] verdicts@[i],
                    alerts[i]@,
                    swim_avg,
                    sensor_name,
                )
        },
        (None, None) => true,
        _ => false,
    }
}

/// Whether the streaks of all alerts have room for one more day.
pub open spec fn can_all_be_judged(
    alerts: Seq<Alert>,
    hourly: Seq<HourlyTemperature>,
    today: Date,
) -> bool {
    alert::swim_average(hourly, today) is Some ==> forall|i: int|
        0 <= i < alerts.len() ==> can_be_judged(
            (#[trigger] alerts[i])@,
            alert::swim_average(hourly, today)->0,
        )
}

/// Judge the alerts of one sensor by its temperatures of the day.
pub fn judge_group(
    group: &SensorGroup,
    hourly: &[HourlyTemperature],
    sensor_name: &str,
    today: Date,
) -> (verdicts: Option<Vec<Verdict>>)
    requires
        can_all_be_judged(group.alerts@, hourly@, today),
    ensures
        are_right(verdicts, group.alerts@, hourly@, sensor_name@, today),
{
    match swim_window_average(hourly, today) {
        None => None,
        Some(swim_avg) => {
            let mut verdicts: Vec<Verdict> = Vec::new();
            let mut i: usize = 0;
            while i < group.alerts.len()
                invariant
                    i <= group.alerts@.len(),
                    alert::swim_average(hourly@, today) == Some(swim_avg),
                    can_all_be_judged(group.alerts@, hourly@, today),
                    verdicts@.len() == i,
                    forall|j: int|
                        0 <= j < i ==> is_right(
                            #[trigger] verdicts@[j],
                            group.alerts@[j]@,
                            swim_avg,
                            sensor_name@,
                        ),
                decreases group.alerts@.len() - i,
            {
                proof {
                    assert(can_be_judged(group.alerts@[i as int]@, swim_avg));
                }
                verdicts.push(judge_alert(&group.alerts[i], swim_avg, sensor_name));
                i = i + 1;
            }
            Some(verdicts)
        },
    }
}

// ---------------------------------------------------------------------------------------------
// What to write
// ---------------------------------------------------------------------------------------------

/// Why a user was notified.
#[derive(Clone, Copy, Debug, PartialEq, Eq, Structural)]
pub enum NotificationReason {
    /// The afternoon average reached the threshold of an alert.
    ThresholdReached,
}

/// An entry of the audit log on a notification that was sent.
#[derive(Clone, Copy, Debug, PartialEq, Eq, Structural)]
pub struct NotificationRecord {
    /// Which alert fired.
    pub uid: i64,
    /// For which sensor.
    pub sensor_id: SensorId,
    /// Why.
    pub reason: NotificationReason,
    /// The afternoon average of the day.
    pub swim_avg: Binary64,
    /// The threshold of the alert.
    pub threshold: Binary64,
}

/// The state of an alert after an evaluation.
#[derive(Clone, Copy, Debug, PartialEq, Eq, Structural)]
pub struct StateUpdate {
    /// Which alert.
    pub uid: i64,
    /// Its state.
    pub state: AlertState,
    /// The day of the evaluation.
    pub date: Date,
}

/// What to write after a verdict was carried out: first the entry of the audit log, then the state.
#[derive(Clone, Copy, Debug, PartialEq, Eq, Structural)]
pub struct Writes {
    /// What to append to the audit log.
    pub record: Option<NotificationRecord>,
    /// What to keep of the alert.
    pub update: Option<StateUpdate>,
}

/// What to write of a verdict. A message that could not be sent leaves everything as it was, so
/// that the next pass tries again.
pub open spec fn writes_of(
    verdict: Verdict,
    row: AlertView,
    swim_avg: Binary64,
    sent: bool,
    today: Date,
) -> Writes {
    match verdict {
        Verdict::Notify { state, .. } => if sent {
            Writes {
                record: Some(
                    NotificationRecord {
                        uid: row.uid,
                        sensor_id: row.sensor_id,
                        reason: NotificationReason::ThresholdReached,
                        swim_avg,
                        threshold: row.threshold,
                    },
                ),
                update: Some(StateUpdate { uid: row.uid, state, date: today }),
            }
        } else {
            Writes { record: None, update: None }
        },
        Verdict::InvalidRecipient => Writes { record: None, update: None },
        Verdict::Settle { state, .. } => Writes {
            record: None,
            update: Some(StateUpdate { uid: row.uid, state, date: today }),
        },
    }
}

/// Say what to write of a verdict. `sent` is whether its message, if it has one, was sent.
pub fn conclude(verdict: &Verdict, alert: &Alert, swim_avg: Binary64, sent: bool, today: Date) -> (
    writes: Writes)
    ensures
        writes == writes_of(*verdict, alert@, swim_avg, sent, today),
{
    match verdict {
        Verdict::Notify { state, .. } => {
            if sent {
                Writes {
                    record: Some(
                        NotificationRecord {
                            uid: alert.uid,
                            sensor_id: alert.sensor_id,
                            reason: NotificationReason::ThresholdReached,
                            swim_avg,
                            threshold: alert.threshold,
                        },
                    ),
                    update: Some(StateUpdate { uid: alert.uid, state: *state, date: today }),
                }
            } else {
                Writes { record: None, update: None }
            }
        },
        Verdict::InvalidRecipient => Writes { record: None, update: None },
        Verdict::Settle { state, .. } => Writes {
            record: None,
            update: Some(StateUpdate { uid: alert.uid, state: *state, date: today }),
        },
    }
}

/// A row after what was written of it.
pub open spec fn written_row(row: AlertView, writes: Writes) -> AlertView {
    match writes.update {
        Some(update) => store::evaluated_row(row, update.state, update.date),
        None => row,
    }
}

/// A message that could not be sent is tried again: its alert stays as it was, is still due on the
/// same day, and the same average leads to the same message.
pub proof fn law_failed_messages_are_tried_again(
    verdict: Verdict,
    again: Verdict,
    row: AlertView,
    swim_avg: Binary64,
    sensor_name: Seq<char>,
    today: Date,
)
    requires
        is_right(verdict, row, swim_avg, sensor_name),
        verdict is Notify,
        is_due(row, today),
        is_right(
            again,
            written_row(row, writes_of(verdict, row, swim_avg, false, today)),
            swim_avg,
            sensor_name,
        ),
    ensures
        ({
            let after = written_row(row, writes_of(verdict, row, swim_avg, false, today));
            &&& after == row
            &&& is_due(after, today)
            &&& again is Notify
            &&& again->message@ == verdict->message@
            &&& again->to.text@ == verdict->to.text@
        }),
{
}

/// An alert whose message was sent is notified, is not due again on that day, and sends no message
/// by its next evaluation, whatever the day was like.
pub proof fn law_sent_messages_are_not_repeated(
    verdict: Verdict,
    next: Verdict,
    row: AlertView,
    swim_avg: Binary64,
    later_avg: Binary64,
    sensor_name: Seq<char>,
    today: Date,
)
    requires
        is_right(verdict, row, swim_avg, sensor_name),
        verdict is Notify,
        is_right(
            next,
            written_row(row, writes_of(verdict, row, swim_avg, true, today)),
            later_avg,
            sensor_name,
        ),
    ensures
        ({
            let after = written_row(row, writes_of(verdict, row, swim_avg, true, today));
            &&& after.status == store::AlertStatus::Notified
            &&& !is_due(after, today)
            &&& next is Settle
        }),
{
}

/// Every verdict but a message that could not be delivered makes an alert done for the day.
pub proof fn law_judged_alerts_are_done_for_the_day(
    verdict: Verdict,
    row: AlertView,
    swim_avg: Binary64,
    sent: bool,
    today: Date,
)
    ensures
        is_due(written_row(row, writes_of(verdict, row, swim_avg, sent, today)), today) <==> is_due(
            row,
            today,
        ) && (verdict is InvalidRecipient || (verdict is Notify && !sent)),
{
}

/// The audit log gets an entry for each message that was sent, and for nothing else: on the alert, its
/// sensor, the average and the threshold.
pub proof fn law_sent_messages_are_logged(
    verdict: Verdict,
    row: AlertView,
    swim_avg: Binary64,
    sent: bool,
    today: Date,
)
    ensures
        ({
            let writes = writes_of(verdict, row, swim_avg, sent, today);
            &&& writes.record is Some <==> verdict is Notify && sent
            &&& writes.record matches Some(record) ==> {
                &&& record.uid == row.uid
                &&& record.sensor_id == row.sensor_id
                &&& record.reason is ThresholdReached
                &&& record.swim_avg == swim_avg
                &&& record.threshold == row.threshold
            }
            &&& writes.update matches Some(update) ==> {
                &&& update.uid == row.uid
                &&& update.date == today
                &&& verdict is Notify ==> update.state == verdict->Notify_state
                &&& verdict is Settle ==> update.state == verdict->Settle_state
            }
        }),
{
}

/// All alerts of a sensor are judged, one by one, by the average of the day, and none of them where
/// the day has no average.
pub proof fn law_groups_are_judged_alert_by_alert(
    verdicts: Option<Vec<Verdict>>,
    alerts: Seq<Alert>,
    hourly: Seq<HourlyTemperature>,
    sensor_name: Seq<char>,
    today: Date,
    i: int,
)
    requires
        are_right(verdicts, alerts, hourly, sensor_name, today),
        0 <= i < alerts.len(),
    ensures
        verdicts is Some <==> alert::afternoon_buckets(hourly, today).len() >= 4,
        verdicts matches Some(found) ==> found@.len() == alerts.len() && is_right(
            found@[i],
            alerts[i]@,
            alert::swim_average(hourly, today)->0,
            sensor_name,
        ),
{
    alert::law_four_afternoon_hours_are_enough(hourly, today);
}

} // verus!
