//! The rows of the alert table, and what the statements on it say.

use crate::alert;
use crate::alert::AlertState;
use crate::api::SensorId;
use crate::binary64;
use crate::binary64::Binary64;
use crate::calendar;
use crate::calendar::{from_timestamp, Date, Instant};
use crate::decimals;
use crate::identity::Identity;
use crate::rounding;
use crate::text;
use vstd::prelude::*;

verus! {

/// Columns of the `alerts` table, in the order of the fields of [`Alert`].
pub const ALERT_COLUMNS: &'static str =
    "uid, threema_id, sensor_id, threshold, status, warm_streak, cold_streak, last_eval_date, created_at";

/// Inserts a new alert.
pub const INSERT_ALERT: &'static str =
    "INSERT INTO alerts (threema_id, sensor_id, threshold, created_at) VALUES (?, ?, ?, ?)";

/// Deletes the alert of a user for a sensor.
pub const DELETE_ALERT: &'static str = "DELETE FROM alerts WHERE threema_id = ? AND sensor_id = ?";

/// Deletes all alerts of a user.
pub const DELETE_ALERTS: &'static str = "DELETE FROM alerts WHERE threema_id = ?";

/// Changes the threshold of an alert and starts it over.
pub const RESET_ALERT: &'static str =
    "UPDATE alerts SET threshold = ?, status = ?, warm_streak = 0, cold_streak = 0, last_eval_date = NULL WHERE uid = ?";

/// Keeps what an evaluation has come to.
pub const UPDATE_ALERT: &'static str =
    "UPDATE alerts SET status = ?, warm_streak = ?, cold_streak = ?, last_eval_date = ? WHERE uid = ?";

/// Counts all alerts.
pub const COUNT_ALERTS: &'static str = "SELECT COUNT(*) FROM alerts";

/// A statement that selects whole alerts.
fn select_alerts(rest: &str) -> (sql: String)
    ensures
        sql@ == "SELECT "@ + ALERT_COLUMNS@ + " FROM alerts "@ + rest@,
{
    let mut sql: String = "SELECT ".to_string();
    sql.append(ALERT_COLUMNS);
    sql.append(" FROM alerts ");
    sql.append(rest);
    sql
}

/// Selects the alert of a user for a sensor.
pub fn select_alert() -> (sql: String)
    ensures
        sql@ == "SELECT "@ + ALERT_COLUMNS@ + " FROM alerts "@
            + "WHERE threema_id = ? AND sensor_id = ?"@,
{
    select_alerts("WHERE threema_id = ? AND sensor_id = ?")
}

/// Selects all alerts of a user, ordered by sensor.
pub fn select_alerts_of_user() -> (sql: String)
    ensures
        sql@ == "SELECT "@ + ALERT_COLUMNS@ + " FROM alerts "@
            + "WHERE threema_id = ? ORDER BY sensor_id"@,
{
    select_alerts("WHERE threema_id = ? ORDER BY sensor_id")
}

/// Selects every alert, ordered by `uid`.
pub fn select_all_alerts() -> (sql: String)
    ensures
        sql@ == "SELECT "@ + ALERT_COLUMNS@ + " FROM alerts "@ + "ORDER BY uid"@,
{
    select_alerts("ORDER BY uid")
}

// ---------------------------------------------------------------------------------------------
// Thresholds
// ---------------------------------------------------------------------------------------------

/// Smallest allowed alert threshold, in °C.
pub const MIN_THRESHOLD: u64 = 5;

/// Largest allowed alert threshold, in °C.
pub const MAX_THRESHOLD: u64 = 40;

/// Whether an alert may have this threshold.
pub open spec fn is_allowed(threshold: Binary64) -> bool {
    decimals::is_between(threshold, MIN_THRESHOLD as nat, MAX_THRESHOLD as nat)
}

/// The thresholds that are allowed are the numbers from 5 to 40 degrees.
pub proof fn law_thresholds_lie_between_5_and_40(threshold: Binary64)
    ensures
        is_allowed(threshold) == (!threshold.is_nan() && 5 * binary64::one() <= threshold.value()
            <= 40 * binary64::one()),
{
    rounding::law_whole_numbers_are_held(false, 5);
    rounding::law_whole_numbers_are_held(false, 40);
}

// ---------------------------------------------------------------------------------------------
// Rows
// ---------------------------------------------------------------------------------------------

/// Lifecycle state of an alert.
#[derive(Clone, Copy, Debug, PartialEq, Eq, Structural)]
pub enum AlertStatus {
    /// Waiting for the warm-enough condition; the bot may notify the user.
    Watching,
    /// Already notified; silent until it resets.
    Notified,
}

/// What stands in the `status` column: the lower-cased name of the state.
pub open spec fn status_text(status: AlertStatus) -> Seq<char> {
    match status {
        AlertStatus::Watching => "watching"@,
        AlertStatus::Notified => "notified"@,
    }
}

impl AlertStatus {
    /// What stands in the `status` column.
    pub fn to_column(self) -> (column: &'static str)
        ensures
            column@ == status_text(self),
    {
        match self {
            AlertStatus::Watching => "watching",
            AlertStatus::Notified => "notified",
        }
    }

    /// The state that stands in the `status` column, if it is one.
    pub fn from_column(column: &str) -> (status: Option<AlertStatus>)
        ensures
            match status {
                Some(status) => column@ == status_text(status),
                None => forall|status: AlertStatus| column@ != #[trigger] status_text(status),
            },
    {
        if text::same(column, "watching") {
            Some(AlertStatus::Watching)
        } else if text::same(column, "notified") {
            Some(AlertStatus::Notified)
        } else {
            None
        }
    }
}

/// The states are told apart by what stands in the column, so that reading it gives back the state
/// that was written.
pub proof fn law_status_columns_are_told_apart(a: AlertStatus, b: AlertStatus)
    requires
        status_text(a) == status_text(b),
    ensures
        a == b,
{
    reveal_strlit("watching");
    reveal_strlit("notified");
    assert(status_text(AlertStatus::Watching)[0] != status_text(AlertStatus::Notified)[0]);
}

/// A single alert row.
#[derive(Debug)]
pub struct Alert {
    /// Surrogate primary key.
    pub uid: i64,
    /// The alerted user's Threema ID (always 8 characters).
    pub threema_id: String,
    /// Gfrörli sensor this alert watches.
    pub sensor_id: SensorId,
    /// Temperature threshold in °C.
    pub threshold: Binary64,
    /// Alert lifecycle state.
    pub status: AlertStatus,
    /// Consecutive days the afternoon average was at or above the threshold.
    pub warm_streak: u32,
    /// Consecutive days the afternoon average was clearly below the threshold.
    pub cold_streak: u32,
    /// Calendar date (Europe/Zurich local) of the last evaluation, or `None` before the first run.
    pub last_eval_date: Option<Date>,
    /// Creation time as unix epoch seconds.
    pub created_at: i64,
}

/// What an alert row holds.
pub struct AlertView {
    pub uid: i64,
    pub threema_id: Seq<char>,
    pub sensor_id: SensorId,
    pub threshold: Binary64,
    pub status: AlertStatus,
    pub warm_streak: u32,
    pub cold_streak: u32,
    pub last_eval_date: Option<Date>,
    pub created_at: i64,
}

impl View for Alert {
    type V = AlertView;

    open spec fn view(&self) -> AlertView {
        AlertView {
            uid: self.uid,
            threema_id: self.threema_id@,
            sensor_id: self.sensor_id,
            threshold: self.threshold,
            status: self.status,
            warm_streak: self.warm_streak,
            cold_streak: self.cold_streak,
            last_eval_date: self.last_eval_date,
            created_at: self.created_at,
        }
    }
}

impl AlertView {
    /// The state machine of the alert.
    pub open spec fn state(self) -> AlertState {
        AlertState {
            status: self.status,
            warm_streak: self.warm_streak,
            cold_streak: self.cold_streak,
        }
    }
}

/// The row of a new alert.
pub open spec fn new_row(
    uid: i64,
    threema_id: Seq<char>,
    sensor_id: SensorId,
    threshold: Binary64,
    created_at: i64,
) -> AlertView {
    AlertView {
        uid,
        threema_id,
        sensor_id,
        threshold,
        status: AlertStatus::Watching,
        warm_streak: 0,
        cold_streak: 0,
        last_eval_date: None,
        created_at,
    }
}

/// A row with another threshold, started over: watching, without streaks, never evaluated.
pub open spec fn reset_row(row: AlertView, threshold: Binary64) -> AlertView {
    new_row(row.uid, row.threema_id, row.sensor_id, threshold, row.created_at)
}

/// A row after an evaluation.
pub open spec fn evaluated_row(row: AlertView, state: AlertState, today: Date) -> AlertView {
    AlertView {
        status: state.status,
        warm_streak: state.warm_streak,
        cold_streak: state.cold_streak,
        last_eval_date: Some(today),
        ..row
    }
}

impl Alert {
    /// The row of an alert that was just inserted.
    pub fn created(
        uid: i64,
        user: &Identity,
        sensor_id: SensorId,
        threshold: Binary64,
        created_at: i64,
    ) -> (row: Alert)
        ensures
            row@ == new_row(uid, user.text@, sensor_id, threshold, created_at),
    {
        Alert {
            uid,
            threema_id: user.text.clone(),
            sensor_id,
            threshold,
            status: AlertStatus::Watching,
            warm_streak: 0,
            cold_streak: 0,
            last_eval_date: None,
            created_at,
        }
    }

    /// The state machine of the alert.
    pub fn state(&self) -> (state: AlertState)
        ensures
            state == self@.state(),
    {
        AlertState {
            status: self.status,
            warm_streak: self.warm_streak,
            cold_streak: self.cold_streak,
        }
    }

    /// The creation time as an instant, or the start of 1970 where the calendar does not reach it.
    pub fn created_at_datetime(&self) -> (time: Instant)
        ensures
            time.nanos == 0,
            time.seconds == (if calendar::FIRST_SECOND <= self.created_at
                <= calendar::LAST_SECOND {
                self.created_at
            } else {
                0
            }),
    {
        match from_timestamp(self.created_at) {
            Some(time) => time,
            None => Instant { seconds: 0, nanos: 0 },
        }
    }
}

/// A new alert starts in the initial state, and so does one whose threshold is changed.
pub proof fn law_new_thresholds_start_over(row: AlertView, threshold: Binary64)
    ensures
        new_row(row.uid, row.threema_id, row.sensor_id, threshold, row.created_at).state()
            == alert::initial_state(),
        reset_row(row, threshold).state() == alert::initial_state(),
        reset_row(row, threshold).threshold == threshold,
        reset_row(row, threshold).last_eval_date is None,
        reset_row(row, threshold).uid == row.uid,
        reset_row(row, threshold).threema_id == row.threema_id,
        reset_row(row, threshold).sensor_id == row.sensor_id,
{
}

// ---------------------------------------------------------------------------------------------
// What statements report
// ---------------------------------------------------------------------------------------------

/// Whether a row was removed, from how many rows a deletion affected.
pub fn was_removed(affected: u64) -> (removed: bool)
    ensures
        removed == (affected > 0),
{
    affected > 0
}

/// How many alerts were removed, from how many rows a deletion affected.
pub fn removed_count(affected: u64) -> (count: u32)
    ensures
        count == (if affected <= u32::MAX {
            affected as int
        } else {
            u32::MAX as int
        }),
{
    if affected <= u32::MAX as u64 {
        affected as u32
    } else {
        u32::MAX
    }
}

/// An evaluation writes its state and its day into a row, and nothing else.
pub proof fn law_evaluations_write_state_and_day_alone(
    row: AlertView,
    state: AlertState,
    today: Date,
)
    ensures
        ({
            let after = evaluated_row(row, state, today);
            &&& after.status == state.status
            &&& after.warm_streak == state.warm_streak
            &&& after.cold_streak == state.cold_streak
            &&& after.last_eval_date == Some(today)
            &&& after.uid == row.uid
            &&& after.threema_id == row.threema_id
            &&& after.sensor_id == row.sensor_id
            &&& after.threshold == row.threshold
            &&& after.created_at == row.created_at
        }),
{
}

/// A new row is for the user, the sensor and the threshold that were asked for, watches without
/// streaks, and was never evaluated.
pub proof fn law_new_rows_hold_what_was_asked_for(
    uid: i64,
    user: Seq<char>,
    sensor_id: SensorId,
    threshold: Binary64,
    created_at: i64,
)
    ensures
        ({
            let row = new_row(uid, user, sensor_id, threshold, created_at);
            &&& row.uid == uid
            &&& row.threema_id == user
            &&& row.sensor_id == sensor_id
            &&& row.threshold == threshold
            &&& row.status is Watching
            &&& row.warm_streak == 0 && row.cold_streak == 0
            &&& row.last_eval_date is None
            &&& row.created_at == created_at
            &&& row.state() == (AlertState {
                status: row.status,
                warm_streak: row.warm_streak,
                cold_streak: row.cold_streak,
            })
        }),
{
}

/// What a row holds is all of it.
pub proof fn law_rows_are_read_completely(alert: Alert)
    ensures
        alert@.uid == alert.uid,
        alert@.threema_id == alert.threema_id@,
        alert@.sensor_id == alert.sensor_id,
        alert@.threshold == alert.threshold,
        alert@.status == alert.status,
        alert@.warm_streak == alert.warm_streak,
        alert@.cold_streak == alert.cold_streak,
        alert@.last_eval_date == alert.last_eval_date,
        alert@.created_at == alert.created_at,
{
}

} // verus!
