//! Days and instants, by the calendar and the time zone tables of `chrono` and `chrono-tz`.

use crate::numerals;
use chrono::{Datelike, TimeZone, Timelike};
use vstd::prelude::*;

verus! {

/// The first day of the calendar, in the year -262143.
pub const FIRST_DAY: i32 = -95_746_129;

/// The last day of the calendar, in the year 262142.
pub const LAST_DAY: i32 = 95_745_399;

/// The day 1970-01-01.
pub const EPOCH_DAY: i64 = 719_163;

/// Seconds in a day.
pub const DAY_SECONDS: i64 = 86_400;

/// The first second of the calendar, counted from 1970-01-01T00:00:00Z.
pub const FIRST_SECOND: i64 = -8_334_601_228_800;

/// The last second of the calendar, counted from 1970-01-01T00:00:00Z.
pub const LAST_SECOND: i64 = 8_210_266_876_799;

/// Nanoseconds in a second.
pub const SECOND_NANOS: u32 = 1_000_000_000;

/// A calendar day, counted from 0001-01-01, which is day 1.
#[derive(Clone, Copy, Debug, PartialEq, Eq, Structural)]
pub struct Date {
    /// How many days into the calendar the day is.
    pub days: i32,
}

impl Date {
    /// Whether the calendar has this day.
    pub open spec fn exists_in_calendar(self) -> bool {
        FIRST_DAY <= self.days <= LAST_DAY
    }

    /// Whether the calendar has this day.
    pub fn is_valid(self) -> (valid: bool)
        ensures
            valid == self.exists_in_calendar(),
    {
        FIRST_DAY <= self.days && self.days <= LAST_DAY
    }

    /// The day that comes `count` days earlier.
    pub fn days_before(self, count: u16) -> (day: Date)
        requires
            self.days - count >= FIRST_DAY,
        ensures
            day.days == self.days - count,
    {
        Date { days: self.days - count as i32 }
    }
}

/// A point in time: whole seconds since 1970-01-01T00:00:00Z and the nanoseconds after them.
#[derive(Clone, Copy, Debug, PartialEq, Eq, Structural)]
pub struct Instant {
    /// Whole seconds since 1970-01-01T00:00:00Z, leap seconds left out.
    pub seconds: i64,
    /// Nanoseconds since the last whole second.
    pub nanos: u32,
}

impl Instant {
    /// Whether the calendar has this instant. Leap seconds are left out.
    pub open spec fn exists_in_calendar(self) -> bool {
        FIRST_SECOND <= self.seconds <= LAST_SECOND && self.nanos < SECOND_NANOS
    }

    /// Nanoseconds since 1970-01-01T00:00:00Z.
    pub open spec fn total_nanos(self) -> int {
        self.seconds * SECOND_NANOS + self.nanos
    }

    /// Nanoseconds since 1970-01-01T00:00:00Z.
    pub fn nanos_since_epoch(self) -> (total: i128)
        ensures
            total == self.total_nanos(),
    {
        self.seconds as i128 * 1_000_000_000 + self.nanos as i128
    }

    /// Whether this instant comes before another one.
    pub open spec fn earlier(self, other: Instant) -> bool {
        self.seconds < other.seconds || (self.seconds == other.seconds && self.nanos < other.nanos)
    }

    /// Whether the calendar has this instant.
    pub fn is_valid(self) -> (valid: bool)
        ensures
            valid == self.exists_in_calendar(),
    {
        FIRST_SECOND <= self.seconds && self.seconds <= LAST_SECOND && self.nanos < SECOND_NANOS
    }

    /// Whether this instant comes before another one.
    pub fn is_before(self, other: Instant) -> (before: bool)
        ensures
            before == self.earlier(other),
    {
        self.seconds < other.seconds || (self.seconds == other.seconds && self.nanos < other.nanos)
    }
}

/// The instant that so many nanoseconds since 1970-01-01T00:00:00Z are.
pub open spec fn instant_of(total: int) -> Instant {
    Instant { seconds: (total / SECOND_NANOS as int) as i64, nanos: (total % SECOND_NANOS as int) as u32 }
}

/// Whether the calendar reaches so many nanoseconds from 1970-01-01T00:00:00Z.
pub open spec fn has_nanos(total: int) -> bool {
    FIRST_SECOND * SECOND_NANOS <= total < (LAST_SECOND + 1) * SECOND_NANOS
}

/// What the calendar reaches is an instant of the calendar, and the other way round.
pub proof fn law_instants_are_nanoseconds(total: int, instant: Instant)
    ensures
        has_nanos(total) ==> instant_of(total).exists_in_calendar() && instant_of(
            total,
        ).total_nanos() == total,
        instant.exists_in_calendar() ==> has_nanos(instant.total_nanos()) && instant_of(
            instant.total_nanos(),
        ) == instant,
{
    if instant.exists_in_calendar() {
        vstd::arithmetic::div_mod::lemma_fundamental_div_mod_converse(
            instant.total_nanos(),
            SECOND_NANOS as int,
            instant.seconds as int,
            instant.nanos as int,
        );
    }
}

/// The instant so many nanoseconds from 1970-01-01T00:00:00Z.
pub fn instant_at(total: i128) -> (instant: Instant)
    requires
        has_nanos(total as int),
    ensures
        instant == instant_of(total as int),
{
    let first: i128 = FIRST_SECOND as i128 * SECOND_NANOS as i128;
    let offset: u128 = (total - first) as u128;
    let seconds: u128 = offset / 1_000_000_000;
    let nanos: u128 = offset % 1_000_000_000;
    proof {
        vstd::arithmetic::div_mod::lemma_fundamental_div_mod_converse(
            total as int,
            SECOND_NANOS as int,
            FIRST_SECOND + seconds,
            nanos as int,
        );
    }
    Instant { seconds: FIRST_SECOND + seconds as i64, nanos: nanos as u32 }
}

/// An integer quotient cut towards zero, for a positive divisor.
pub open spec fn cut_quotient(num: int, den: int) -> int {
    if num >= 0 {
        num / den
    } else {
        -((-num) / den)
    }
}

/// `chrono::DateTime::from_timestamp` with no nanoseconds: the instant so many seconds after
/// 1970-01-01T00:00:00Z, or nothing where the calendar does not reach that far.
#[verifier::external_body]
pub(crate) fn from_timestamp(seconds: i64) -> (instant: Option<Instant>)
    ensures
        instant == (if FIRST_SECOND <= seconds <= LAST_SECOND {
            Some(Instant { seconds, nanos: 0 })
        } else {
            None
        }),
{
    match chrono::DateTime::from_timestamp(seconds, 0) {
        Some(time) => Some(
            Instant { seconds: time.timestamp(), nanos: time.timestamp_subsec_nanos() },
        ),
        None => None,
    }
}

/// `chrono::Utc::now`: the time on the machine's clock. All that is claimed is that the calendar
/// has it and that it is not before 1970.
#[verifier::external_body]
pub(crate) fn utc_now() -> (now: Instant)
    ensures
        now.exists_in_calendar(),
        now.seconds >= 0,
{
    let time = chrono::Utc::now();
    Instant { seconds: time.timestamp(), nanos: time.timestamp_subsec_nanos() }
}

/// `chrono::DateTime::signed_duration_since` and `chrono::TimeDelta::num_seconds`: the whole
/// seconds from one instant to another, cut towards zero.
#[verifier::external_body]
pub(crate) fn seconds_between(from: Instant, to: Instant) -> (seconds: i64)
    requires
        from.exists_in_calendar(),
        to.exists_in_calendar(),
    ensures
        seconds == cut_quotient(to.total_nanos() - from.total_nanos(), SECOND_NANOS as int),
{
    let start = chrono::DateTime::from_timestamp(from.seconds, from.nanos).unwrap();
    let end = chrono::DateTime::from_timestamp(to.seconds, to.nanos).unwrap();
    end.signed_duration_since(start).num_seconds()
}

/// `chrono::DateTime::signed_duration_since` and `chrono::TimeDelta::num_nanoseconds`: the
/// nanoseconds from one instant to another, or nothing where an `i64` does not hold them.
#[verifier::external_body]
pub(crate) fn nanoseconds_between(from: Instant, to: Instant) -> (nanos: Option<i64>)
    requires
        from.exists_in_calendar(),
        to.exists_in_calendar(),
    ensures
        nanos == (if i64::MIN <= to.total_nanos() - from.total_nanos() <= i64::MAX {
            Some((to.total_nanos() - from.total_nanos()) as i64)
        } else {
            None
        }),
{
    let start = chrono::DateTime::from_timestamp(from.seconds, from.nanos).unwrap();
    let end = chrono::DateTime::from_timestamp(to.seconds, to.nanos).unwrap();
    end.signed_duration_since(start).num_nanoseconds()
}

/// `chrono::DateTime` plus `chrono::TimeDelta::nanoseconds`: the instant so many nanoseconds later.
#[verifier::external_body]
pub(crate) fn after_nanoseconds(start: Instant, nanos: i64) -> (end: Instant)
    requires
        start.exists_in_calendar(),
        has_nanos(start.total_nanos() + nanos),
    ensures
        end == instant_of(start.total_nanos() + nanos),
{
    let time = chrono::DateTime::from_timestamp(start.seconds, start.nanos).unwrap()
        + chrono::TimeDelta::nanoseconds(nanos);
    Instant { seconds: time.timestamp(), nanos: time.timestamp_subsec_nanos() }
}

/// `chrono::DateTime::date_naive` of an instant in UTC: its day.
#[verifier::external_body]
pub(crate) fn utc_day(instant: Instant) -> (day: Date)
    requires
        instant.exists_in_calendar(),
    ensures
        day.days == EPOCH_DAY + instant.seconds as int / DAY_SECONDS as int,
{
    let time = chrono::DateTime::from_timestamp(instant.seconds, instant.nanos).unwrap();
    Date { days: time.date_naive().num_days_from_ce() }
}

/// The second at which an hour of a day begins in Zurich: what
/// `chrono::TimeZone::from_local_datetime` gives for `chrono_tz::Tz::Europe__Zurich` where that is
/// a single instant. There is none where the clocks skip that hour or run through it twice.
pub uninterp spec fn zurich_second(days: int, hour: int) -> Option<i64>;

/// `chrono::TimeZone::from_local_datetime` of `chrono_tz::Tz::Europe__Zurich`, with
/// `MappedLocalTime::single`: it gives the same for a day and an hour every time, by the tables
/// that are built into `chrono-tz`. What it gives is an instant of the calendar.
#[verifier::external_body]
pub(crate) fn zurich_instant(day: Date, hour: u8) -> (instant: Option<Instant>)
    requires
        day.exists_in_calendar(),
        hour < 24,
    ensures
        instant == (match zurich_second(day.days as int, hour as int) {
            Some(seconds) => Some(Instant { seconds, nanos: 0 }),
            None => None,
        }),
        instant is Some ==> instant->0.exists_in_calendar(),
{
    let date = chrono::NaiveDate::from_num_days_from_ce_opt(day.days).unwrap();
    let local = date.and_hms_opt(u32::from(hour), 0, 0).unwrap();
    match chrono_tz::Tz::Europe__Zurich.from_local_datetime(&local).single() {
        Some(time) => Some(Instant { seconds: time.timestamp(), nanos: 0 }),
        None => None,
    }
}

/// Whether a year has a leap day.
pub open spec fn is_leap(year: int) -> bool {
    year % 4 == 0 && (year % 100 != 0 || year % 400 == 0)
}

/// The days before a year, counted from 0001-01-01.
pub open spec fn days_before_year(year: int) -> int {
    let past = year - 1;
    365 * past + past / 4 - past / 100 + past / 400
}

/// The days of a month.
pub open spec fn month_length(year: int, month: int) -> int {
    if month == 2 {
        if is_leap(year) {
            29
        } else {
            28
        }
    } else if month == 4 || month == 6 || month == 9 || month == 11 {
        30
    } else {
        31
    }
}

/// The days of a year before a month.
pub open spec fn days_before_month(year: int, month: int) -> int
    decreases month,
{
    if month <= 1 {
        0
    } else {
        days_before_month(year, month - 1) + month_length(year, month - 1)
    }
}

/// Whether a day, counted from 0001-01-01, which is day 1, has this date in the Gregorian calendar.
pub open spec fn is_date(days: int, year: int, month: int, day: int) -> bool {
    &&& 1 <= month <= 12
    &&& 1 <= day <= month_length(year, month)
    &&& days == days_before_year(year) + days_before_month(year, month) + day
}

/// The year, the month and the day of the month of a day.
pub open spec fn civil(days: int) -> (int, int, int) {
    choose|date: (int, int, int)| #[trigger] is_date(days, date.0, date.1, date.2)
}

/// A later month begins after all days of an earlier one, and the year holds them all.
proof fn lemma_months(year: int, earlier: int, later: int)
    requires
        1 <= earlier < later <= 13,
    ensures
        days_before_month(year, earlier) + month_length(year, earlier) <= days_before_month(
            year,
            later,
        ),
    decreases later,
{
    if earlier < later - 1 {
        lemma_months(year, earlier, later - 1);
    }
}

/// A later year begins after all days of an earlier one.
proof fn lemma_years(earlier: int, later: int)
    requires
        earlier < later,
    ensures
        days_before_year(earlier) + days_before_month(earlier, 13) <= days_before_year(later),
{
    reveal_with_fuel(days_before_month, 14);
    assert(days_before_month(earlier, 13) == if is_leap(earlier) {
        366int
    } else {
        365
    });
    assert(days_before_year(earlier + 1) == days_before_year(earlier) + days_before_month(
        earlier,
        13,
    ));
    assert(days_before_year(earlier + 1) <= days_before_year(later));
}

/// A day has one date.
pub proof fn law_days_have_one_date(days: int, a: (int, int, int), b: (int, int, int))
    requires
        is_date(days, a.0, a.1, a.2),
        is_date(days, b.0, b.1, b.2),
    ensures
        a == b,
        a == civil(days),
{
    lemma_one_date(days, a, b);
    lemma_one_date(days, a, civil(days));
}

proof fn lemma_one_date(days: int, a: (int, int, int), b: (int, int, int))
    requires
        is_date(days, a.0, a.1, a.2),
        is_date(days, b.0, b.1, b.2),
    ensures
        a == b,
{
    lemma_months(a.0, a.1, 13);
    lemma_months(b.0, b.1, 13);
    lemma_months_are_not_negative(a.0, a.1);
    lemma_months_are_not_negative(b.0, b.1);
    if a.0 < b.0 {
        lemma_years(a.0, b.0);
    } else if b.0 < a.0 {
        lemma_years(b.0, a.0);
    } else if a.1 < b.1 {
        lemma_months(a.0, a.1, b.1);
    } else if b.1 < a.1 {
        lemma_months(a.0, b.1, a.1);
    }
}

proof fn lemma_months_are_not_negative(year: int, month: int)
    ensures
        days_before_month(year, month) >= 0,
    decreases month,
{
    if month > 1 {
        lemma_months_are_not_negative(year, month - 1);
    }
}

/// What the clocks and calendars in Zurich show.
#[derive(Clone, Copy, Debug, PartialEq, Eq, Structural)]
pub struct LocalTime {
    /// The day. In the last hour of the calendar it is already the day after.
    pub day: Date,
    /// The month of that day.
    pub month: u8,
    /// The day of that month.
    pub month_day: u8,
    /// The hour.
    pub hour: u8,
    /// The minute.
    pub minute: u8,
}

impl LocalTime {
    /// Minutes since the clocks showed 1970-01-01T00:00.
    pub open spec fn minutes(self) -> int {
        ((self.day.days - EPOCH_DAY) * 24 + self.hour) * 60 + self.minute
    }
}

/// The day, the hour and the minute on the clocks in Zurich: what `chrono::DateTime::with_timezone`
/// gives for `chrono_tz::Tz::Europe__Zurich`.
pub uninterp spec fn zurich_clock(seconds: int) -> (int, int, int);

/// `chrono::DateTime::with_timezone` for `chrono_tz::Tz::Europe__Zurich`, with `num_days_from_ce`,
/// `month`, `day`, `hour` and `minute`: it gives the same for an instant every time, by the tables
/// that are built into `chrono-tz`. Month and day are those of the Gregorian calendar, carried on
/// backwards before its adoption. The hour is one of 24, and the minute one of 60. The offsets in
/// the tables are positive and at most two hours, and the day after the last one of the calendar
/// can still be shown.
#[verifier::external_body]
pub(crate) fn zurich_time(instant: Instant) -> (time: LocalTime)
    requires
        instant.exists_in_calendar(),
    ensures
        (time.day.days as int, time.hour as int, time.minute as int) == zurich_clock(
            instant.seconds as int,
        ),
        exists|year: int|
            #[trigger] is_date(
                time.day.days as int,
                year,
                time.month as int,
                time.month_day as int,
            ),
        time.hour < 24,
        time.minute < 60,
        instant.seconds as int / 60 <= time.minutes() <= instant.seconds as int / 60 + 120,
{
    let time = chrono::DateTime::from_timestamp(instant.seconds, instant.nanos)
        .unwrap()
        .with_timezone(&chrono_tz::Tz::Europe__Zurich);
    let day = Date { days: time.num_days_from_ce() };
    let (month, month_day) = (time.month() as u8, time.day() as u8);
    LocalTime { day, month, month_day, hour: time.hour() as u8, minute: time.minute() as u8 }
}

/// A number with at least four digits.
pub open spec fn four_digits(number: nat) -> Seq<char> {
    if number < 10 {
        "000"@ + numerals::decimal(number)
    } else if number < 100 {
        "00"@ + numerals::decimal(number)
    } else if number < 1000 {
        "0"@ + numerals::decimal(number)
    } else {
        numerals::decimal(number)
    }
}

/// A day as in ISO 8601: with a sign before years that lie outside of four digits.
pub open spec fn date_text(days: int) -> Seq<char> {
    let (year, month, day) = civil(days);
    let years = if year < 0 {
        "-"@ + four_digits((-year) as nat)
    } else if year <= 9999 {
        four_digits(year as nat)
    } else {
        "+"@ + four_digits(year as nat)
    };
    years + "-"@ + numerals::two_digits(month as nat) + "-"@ + numerals::two_digits(day as nat)
}

/// The `Display` of `chrono::NaiveDate`, which writes a day as in ISO 8601.
#[verifier::external_body]
pub(crate) fn text_of_date(day: Date) -> (text: String)
    requires
        day.exists_in_calendar(),
    ensures
        text@ == date_text(day.days as int),
{
    chrono::NaiveDate::from_num_days_from_ce_opt(day.days).unwrap().to_string()
}

/// What the clocks and calendars in Zurich show at an instant of the calendar. From two o'clock on
/// that is a day of the calendar; before, it can be the day after the last one.
pub fn local_clock(instant: Instant) -> (clock: Option<LocalTime>)
    ensures
        clock is Some <==> instant.exists_in_calendar(),
        clock matches Some(time) ==> {
            &&& (time.day.days as int, time.hour as int, time.minute as int) == zurich_clock(
                instant.seconds as int,
            )
            &&& civil(time.day.days as int).1 == time.month
            &&& civil(time.day.days as int).2 == time.month_day
            &&& FIRST_DAY <= time.day.days <= LAST_DAY + 1
            &&& time.hour >= 2 ==> time.day.exists_in_calendar()
            &&& 1 <= time.month <= 12
            &&& 1 <= time.month_day <= 31
            &&& time.hour < 24
            &&& time.minute < 60
            &&& instant.seconds as int / 60 <= time.minutes() <= instant.seconds as int / 60 + 120
        },
{
    if instant.is_valid() {
        let time: LocalTime = zurich_time(instant);
        proof {
            let days = time.day.days as int;
            let year = choose|year: int|
                #[trigger] is_date(days, year, time.month as int, time.month_day as int);
            let found = (year, time.month as int, time.month_day as int);
            law_days_have_one_date(days, found, found);
        }
        Some(time)
    } else {
        None
    }
}

/// The instant at which an hour of a day begins in Zurich, if there is exactly one.
pub open spec fn local_instant(day: Date, hour: u8) -> Option<Instant> {
    if day.exists_in_calendar() && hour < 24 {
        match zurich_second(day.days as int, hour as int) {
            Some(seconds) => Some(Instant { seconds, nanos: 0 }),
            None => None,
        }
    } else {
        None
    }
}

/// The instant at which an hour of a day begins in Zurich, if there is exactly one.
pub fn to_instant(day: Date, hour: u8) -> (instant: Option<Instant>)
    ensures
        instant == local_instant(day, hour),
        instant is Some ==> instant->0.exists_in_calendar(),
{
    if day.is_valid() && hour < 24 {
        zurich_instant(day, hour)
    } else {
        None
    }
}

} // verus!
