//! What the bot does with the commands of its users.
//!
//! Each command is a few steps. A step takes what the user wrote or what was fetched, and says what
//! to reply or what to do next; the fetching, storing and sending between the steps is up to the
//! caller.

use crate::api;
use crate::api::{filter_sensors, DailyTemperature, HourlyTemperature, Sensor, SensorId, Sponsor};
use crate::binary64;
use crate::binary64::Binary64;
use crate::calendar;
use crate::calendar::{utc_day, utc_now, Date, Instant};
use crate::chart::{ChartPoint, DailyPoint, HourlyPoint};
use crate::decimals;
use crate::decimals::{parse_between, Parsed};
use crate::numerals;
use crate::numerals::push_number;
use crate::points;
use crate::points::{daily_points, hourly_points_at};
use crate::replies;
use crate::replies::{
    compute_stats, format_alert_added, format_alert_limit_reached, format_alert_removed,
    format_alert_unchanged, format_alert_updated, format_alerts_list, format_no_alert_for,
    format_no_sponsor, format_sponsor_text, format_stats_text_at, resolve_single_sensor, Aggregate,
    AlertEntry, AlertEntryView, ALERT_USAGE, MAX_ALERTS_PER_USER, UNALERT_USAGE,
};
use crate::statistics;
use crate::store;
use crate::store::{Alert, AlertView};
use crate::text;
use crate::text::{equals_ignoring_case, same, split_at_last_white, trim};
use vstd::prelude::*;

verus! {

// ---------------------------------------------------------------------------------------------
// Commands
// ---------------------------------------------------------------------------------------------

/// What the bot says of itself.
pub const DESCRIPTION: &'static str =
    "🥶🤖 *Gfrörli Bot:* Check water temperatures in Swiss water bodies.";

/// What is said before the list of commands to a message that is none.
pub const NOT_UNDERSTOOD: &'static str =
    "I didn't understand that. Here are the available commands:";

/// A command of the bot.
#[derive(Clone, Copy, Debug, PartialEq, Eq, Structural)]
pub enum Command {
    /// List all available sensors.
    Sensors,
    /// Show the temperature of a sensor.
    Temp,
    /// Show statistics and charts for a sensor.
    Stats,
    /// List all project sponsors.
    Sponsors,
    /// Show the sponsor of a sensor.
    Sponsor,
    /// Create or change an alert.
    Alert,
    /// List the user's alerts.
    Alerts,
    /// Remove an alert, or all of them.
    Unalert,
    /// Show information about the project.
    About,
    /// Anything else; answered with the list of commands.
    Help,
}

/// The command of some name.
pub open spec fn command_named(name: Seq<char>) -> Command {
    if name == "sensors"@ {
        Command::Sensors
    } else if name == "temp"@ {
        Command::Temp
    } else if name == "stats"@ {
        Command::Stats
    } else if name == "sponsors"@ {
        Command::Sponsors
    } else if name == "sponsor"@ {
        Command::Sponsor
    } else if name == "alert"@ {
        Command::Alert
    } else if name == "alerts"@ {
        Command::Alerts
    } else if name == "unalert"@ {
        Command::Unalert
    } else if name == "about"@ {
        Command::About
    } else {
        Command::Help
    }
}

/// The command of some name.
pub fn find_command(name: &str) -> (command: Command)
    ensures
        command == command_named(name@),
{
    if same(name, "sensors") {
        Command::Sensors
    } else if same(name, "temp") {
        Command::Temp
    } else if same(name, "stats") {
        Command::Stats
    } else if same(name, "sponsors") {
        Command::Sponsors
    } else if same(name, "sponsor") {
        Command::Sponsor
    } else if same(name, "alert") {
        Command::Alert
    } else if same(name, "alerts") {
        Command::Alerts
    } else if same(name, "unalert") {
        Command::Unalert
    } else if same(name, "about") {
        Command::About
    } else {
        Command::Help
    }
}

/// Each command has one name.
pub proof fn law_commands_have_their_names()
    ensures
        command_named("sensors"@) is Sensors,
        command_named("temp"@) is Temp,
        command_named("stats"@) is Stats,
        command_named("sponsors"@) is Sponsors,
        command_named("sponsor"@) is Sponsor,
        command_named("alert"@) is Alert,
        command_named("alerts"@) is Alerts,
        command_named("unalert"@) is Unalert,
        command_named("about"@) is About,
        forall|name: Seq<char>, other: Seq<char>|
            #![trigger command_named(name), command_named(other)]
            command_named(name) == command_named(other) && !(command_named(name) is Help) ==> name
                == other,
{
    reveal_strlit("sensors");
    reveal_strlit("temp");
    reveal_strlit("stats");
    reveal_strlit("sponsors");
    reveal_strlit("sponsor");
    reveal_strlit("alert");
    reveal_strlit("alerts");
    reveal_strlit("unalert");
    reveal_strlit("about");
    assert("sensors"@.len() == 7 && "temp"@.len() == 4 && "stats"@.len() == 5 && "sponsors"@.len() == 8
        && "sponsor"@.len() == 7 && "alert"@.len() == 5 && "alerts"@.len() == 6 && "unalert"@.len()
        == 7 && "about"@.len() == 5);
    assert("sensors"@[1] != "sponsor"@[1] && "sensors"@[0] != "unalert"@[0] && "sponsor"@[0]
        != "unalert"@[0] && "stats"@[0] != "alert"@[0] && "stats"@[0] != "about"@[0] && "alert"@[1]
        != "about"@[1]);
}

/// The name of a command and what it does, as shown in the list of commands.
pub type CommandInfo = (&'static str, &'static str);

/// The names of some commands and what they do.
pub open spec fn infos(commands: Seq<CommandInfo>) -> Seq<(Seq<char>, Seq<char>)> {
    commands.map_values(|info: CommandInfo| (info.0@, info.1@))
}

/// The commands on sensors, as shown in the list.
pub open spec fn sensor_infos() -> Seq<(Seq<char>, Seq<char>)> {
    seq![
        ("sensors"@, "List all available sensors"@),
        ("temp"@, "Get current temperature (e.g. /temp Aare)"@),
        ("stats"@, "Show stats and charts for a sensor (e.g. /stats Aare)"@),
    ]
}

/// The commands on sponsors, as shown in the list.
pub open spec fn sponsor_infos() -> Seq<(Seq<char>, Seq<char>)> {
    seq![
        ("sponsors"@, "List all project sponsors"@),
        ("sponsor"@, "Show sponsor for a sensor (e.g. /sponsor Aare)"@),
    ]
}

/// The commands on alerts, as shown in the list.
pub open spec fn alert_infos() -> Seq<(Seq<char>, Seq<char>)> {
    seq![
        ("alert"@, "Get notified when a water body warms up (e.g. /alert Aare 20)"@),
        ("alerts"@, "List your active alerts"@),
        ("unalert"@, "Remove an alert (e.g. /unalert Aare, or /unalert all)"@),
    ]
}

/// The command on the project, as shown in the list.
pub open spec fn about_info() -> (Seq<char>, Seq<char>) {
    ("about"@, "About the Gfrörli project"@)
}

/// All commands that are shown in the list.
pub open spec fn listed_commands() -> Seq<(Seq<char>, Seq<char>)> {
    sensor_infos() + sponsor_infos() + alert_infos() + seq![about_info()]
}

/// The commands on sensors.
pub fn sensor_commands() -> (commands: Vec<CommandInfo>)
    ensures
        infos(commands@) == sensor_infos(),
{
    let mut commands: Vec<CommandInfo> = Vec::new();
    commands.push(("sensors", "List all available sensors"));
    commands.push(("temp", "Get current temperature (e.g. /temp Aare)"));
    commands.push(("stats", "Show stats and charts for a sensor (e.g. /stats Aare)"));
    commands
}

/// The commands on sponsors.
pub fn sponsor_commands() -> (commands: Vec<CommandInfo>)
    ensures
        infos(commands@) == sponsor_infos(),
{
    let mut commands: Vec<CommandInfo> = Vec::new();
    commands.push(("sponsors", "List all project sponsors"));
    commands.push(("sponsor", "Show sponsor for a sensor (e.g. /sponsor Aare)"));
    commands
}

/// The commands on alerts.
pub fn alert_commands() -> (commands: Vec<CommandInfo>)
    ensures
        infos(commands@) == alert_infos(),
{
    let mut commands: Vec<CommandInfo> = Vec::new();
    commands.push(("alert", "Get notified when a water body warms up (e.g. /alert Aare 20)"));
    commands.push(("alerts", "List your active alerts"));
    commands.push(("unalert", "Remove an alert (e.g. /unalert Aare, or /unalert all)"));
    commands
}

/// The command on the project.
pub fn about_command() -> (command: CommandInfo)
    ensures
        (command.0@, command.1@) == about_info(),
{
    ("about", "About the Gfrörli project")
}

/// The commands that are carried out are those that are shown in the list.
pub proof fn law_listed_commands_are_carried_out(name: Seq<char>)
    ensures
        command_named(name) != Command::Help <==> exists|i: int|
            0 <= i < listed_commands().len() && (#[trigger] listed_commands()[i]).0 == name,
{
    let listed = listed_commands();
    assert(listed.len() == 9);
    assert(listed[0].0 == "sensors"@);
    assert(listed[1].0 == "temp"@);
    assert(listed[2].0 == "stats"@);
    assert(listed[3].0 == "sponsors"@);
    assert(listed[4].0 == "sponsor"@);
    assert(listed[5].0 == "alert"@);
    assert(listed[6].0 == "alerts"@);
    assert(listed[7].0 == "unalert"@);
    assert(listed[8].0 == "about"@);
}

// ---------------------------------------------------------------------------------------------
// Looking up a sensor
// ---------------------------------------------------------------------------------------------

/// What to do first with a command on one sensor.
#[derive(Debug)]
pub enum Lookup {
    /// Reply with this text; there is nothing to look up.
    Reply(String),
    /// Fetch the sensors and pick the one that this query means.
    Find(String),
}

/// What is said where a command lacks the sensor.
pub open spec fn missing_query_text(command: Seq<char>) -> Seq<char> {
    "Please specify a sensor name or ID.\n\nExample: /"@ + command + " Aare\nExample: /"@ + command
        + " 1\n\nUse /sensors to list all available sensors."@
}

/// What is said where a command lacks the sensor shows how to use that command.
pub proof fn law_commands_without_a_sensor_are_explained(command: Seq<char>)
    ensures
        text::holds(missing_query_text(command), "/"@ + command + " Aare"@),
        text::holds(missing_query_text(command), "/"@ + command + " 1"@),
{
    let told = missing_query_text(command);
    reveal_strlit("Please specify a sensor name or ID.\n\nExample: /");
    reveal_strlit("Please specify a sensor name or ID.\n\nExample: ");
    reveal_strlit("/");
    reveal_strlit(" Aare\nExample: /");
    reveal_strlit(" Aare");
    reveal_strlit("\nExample: ");
    reveal_strlit(" 1\n\nUse /sensors to list all available sensors.");
    reveal_strlit(" 1");
    reveal_strlit("\n\nUse /sensors to list all available sensors.");
    let a = "Please specify a sensor name or ID.\n\nExample: "@;
    let c = "\n\nUse /sensors to list all available sensors."@;
    assert("Please specify a sensor name or ID.\n\nExample: /"@ =~= a + "/"@);
    assert(" Aare\nExample: /"@ =~= " Aare"@ + "\nExample: "@ + "/"@);
    assert(" 1\n\nUse /sensors to list all available sensors."@ =~= " 1"@ + c);
    let (p, q) = ("/"@ + command + " Aare"@, "/"@ + command + " 1"@);
    assert(told =~= a + p + ("\nExample: "@ + q + c));
    text::lemma_holds(a, p, "\nExample: "@ + q + c);
    assert(told =~= (a + p + "\nExample: "@) + q + c);
    text::lemma_holds(a + p + "\nExample: "@, q, c);
}

/// Begin a command on one sensor: `/temp`, `/stats` or `/sponsor`.
pub fn begin_lookup(command: &str, args: &str) -> (lookup: Lookup)
    ensures
        match lookup {
            Lookup::Reply(message) => text::trimmed(args@).len() == 0 && message@
                == missing_query_text(command@),
            Lookup::Find(query) => text::trimmed(args@).len() > 0 && query@ == text::trimmed(args@),
        },
{
    let query: String = trim(args);
    if query.as_str().unicode_len() == 0 {
        let mut message: String = "Please specify a sensor name or ID.\n\nExample: /".to_string();
        message.append(command);
        message.append(" Aare\nExample: /");
        message.append(command);
        message.append(" 1\n\nUse /sensors to list all available sensors.");
        Lookup::Reply(message)
    } else {
        Lookup::Find(query)
    }
}

/// What is said where a query does not mean exactly one sensor.
pub open spec fn unresolved_text(query: Seq<char>, sensors: Seq<Sensor>, hint: Seq<char>) -> Seq<
    char,
> {
    let found = api::sensors_meant(sensors, query);
    if found.len() == 0 {
        replies::no_match_text(query)
    } else {
        replies::many_matches_text(query, found, hint)
    }
}

/// Pick the one sensor that a query means, or say why there is none.
pub fn pick_sensor(query: &str, sensors: Vec<Sensor>, command_hint: &str) -> (picked: Result<
    Sensor,
    String,
>)
    ensures
        match picked {
            Ok(sensor) => api::sensors_meant(sensors@, query@) == seq![sensor],
            Err(message) => {
                &&& api::sensors_meant(sensors@, query@).len() != 1
                &&& message@ == unresolved_text(query@, sensors@, command_hint@)
            },
        },
{
    let ghost given = sensors@;
    let found: Vec<Sensor> = filter_sensors(sensors, query);
    let ghost meant = found@;
    let picked = resolve_single_sensor(query, found, command_hint);
    proof {
        if picked is Ok {
            assert(meant =~= seq![picked->Ok_0]);
        }
    }
    picked
}

/// Whether all sensors have measurements at instants of the calendar.
pub open spec fn all_dated(sensors: Seq<Sensor>) -> bool {
    forall|i: int| 0 <= i < sensors.len() ==> (#[trigger] sensors[i]).is_dated()
}

/// The reply to `/temp`.
pub open spec fn temp_text(query: Seq<char>, sensors: Seq<Sensor>, now: Instant) -> Seq<char> {
    let found = api::sensors_meant(sensors, query);
    if found.len() == 1 {
        found[0]@.device_name + ": "@ + api::reading(found[0]@, now)
    } else {
        unresolved_text(query, sensors, "/temp 1"@)
    }
}

/// Answer `/temp` from the list of sensors, as of `now`.
pub fn answer_temp_at(query: &str, sensors: Vec<Sensor>, now: Instant) -> (reply: String)
    requires
        all_dated(sensors@),
        now.exists_in_calendar(),
    ensures
        reply@ == temp_text(query@, sensors@, now),
{
    let ghost given = sensors@;
    match pick_sensor(query, sensors, "/temp 1") {
        Ok(sensor) => {
            proof {
                lemma_meant_is_listed(given, query@, sensor);
            }
            sensor.format_temperature_at(now)
        },
        Err(message) => message,
    }
}

/// The reply to `/temp` is the reading of the sensor, behind its name, where exactly one sensor is
/// found. It repeats the query where none is, and lists all that are found where there are several.
pub proof fn law_temp_tells_the_reading_of_the_one_sensor(
    query: Seq<char>,
    sensors: Seq<Sensor>,
    now: Instant,
)
    ensures
        ({
            let found = api::sensors_meant(sensors, query);
            let told = temp_text(query, sensors, now);
            &&& found.len() == 1 ==> told == found[0].device_name@ + ": "@ + api::reading(
                found[0]@,
                now,
            )
            &&& found.len() == 0 ==> text::holds(told, query)
            &&& found.len() > 1 ==> forall|i: int|
                0 <= i < found.len() ==> text::holds(
                    told,
                    api::list_entry((#[trigger] found[i])@) + "\n"@,
                )
        }),
{
    let found = api::sensors_meant(sensors, query);
    let told = temp_text(query, sensors, now);
    if found.len() == 0 {
        text::lemma_holds(
            "No sensor found matching \""@,
            query,
            "\".\n\nUse /sensors to list all available sensors."@,
        );
    } else if found.len() > 1 {
        assert forall|i: int| 0 <= i < found.len() implies text::holds(
            told,
            api::list_entry((#[trigger] found[i])@) + "\n"@,
        ) by {
            replies::law_unclear_queries_are_told(query, found, "/temp 1"@, i);
        }
    }
}

/// A sensor that a query means is one of the listed ones.
proof fn lemma_meant_is_listed(sensors: Seq<Sensor>, query: Seq<char>, sensor: Sensor)
    requires
        api::sensors_meant(sensors, query) == seq![sensor],
        all_dated(sensors),
    ensures
        sensor.is_dated(),
{
    api::law_finds_what_is_meant(sensors, query, sensor);
    assert(seq![sensor][0] == sensor);
    assert(api::sensors_meant(sensors, query).contains(sensor));
    let i = choose|i: int| 0 <= i < sensors.len() && sensors[i] == sensor;
    assert(sensors[i].is_dated());
}

/// Answer `/temp` from the list of sensors.
pub fn answer_temp(query: &str, sensors: Vec<Sensor>) -> (reply: String)
    requires
        all_dated(sensors@),
    ensures
        exists|now: Instant|
            now.exists_in_calendar() && reply@ == #[trigger] temp_text(query@, sensors@, now),
{
    answer_temp_at(query, sensors, utc_now())
}

/// Answer `/sponsor` for a sensor, from its sponsor if it has one.
pub fn answer_sponsor(sensor: &Sensor, sponsor: &Option<Sponsor>) -> (reply: String)
    ensures
        reply@ == (match *sponsor {
            Some(sponsor) => replies::sponsor_text(sensor@, sponsor),
            None => "No sponsor information available for \""@ + sensor@.device_name + "\"."@,
        }),
{
    match sponsor {
        Some(sponsor) => format_sponsor_text(sensor, sponsor),
        None => format_no_sponsor(sensor.device_name.as_str()),
    }
}

// ---------------------------------------------------------------------------------------------
// Statistics
// ---------------------------------------------------------------------------------------------

/// Which aggregates `/stats` fetches.
#[derive(Clone, Copy, Debug, PartialEq, Eq, Structural)]
pub struct StatsWindow {
    /// The first day of the daily aggregates.
    pub daily_from: Date,
    /// The first day of the hourly aggregates.
    pub hourly_from: Date,
    /// The last day of both.
    pub today: Date,
    /// At most so many daily aggregates.
    pub daily_limit: u32,
    /// At most so many hourly aggregates.
    pub hourly_limit: u32,
}

/// The aggregates that `/stats` fetches as of `now`: daily ones of the last 30 days, and hourly
/// ones of yesterday and today. Days are those of UTC.
pub fn stats_window_at(now: Instant) -> (window: StatsWindow)
    requires
        now.exists_in_calendar(),
        now.seconds >= calendar::FIRST_SECOND + 30 * calendar::DAY_SECONDS,
    ensures
        window.today.days == calendar::EPOCH_DAY + now.seconds as int / calendar::DAY_SECONDS as int,
        window.daily_from.days == window.today.days - 30,
        window.hourly_from.days == window.today.days - 1,
        window.daily_limit == 30,
        window.hourly_limit == 48,
        window.today.exists_in_calendar(),
        window.daily_from.exists_in_calendar(),
        window.hourly_from.exists_in_calendar(),
{
    let today: Date = utc_day(now);
    StatsWindow {
        daily_from: today.days_before(30),
        hourly_from: today.days_before(1),
        today,
        daily_limit: 30,
        hourly_limit: 48,
    }
}

/// The aggregates that `/stats` fetches.
pub fn stats_window() -> (window: StatsWindow)
    ensures
        window.today.exists_in_calendar(),
        window.today.days >= calendar::EPOCH_DAY,
        window.daily_from.days == window.today.days - 30,
        window.hourly_from.days == window.today.days - 1,
        window.daily_limit == 30,
        window.hourly_limit == 48,
        window.daily_from.exists_in_calendar(),
        window.hourly_from.exists_in_calendar(),
{
    stats_window_at(utc_now())
}

/// What `/stats` shows: a text above two charts.
#[derive(Debug)]
pub struct StatsAnswer {
    /// The text above the charts.
    pub text: String,
    /// The points of the hourly chart.
    pub hourly_chart: Vec<HourlyPoint>,
    /// The points of the daily chart.
    pub daily_chart: Vec<DailyPoint>,
}

/// The minimum, the maximum and the average of each point.
pub open spec fn point_aggregates(points: Seq<ChartPoint<Instant>>) -> Seq<Aggregate> {
    points.map_values(|point: ChartPoint<Instant>| (point.min, point.max, point.avg))
}

/// The minimum, the maximum and the average of each day.
pub open spec fn day_aggregates(daily: Seq<DailyTemperature>) -> Seq<Aggregate> {
    daily.map_values(
        |d: DailyTemperature|
            (d.minimum_temperature, d.maximum_temperature, d.average_temperature),
    )
}

/// The statistics are made of all points and of all days, each with its minimum, its maximum and its
/// average.
pub proof fn law_statistics_are_made_of_all_values(
    points: Seq<ChartPoint<Instant>>,
    daily: Seq<DailyTemperature>,
)
    ensures
        point_aggregates(points).len() == points.len(),
        forall|i: int|
            0 <= i < points.len() ==> (#[trigger] point_aggregates(points)[i]).0 == points[i].min
                && point_aggregates(points)[i].1 == points[i].max && point_aggregates(points)[i].2
                == points[i].avg,
        day_aggregates(daily).len() == daily.len(),
        forall|i: int|
            0 <= i < daily.len() ==> (#[trigger] day_aggregates(daily)[i]).0
                == daily[i].minimum_temperature && day_aggregates(daily)[i].1
                == daily[i].maximum_temperature && day_aggregates(daily)[i].2
                == daily[i].average_temperature,
{
}

/// Whether statistics are right for some values: there are some exactly where there are values, none
/// of these lies outside of the range, both of its ends are reached, and the average is the sum of all
/// averages divided by their number.
pub open spec fn are_stats_of(
    stats: Option<replies::TempStats>,
    count: nat,
    low: spec_fn(int) -> Binary64,
    high: spec_fn(int) -> Binary64,
    mean: spec_fn(int) -> Binary64,
) -> bool {
    &&& stats is Some <==> count > 0
    &&& stats matches Some(stats) ==> {
        &&& stats.avg == binary64::quotient_of(
            statistics::running_sum(Seq::new(count, mean)),
            binary64::whole(false, count),
        )
        &&& forall|i: int|
            0 <= i < count && !(#[trigger] low(i)).is_nan() ==> stats.min.value() <= low(i).value()
        &&& forall|i: int|
            0 <= i < count && !(#[trigger] high(i)).is_nan() ==> high(i).value()
                <= stats.max.value()
        &&& (exists|i: int| 0 <= i < count && #[trigger] low(i) == stats.min)
            || stats.min.is_infinite()
        &&& (exists|i: int| 0 <= i < count && #[trigger] high(i) == stats.max)
            || stats.max.is_infinite()
    }
}

/// The reply to `/stats` tells the statistics of all hours that are drawn, and of all days.
pub proof fn law_stats_are_told_of_all_hours_and_days(
    sensor: Sensor,
    hourly: Seq<HourlyTemperature>,
    daily: Seq<DailyTemperature>,
    drawn_at: Instant,
    told_at: Instant,
)
    ensures
        exists|hours: Option<replies::TempStats>, days: Option<replies::TempStats>|
            {
                let points = points::points_of_hours(hourly, drawn_at);
                &&& stats_answer_text(sensor, hourly, daily, drawn_at, told_at)
                    == #[trigger] replies::stats_text(sensor@, hours, days, told_at)
                &&& are_stats_of(
                    hours,
                    points.len(),
                    |i: int| points[i].min,
                    |i: int| points[i].max,
                    |i: int| points[i].avg,
                )
                &&& are_stats_of(
                    days,
                    daily.len(),
                    |i: int| daily[i].minimum_temperature,
                    |i: int| daily[i].maximum_temperature,
                    |i: int| daily[i].average_temperature,
                )
            },
{
    let points = points::points_of_hours(hourly, drawn_at);
    let (of_points, of_days) = (point_aggregates(points), day_aggregates(daily));
    let (hours, days) = (replies::stats_of(of_points), replies::stats_of(of_days));
    replies::law_statistics_cover_every_item(of_points);
    replies::law_statistics_cover_every_item(of_days);
    let (a, b) = (|i: int| points[i].min, |i: int| points[i].max);
    let (c, d) = (|i: int| daily[i].minimum_temperature, |i: int| daily[i].maximum_temperature);
    let (e, f) = (|i: int| points[i].avg, |i: int| daily[i].average_temperature);
    lemma_stats_of(hours, of_points, points.len(), a, b, e);
    lemma_stats_of(days, of_days, daily.len(), c, d, f);
    assert(stats_answer_text(sensor, hourly, daily, drawn_at, told_at) == replies::stats_text(
        sensor@,
        hours,
        days,
        told_at,
    ));
}

proof fn lemma_stats_of(
    stats: Option<replies::TempStats>,
    items: Seq<Aggregate>,
    count: nat,
    low: spec_fn(int) -> Binary64,
    high: spec_fn(int) -> Binary64,
    mean: spec_fn(int) -> Binary64,
)
    requires
        stats == replies::stats_of(items),
        count == items.len(),
        forall|i: int|
            0 <= i < count ==> (#[trigger] items[i]).0 == low(i) && items[i].1 == high(i)
                && items[i].2 == mean(i),
    ensures
        are_stats_of(stats, count, low, high, mean),
{
    replies::law_statistics_cover_every_item(items);
    if let Some(found) = stats {
        replies::law_average_is_the_quotient_of_the_running_sum(items);
        assert(Seq::new(items.len(), |i: int| items[i].2) =~= Seq::new(count, mean));
        assert forall|i: int|
            0 <= i < count && !(#[trigger] low(i)).is_nan() implies found.min.value()
            <= low(i).value() by {
            assert(items[i].0 == low(i));
        }
        assert forall|i: int|
            0 <= i < count && !(#[trigger] high(i)).is_nan() implies high(i).value()
            <= found.max.value() by {
            assert(items[i].1 == high(i));
        }
        if !found.min.is_infinite() {
            let i = choose|i: int| 0 <= i < items.len() && (#[trigger] items[i]).0 == found.min;
            assert(low(i) == found.min);
        }
        if !found.max.is_infinite() {
            let i = choose|i: int| 0 <= i < items.len() && (#[trigger] items[i]).1 == found.max;
            assert(high(i) == found.max);
        }
    }
}

/// What the text of a `/stats` reply is, with the hours of the day up to one instant and the age of
/// the reading as of another one.
pub open spec fn stats_answer_text(
    sensor: Sensor,
    hourly: Seq<HourlyTemperature>,
    daily: Seq<DailyTemperature>,
    drawn_at: Instant,
    told_at: Instant,
) -> Seq<char> {
    replies::stats_text(
        sensor@,
        replies::stats_of(point_aggregates(points::points_of_hours(hourly, drawn_at))),
        replies::stats_of(day_aggregates(daily)),
        told_at,
    )
}

/// Answer `/stats` from the details of a sensor and its aggregates: the hours of the day before
/// `drawn_at`, and the age of the reading as of `told_at`.
pub fn answer_stats_at(
    sensor: &Sensor,
    hourly: &[HourlyTemperature],
    daily: &[DailyTemperature],
    drawn_at: Instant,
    told_at: Instant,
) -> (answer: StatsAnswer)
    requires
        sensor.is_dated(),
        drawn_at.seconds >= calendar::FIRST_SECOND + calendar::DAY_SECONDS,
        told_at.exists_in_calendar(),
    ensures
        answer.text@ == stats_answer_text(*sensor, hourly@, daily@, drawn_at, told_at),
        answer.hourly_chart@ == points::points_of_hours(hourly@, drawn_at),
        answer.daily_chart@ == points::points_of_days(daily@),
        points::are_dated(answer.hourly_chart@),
        points::are_dated(answer.daily_chart@),
{
    let hourly_chart: Vec<HourlyPoint> = hourly_points_at(hourly, drawn_at);
    let daily_chart: Vec<DailyPoint> = daily_points(daily);
    let mut hours: Vec<Aggregate> = Vec::new();
    let mut i: usize = 0;
    while i < hourly_chart.len()
        invariant
            i <= hourly_chart@.len(),
            hours@.len() == i,
            forall|j: int| 0 <= j < i ==> hours@[j] == point_aggregates(hourly_chart@)[j],
        decreases hourly_chart@.len() - i,
    {
        let point: HourlyPoint = hourly_chart[i];
        hours.push((point.min, point.max, point.avg));
        i = i + 1;
    }
    assert(hours@ =~= point_aggregates(hourly_chart@));
    let mut days: Vec<Aggregate> = Vec::new();
    let mut k: usize = 0;
    while k < daily.len()
        invariant
            k <= daily@.len(),
            days@.len() == k,
            forall|j: int| 0 <= j < k ==> days@[j] == day_aggregates(daily@)[j],
        decreases daily@.len() - k,
    {
        let d: DailyTemperature = daily[k];
        days.push((d.minimum_temperature, d.maximum_temperature, d.average_temperature));
        k = k + 1;
    }
    assert(days@ =~= day_aggregates(daily@));
    let text: String = format_stats_text_at(
        sensor,
        compute_stats(&hours),
        compute_stats(&days),
        told_at,
    );
    StatsAnswer { text, hourly_chart, daily_chart }
}

/// Answer `/stats` from the details of a sensor and its aggregates.
pub fn answer_stats(sensor: &Sensor, hourly: &[HourlyTemperature], daily: &[DailyTemperature]) -> (
    answer: StatsAnswer)
    requires
        sensor.is_dated(),
    ensures
        exists|drawn_at: Instant, told_at: Instant|
            #![trigger stats_answer_text(*sensor, hourly@, daily@, drawn_at, told_at)]
            {
                &&& drawn_at.exists_in_calendar()
                &&& told_at.exists_in_calendar()
                &&& answer.text@ == stats_answer_text(*sensor, hourly@, daily@, drawn_at, told_at)
                &&& answer.hourly_chart@ == points::points_of_hours(hourly@, drawn_at)
            },
        answer.daily_chart@ == points::points_of_days(daily@),
        points::are_dated(answer.hourly_chart@),
        points::are_dated(answer.daily_chart@),
{
    let drawn_at: Instant = utc_now();
    let told_at: Instant = utc_now();
    answer_stats_at(sensor, hourly, daily, drawn_at, told_at)
}

// ---------------------------------------------------------------------------------------------
// Setting an alert
// ---------------------------------------------------------------------------------------------

/// What to do first with `/alert`.
#[derive(Debug)]
pub enum AlertRequest {
    /// Reply with this text; the arguments are not those of an alert.
    Reply(String),
    /// Parse the temperature, and pick the sensor that the query means.
    Parts {
        /// Means a sensor.
        query: String,
        /// Means a number.
        temperature: String,
    },
}

/// The sensor and the temperature of an `/alert` command: the temperature is what stands behind the
/// last white space. There are none where either is missing.
pub open spec fn alert_parts(args: Seq<char>) -> Option<(Seq<char>, Seq<char>)> {
    let given = text::trimmed(args);
    let at = text::last_white(given);
    if given.len() == 0 || at < 0 || text::trimmed(given.take(at)).len() == 0 {
        None
    } else {
        Some((text::trimmed(given.take(at)), text::trimmed(given.skip(at + 1))))
    }
}

/// A sensor and a temperature with a blank between them are taken apart again, where the temperature
/// is one word.
pub proof fn law_alert_arguments_are_taken_apart(query: Seq<char>, temperature: Seq<char>)
    requires
        query.len() > 0,
        !text::is_white(query.first()),
        !text::is_white(query.last()),
        temperature.len() > 0,
        forall|i: int| 0 <= i < temperature.len() ==> !text::is_white(#[trigger] temperature[i]),
    ensures
        alert_parts(query + " "@ + temperature) == Some((query, temperature)),
{
    reveal_strlit(" ");
    let args = query + " "@ + temperature;
    assert(args.first() == query.first());
    assert(args.last() == temperature[temperature.len() - 1]);
    text::law_trimmed_texts_stay(args);
    text::law_trimmed_texts_stay(query);
    text::law_trimmed_texts_stay(temperature);
    lemma_last_white(query + " "@, temperature);
    assert((query + " "@).last() == ' ');
    assert(args.take(query.len() as int) =~= query);
    assert(args.skip((query.len() + 1) as int) =~= temperature);
}

/// The temperature of an `/alert` command is its last word, and the sensor is what stands before it,
/// without the white space around it. There are none exactly where there are not two words.
pub proof fn law_last_word_is_the_temperature(args: Seq<char>)
    ensures
        match alert_parts(args) {
            Some((query, temperature)) => {
                &&& query.len() > 0
                &&& temperature.len() > 0
                &&& forall|i: int|
                    0 <= i < temperature.len() ==> !text::is_white(#[trigger] temperature[i])
                &&& exists|front: Seq<char>, middle: Seq<char>, back: Seq<char>|
                    {
                        &&& text::is_blank(front) && text::is_blank(middle) && text::is_blank(back)
                        &&& middle.len() > 0
                        &&& args == #[trigger] (front + query + middle + temperature + back)
                    }
            },
            None => forall|i: int|
                0 <= i < text::trimmed(args).len() ==> !text::is_white(
                    #[trigger] text::trimmed(args)[i],
                ),
        },
{
    let given = text::trimmed(args);
    let at = text::last_white(given);
    text::law_trimming_takes_off_white_space_alone(args);
    text::law_trimmed_texts_have_no_white_ends(args);
    text::law_last_white_is_the_last(given);
    if given.len() > 0 && at >= 0 {
        let (before, temperature) = (given.take(at), given.skip(at + 1));
        let query = text::trimmed(before);
        text::law_blank_texts_are_trimmed_to_nothing(before);
        assert(at > 0 && at < given.len() - 1);
        assert(!text::is_white(before[0]));
        assert forall|i: int| 0 <= i < temperature.len() implies !text::is_white(
            #[trigger] temperature[i],
        ) by {
            assert(temperature[i] == given[at + 1 + i]);
        }
        text::law_trimmed_texts_stay(temperature);
        let (front, back) = choose|front: Seq<char>, back: Seq<char>|
            text::is_blank(front) && text::is_blank(back) && args == #[trigger] (front + given
                + back);
        text::law_trimming_takes_off_white_space_alone(before);
        let (f, b) = choose|f: Seq<char>, b: Seq<char>|
            text::is_blank(f) && text::is_blank(b) && before == #[trigger] (f + query + b);
        let middle = b + seq![given[at]];
        assert(text::is_blank(front + f)) by {
            assert forall|i: int| 0 <= i < (front + f).len() implies text::is_white(
                #[trigger] (front + f)[i],
            ) by {
                if i >= front.len() {
                    assert((front + f)[i] == f[i - front.len()]);
                } else {
                    assert((front + f)[i] == front[i]);
                }
            }
        }
        assert(text::is_blank(middle)) by {
            assert forall|i: int| 0 <= i < middle.len() implies text::is_white(
                #[trigger] middle[i],
            ) by {
                if i < b.len() {
                    assert(middle[i] == b[i]);
                }
            }
        }
        assert(given =~= before + seq![given[at]] + temperature);
        assert(args =~= (front + f) + query + middle + temperature + back);
    }
}

/// White space is searched before the last word.
proof fn lemma_last_white(start: Seq<char>, word: Seq<char>)
    requires
        forall|i: int| 0 <= i < word.len() ==> !text::is_white(#[trigger] word[i]),
    ensures
        text::last_white(start + word) == text::last_white(start),
    decreases word.len(),
{
    if word.len() == 0 {
        assert(start + word =~= start);
    } else {
        let shorter = word.drop_last();
        assert forall|i: int| 0 <= i < shorter.len() implies !text::is_white(
            #[trigger] shorter[i],
        ) by {
            assert(word[i] == shorter[i]);
        }
        lemma_last_white(start, shorter);
        assert((start + word).drop_last() =~= start + shorter);
        assert((start + word).last() == word[word.len() - 1]);
    }
}

/// Begin `/alert <sensor> <temperature>`. The temperature is mandatory: a bare `/alert <sensor>`
/// gives the usage hint.
pub fn begin_alert(args: &str) -> (request: AlertRequest)
    ensures
        match request {
            AlertRequest::Reply(message) => alert_parts(args@) is None && message@ == ALERT_USAGE@,
            AlertRequest::Parts { query, temperature } => alert_parts(args@) == Some(
                (query@, temperature@),
            ),
        },
{
    let given: String = trim(args);
    if given.as_str().unicode_len() == 0 {
        return AlertRequest::Reply(ALERT_USAGE.to_string());
    }
    match split_at_last_white(given.as_str()) {
        None => AlertRequest::Reply(ALERT_USAGE.to_string()),
        Some((before, after)) => {
            let query: String = trim(before.as_str());
            if query.as_str().unicode_len() == 0 {
                AlertRequest::Reply(ALERT_USAGE.to_string())
            } else {
                AlertRequest::Parts { query, temperature: trim(after.as_str()) }
            }
        },
    }
}

/// Parse and range-check a threshold argument, returning a user-facing error message on failure.
pub fn parse_threshold(raw: &str) -> (threshold: Result<Binary64, String>)
    ensures
        match decimals::written(raw@) {
            None => {
                &&& threshold is Err
                &&& threshold->Err_0@ == "\""@ + raw@
                    + "\" is not a valid temperature.\n\nExample: /alert Aare 20"@
            },
            Some(meant) => match decimals::number_between(
                meant,
                store::MIN_THRESHOLD as nat,
                store::MAX_THRESHOLD as nat,
            ) {
                Some(number) => threshold == Ok::<Binary64, String>(number) && store::is_allowed(
                    number,
                ),
                None => {
                    &&& threshold is Err
                    &&& threshold->Err_0@ == "The temperature must be between "@
                        + numerals::decimal(store::MIN_THRESHOLD as nat) + "°C and "@
                        + numerals::decimal(store::MAX_THRESHOLD as nat) + "°C."@
                },
            },
        },
{
    match parse_between(raw, store::MIN_THRESHOLD, store::MAX_THRESHOLD) {
        Parsed::Malformed => {
            let mut message: String = "\"".to_string();
            message.append(raw);
            message.append("\" is not a valid temperature.\n\nExample: /alert Aare 20");
            Err(message)
        },
        Parsed::Beyond => {
            let mut message: String = "The temperature must be between ".to_string();
            push_number(&mut message, store::MIN_THRESHOLD);
            message.append("°C and ");
            push_number(&mut message, store::MAX_THRESHOLD);
            message.append("°C.");
            Err(message)
        },
        Parsed::Number(number) => Ok(number),
    }
}

/// What becomes of a user's alerts.
#[derive(Clone, Copy, Debug, PartialEq, Eq, Structural)]
pub enum AlertChange {
    /// Nothing: the alert is there already, or there are too many.
    Keep,
    /// The alert starts over with another threshold.
    Reset {
        /// Which alert.
        uid: i64,
        /// The new threshold.
        threshold: Binary64,
    },
    /// There is a new alert.
    Add {
        /// For which sensor.
        sensor_id: SensorId,
        /// At which threshold.
        threshold: Binary64,
    },
}

/// What to do about an alert that a user asks for, and what to reply once it is done.
#[derive(Debug)]
pub struct AlertDecision {
    /// What becomes of the user's alerts.
    pub change: AlertChange,
    /// What to reply.
    pub reply: String,
}

/// What alert rows hold.
pub open spec fn alert_views(alerts: Seq<Alert>) -> Seq<AlertView> {
    alerts.map_values(|alert: Alert| alert@)
}

/// The index of the first alert for a sensor, or the length where there is none.
pub open spec fn alert_for(existing: Seq<AlertView>, sensor_id: SensorId) -> nat
    decreases existing.len(),
{
    if existing.len() == 0 {
        0
    } else if existing[0].sensor_id == sensor_id {
        0
    } else {
        1 + alert_for(existing.drop_first(), sensor_id)
    }
}

/// Whether two thresholds are the same temperature.
pub open spec fn same_threshold(a: Binary64, b: Binary64) -> bool {
    !a.is_nan() && !b.is_nan() && a.value() == b.value()
}

/// What becomes of a user's alerts when they ask for one: an alert for the same sensor gets the new
/// threshold, or is kept where it has that threshold already, and without one there is a new alert,
/// unless there are too many.
pub open spec fn decided(existing: Seq<AlertView>, sensor_id: SensorId, threshold: Binary64) -> AlertChange {
    let at = alert_for(existing, sensor_id);
    if at < existing.len() {
        if same_threshold(existing[at as int].threshold, threshold) {
            AlertChange::Keep
        } else {
            AlertChange::Reset { uid: existing[at as int].uid, threshold }
        }
    } else if existing.len() >= MAX_ALERTS_PER_USER {
        AlertChange::Keep
    } else {
        AlertChange::Add { sensor_id, threshold }
    }
}

/// What is replied to a user who asks for an alert.
pub open spec fn decided_reply(
    existing: Seq<AlertView>,
    sensor_id: SensorId,
    sensor_name: Seq<char>,
    threshold: Binary64,
) -> Seq<char> {
    let at = alert_for(existing, sensor_id);
    if at < existing.len() {
        if same_threshold(existing[at as int].threshold, threshold) {
            replies::alert_unchanged_text(sensor_name, existing[at as int].threshold)
        } else {
            replies::alert_updated_text(sensor_name, threshold)
        }
    } else if existing.len() >= MAX_ALERTS_PER_USER {
        replies::alert_limit_text()
    } else {
        replies::alert_added_text(sensor_name, threshold)
    }
}

/// What is replied to a user who asks for an alert fits what is done: a new alert is confirmed, so is a
/// changed one, and where nothing is done the reply is that the alert is there already, or that there
/// are ten of them.
pub proof fn law_replies_fit_what_is_done(
    existing: Seq<AlertView>,
    sensor_id: SensorId,
    name: Seq<char>,
    threshold: Binary64,
)
    ensures
        ({
            let reply = decided_reply(existing, sensor_id, name, threshold);
            let has_one = exists|i: int|
                0 <= i < existing.len() && (#[trigger] existing[i]).sensor_id == sensor_id;
            match decided(existing, sensor_id, threshold) {
                AlertChange::Add { sensor_id: added, threshold: asked } => {
                    &&& !has_one && existing.len() < 10
                    &&& added == sensor_id && asked == threshold
                    &&& reply == replies::alert_added_text(name, threshold)
                },
                AlertChange::Reset { uid, threshold: asked } => {
                    &&& exists|i: int|
                        0 <= i < existing.len() && (#[trigger] existing[i]).sensor_id == sensor_id
                            && existing[i].uid == uid && (existing[i].threshold.is_nan()
                            || threshold.is_nan() || existing[i].threshold.value()
                            != threshold.value())
                    &&& asked == threshold
                    &&& reply == replies::alert_updated_text(name, threshold)
                },
                AlertChange::Keep => if has_one {
                    exists|i: int|
                        0 <= i < existing.len() && (#[trigger] existing[i]).sensor_id == sensor_id
                            && existing[i].threshold.value() == threshold.value() && reply
                            == replies::alert_unchanged_text(name, existing[i].threshold)
                } else {
                    existing.len() >= 10 && reply == replies::alert_limit_text()
                },
            }
        }),
{
    lemma_alert_for(existing, sensor_id);
    let at = alert_for(existing, sensor_id) as int;
    if at < existing.len() {
        assert(existing[at].sensor_id == sensor_id);
    }
}

/// Find the first alert for a sensor.
fn find_alert(existing: &Vec<Alert>, sensor_id: SensorId) -> (at: usize)
    ensures
        at == alert_for(alert_views(existing@), sensor_id),
        at <= existing@.len(),
{
    let ghost views = alert_views(existing@);
    let mut at: usize = 0;
    assert(views.skip(0) =~= views);
    while at < existing.len() && existing[at].sensor_id != sensor_id
        invariant
            at <= existing@.len(),
            views == alert_views(existing@),
            alert_for(views, sensor_id) == at + alert_for(views.skip(at as int), sensor_id),
        decreases existing@.len() - at,
    {
        proof {
            assert(views.skip(at as int)[0] == existing@[at as int]@);
            assert(views.skip(at as int).drop_first() =~= views.skip(at + 1));
        }
        at = at + 1;
    }
    proof {
        if at < existing@.len() {
            assert(views.skip(at as int)[0] == existing@[at as int]@);
        }
    }
    at
}

/// Decide about an alert for a sensor at a threshold, from the alerts that the user has.
pub fn decide_alert(existing: &Vec<Alert>, sensor: &Sensor, threshold: Binary64) -> (decision:
    AlertDecision)
    ensures
        decision.change == decided(alert_views(existing@), sensor@.id, threshold),
        decision.reply@ == decided_reply(
            alert_views(existing@),
            sensor@.id,
            sensor@.device_name,
            threshold,
        ),
{
    let at: usize = find_alert(existing, sensor.id);
    let name: &str = sensor.device_name.as_str();
    if at < existing.len() {
        let held: Binary64 = existing[at].threshold;
        if held.is_at_most(threshold) && threshold.is_at_most(held) {
            return AlertDecision {
                change: AlertChange::Keep,
                reply: format_alert_unchanged(name, held),
            };
        }
        return AlertDecision {
            change: AlertChange::Reset { uid: existing[at].uid, threshold },
            reply: format_alert_updated(name, threshold),
        };
    }
    if existing.len() >= MAX_ALERTS_PER_USER {
        return AlertDecision { change: AlertChange::Keep, reply: format_alert_limit_reached() };
    }
    AlertDecision {
        change: AlertChange::Add { sensor_id: sensor.id, threshold },
        reply: format_alert_added(name, threshold),
    }
}

/// The rows of a user's alerts after a change. A new row gets a fresh key and the time of creation.
pub open spec fn changed_rows(
    existing: Seq<AlertView>,
    change: AlertChange,
    user: Seq<char>,
    new_uid: i64,
    created_at: i64,
) -> Seq<AlertView> {
    match change {
        AlertChange::Keep => existing,
        AlertChange::Reset { uid, threshold } => existing.map_values(
            |row: AlertView|
                if row.uid == uid {
                    store::reset_row(row, threshold)
                } else {
                    row
                },
        ),
        AlertChange::Add { sensor_id, threshold } => existing.push(
            store::new_row(new_uid, user, sensor_id, threshold, created_at),
        ),
    }
}

/// Whether the rows of a user's alerts are as they should be: not too many, each with a key of its
/// own, for a sensor of its own and at a threshold that is allowed.
pub open spec fn are_kept(rows: Seq<AlertView>) -> bool {
    &&& rows.len() <= 10
    &&& forall|i: int, j: int|
        0 <= i < j < rows.len() ==> (#[trigger] rows[i]).uid != (#[trigger] rows[j]).uid
            && rows[i].sensor_id != rows[j].sensor_id
    &&& forall|i: int| 0 <= i < rows.len() ==> store::is_allowed((#[trigger] rows[i]).threshold)
}

proof fn lemma_alert_for(existing: Seq<AlertView>, sensor_id: SensorId)
    ensures
        alert_for(existing, sensor_id) <= existing.len(),
        alert_for(existing, sensor_id) < existing.len() ==> existing[alert_for(
            existing,
            sensor_id,
        ) as int].sensor_id == sensor_id,
        forall|i: int|
            0 <= i < alert_for(existing, sensor_id) ==> (#[trigger] existing[i]).sensor_id
                != sensor_id,
    decreases existing.len(),
{
    if existing.len() > 0 && existing[0].sensor_id != sensor_id {
        let rest = existing.drop_first();
        lemma_alert_for(rest, sensor_id);
        assert forall|i: int| 0 <= i < alert_for(existing, sensor_id) implies (
        #[trigger] existing[i]).sensor_id != sensor_id by {
            if i > 0 {
                assert(rest[i - 1] == existing[i]);
            }
        }
    }
}

/// Asking for alerts keeps a user's rows as they should be: at most ten, one for each sensor, at
/// thresholds that are allowed.
pub proof fn law_alerts_stay_within_their_limits(
    existing: Seq<AlertView>,
    sensor_id: SensorId,
    threshold: Binary64,
    user: Seq<char>,
    new_uid: i64,
    created_at: i64,
)
    requires
        are_kept(existing),
        store::is_allowed(threshold),
        forall|i: int| 0 <= i < existing.len() ==> (#[trigger] existing[i]).uid != new_uid,
    ensures
        are_kept(
            changed_rows(
                existing,
                decided(existing, sensor_id, threshold),
                user,
                new_uid,
                created_at,
            ),
        ),
{
    let change = decided(existing, sensor_id, threshold);
    let rows = changed_rows(existing, change, user, new_uid, created_at);
    lemma_alert_for(existing, sensor_id);
    assert forall|i: int| 0 <= i < existing.len() implies (#[trigger] rows[i]).uid
        == existing[i].uid && rows[i].sensor_id == existing[i].sensor_id && store::is_allowed(
        rows[i].threshold,
    ) by {
        assert(store::is_allowed(existing[i].threshold));
    }
    assert forall|i: int, j: int| 0 <= i < j < rows.len() implies (#[trigger] rows[i]).uid != (
    #[trigger] rows[j]).uid && rows[i].sensor_id != rows[j].sensor_id by {
        if j < existing.len() {
            assert(existing[i].uid != existing[j].uid);
        } else {
            assert(existing[i].uid != new_uid);
        }
    }
}

/// A user who asks for an alert has it afterwards at the threshold that was asked for, unless they
/// have ten others. A new or changed one watches from the start, and a changed one keeps its key.
/// Their other alerts stay as they were.
pub proof fn law_asked_for_alerts_are_there(
    existing: Seq<AlertView>,
    sensor_id: SensorId,
    threshold: Binary64,
    user: Seq<char>,
    new_uid: i64,
    created_at: i64,
)
    requires
        are_kept(existing),
        forall|i: int| 0 <= i < existing.len() ==> (#[trigger] existing[i]).uid != new_uid,
    ensures
        ({
            let change = decided(existing, sensor_id, threshold);
            let rows = changed_rows(existing, change, user, new_uid, created_at);
            let at = alert_for(rows, sensor_id) as int;
            let held = alert_for(existing, sensor_id) as int;
            &&& at < rows.len() || existing.len() >= 10
            &&& at < rows.len() ==> rows[at].threshold.value() == threshold.value()
            &&& change != AlertChange::Keep ==> {
                &&& at < rows.len()
                &&& rows[at].threshold == threshold
                &&& rows[at].state() == crate::alert::initial_state()
                &&& rows[at].last_eval_date is None
            }
            &&& held < existing.len() ==> {
                &&& rows.len() == existing.len()
                &&& at == held
                &&& rows[at].uid == existing[held].uid
                &&& existing[held].threshold.value() != threshold.value() ==> change
                    != AlertChange::Keep
                &&& change == AlertChange::Keep ==> rows == existing
            }
            &&& forall|i: int|
                0 <= i < existing.len() && (#[trigger] existing[i]).sensor_id != sensor_id
                    ==> rows[i] == existing[i]
        }),
{
    let change = decided(existing, sensor_id, threshold);
    let rows = changed_rows(existing, change, user, new_uid, created_at);
    lemma_alert_for(existing, sensor_id);
    lemma_alert_for(rows, sensor_id);
    let old_at = alert_for(existing, sensor_id) as int;
    let at = alert_for(rows, sensor_id) as int;
    if old_at < existing.len() {
        assert forall|i: int| 0 <= i < rows.len() implies (#[trigger] rows[i]).sensor_id
            == existing[i].sensor_id by {
        }
        assert(at == old_at) by {
            if at < old_at {
                assert(existing[at].sensor_id != sensor_id);
                assert(rows[at].sensor_id == sensor_id);
            } else if at > old_at {
                assert(rows[old_at].sensor_id != sensor_id);
            }
        }
        assert forall|i: int|
            0 <= i < existing.len() && (#[trigger] existing[i]).sensor_id != sensor_id implies rows[i]
            == existing[i] by {
            if i < old_at {
                assert(existing[i].uid != existing[old_at].uid);
            } else if i > old_at {
                assert(existing[old_at].uid != existing[i].uid);
            }
        }
    } else if existing.len() < MAX_ALERTS_PER_USER {
        assert(rows[existing.len() as int].sensor_id == sensor_id);
        assert forall|i: int| 0 <= i < existing.len() implies (#[trigger] rows[i]).sensor_id
            != sensor_id by {
            assert(existing[i].sensor_id != sensor_id);
        }
        assert(at == existing.len());
    }
}

// ---------------------------------------------------------------------------------------------
// Removing and listing alerts
// ---------------------------------------------------------------------------------------------

/// What to do first with `/unalert`.
#[derive(Debug)]
pub enum UnalertRequest {
    /// Reply with this text; there is nothing to remove.
    Reply(String),
    /// Remove all alerts of the user.
    All,
    /// Pick the sensor that this query means, and remove the user's alert for it.
    One(String),
}

/// Begin `/unalert <sensor>` (remove one) or `/unalert all` (remove every alert).
pub fn begin_unalert(args: &str) -> (request: UnalertRequest)
    ensures
        ({
            let given = text::trimmed(args@);
            match request {
                UnalertRequest::Reply(message) => given.len() == 0 && message@ == UNALERT_USAGE@,
                UnalertRequest::All => given.len() > 0 && text::same_ignoring_case(given, "all"@),
                UnalertRequest::One(query) => {
                    &&& given.len() > 0
                    &&& !text::same_ignoring_case(given, "all"@)
                    &&& query@ == given
                },
            }
        }),
{
    let query: String = trim(args);
    if query.as_str().unicode_len() == 0 {
        return UnalertRequest::Reply(UNALERT_USAGE.to_string());
    }
    if equals_ignoring_case(query.as_str(), "all") {
        return UnalertRequest::All;
    }
    UnalertRequest::One(query)
}

/// Answer `/unalert <sensor>` from whether there was an alert to remove.
pub fn answer_unalert(sensor: &Sensor, removed: bool) -> (reply: String)
    ensures
        reply@ == (if removed {
            "🔕 Removed your alert for *"@ + sensor@.device_name + "*."@
        } else {
            "You don't have an alert for *"@ + sensor@.device_name + "*."@
        }),
{
    if removed {
        format_alert_removed(sensor.device_name.as_str())
    } else {
        format_no_alert_for(sensor.device_name.as_str())
    }
}

/// The name of a sensor: that of the last listed one with its ID, or the ID behind a hash sign
/// where none is listed.
pub open spec fn name_of(sensors: Seq<Sensor>, sensor_id: SensorId) -> Seq<char>
    decreases sensors.len(),
{
    if sensors.len() == 0 {
        "#"@ + numerals::decimal(sensor_id.0 as nat)
    } else if sensors.last().id == sensor_id {
        sensors.last().device_name@
    } else {
        name_of(sensors.drop_last(), sensor_id)
    }
}

/// A listed sensor is called by its name, the last one of its ID where there are several, and any
/// other by its ID behind a hash sign.
pub proof fn law_sensors_are_called_by_their_names(sensors: Seq<Sensor>, sensor_id: SensorId)
    ensures
        forall|i: int|
            0 <= i < sensors.len() && (#[trigger] sensors[i]).id == sensor_id && (forall|j: int|
                i < j < sensors.len() ==> (#[trigger] sensors[j]).id != sensor_id) ==> name_of(
                sensors,
                sensor_id,
            ) == sensors[i].device_name@,
        (forall|i: int| 0 <= i < sensors.len() ==> (#[trigger] sensors[i]).id != sensor_id)
            ==> name_of(sensors, sensor_id) == "#"@ + numerals::decimal(sensor_id.0 as nat),
    decreases sensors.len(),
{
    if sensors.len() > 0 {
        let shorter = sensors.drop_last();
        law_sensors_are_called_by_their_names(shorter, sensor_id);
        assert(sensors[sensors.len() - 1] == sensors.last());
        assert forall|i: int|
            0 <= i < sensors.len() && (#[trigger] sensors[i]).id == sensor_id && (forall|j: int|
                i < j < sensors.len() ==> (#[trigger] sensors[j]).id
                    != sensor_id) implies name_of(sensors, sensor_id)
            == sensors[i].device_name@ by {
            if i < shorter.len() {
                assert(shorter[i] == sensors[i]);
                assert forall|j: int| i < j < shorter.len() implies (#[trigger] shorter[j]).id
                    != sensor_id by {
                    assert(shorter[j] == sensors[j]);
                }
                assert(sensors[sensors.len() - 1].id != sensor_id);
            }
        }
        if forall|i: int| 0 <= i < sensors.len() ==> (#[trigger] sensors[i]).id != sensor_id {
            assert forall|i: int| 0 <= i < shorter.len() implies (#[trigger] shorter[i]).id
                != sensor_id by {
                assert(shorter[i] == sensors[i]);
            }
        }
    }
}

/// The name of a sensor, by the list of sensors.
pub fn sensor_name(sensors: &Vec<Sensor>, sensor_id: SensorId) -> (name: String)
    ensures
        name@ == name_of(sensors@, sensor_id),
{
    let mut left: usize = sensors.len();
    assert(sensors@.take(left as int) =~= sensors@);
    while left > 0
        invariant
            left <= sensors@.len(),
            name_of(sensors@, sensor_id) == name_of(sensors@.take(left as int), sensor_id),
        decreases left,
    {
        proof {
            assert(sensors@.take(left as int).drop_last() =~= sensors@.take(left - 1));
        }
        left = left - 1;
        if sensors[left].id == sensor_id {
            return sensors[left].device_name.clone();
        }
    }
    let mut name: String = "#".to_string();
    push_number(&mut name, sensor_id.0 as u64);
    name
}

/// Begin to answer `/alerts` from the user's alerts: without any, there is nothing to look up.
pub fn begin_alerts(alerts: &Vec<Alert>) -> (reply: Option<String>)
    ensures
        reply is Some <==> alerts@.len() == 0,
        reply is Some ==> reply->0@ == replies::alerts_list_text(Seq::empty()),
{
    if alerts.len() == 0 {
        let none: Vec<AlertEntry> = Vec::new();
        proof {
            assert(replies::entry_views(none@) =~= Seq::<AlertEntryView>::empty());
        }
        Some(format_alerts_list(none.as_slice()))
    } else {
        None
    }
}

/// The listing of some alerts, with the names of their sensors.
pub open spec fn listing(alerts: Seq<Alert>, sensors: Seq<Sensor>) -> Seq<AlertEntryView> {
    alerts.map_values(
        |alert: Alert|
            AlertEntryView {
                sensor_name: name_of(sensors, alert.sensor_id),
                threshold: alert.threshold,
                status: alert.status,
            },
    )
}

/// The listing holds all alerts in order, each with the name of its sensor, its threshold and its
/// status.
pub proof fn law_all_alerts_are_in_the_listing(alerts: Seq<Alert>, sensors: Seq<Sensor>, i: int)
    requires
        0 <= i < alerts.len(),
    ensures
        listing(alerts, sensors).len() == alerts.len(),
        listing(alerts, sensors)[i].sensor_name == name_of(sensors, alerts[i].sensor_id),
        listing(alerts, sensors)[i].threshold == alerts[i].threshold,
        listing(alerts, sensors)[i].status == alerts[i].status,
{
}

/// Answer `/alerts` from the user's alerts and the list of sensors.
pub fn answer_alerts(alerts: &Vec<Alert>, sensors: &Vec<Sensor>) -> (reply: String)
    ensures
        reply@ == replies::alerts_list_text(listing(alerts@, sensors@)),
{
    let mut entries: Vec<AlertEntry> = Vec::new();
    let mut i: usize = 0;
    while i < alerts.len()
        invariant
            i <= alerts@.len(),
            entries@.len() == i,
            forall|j: int| 0 <= j < i ==> (#[trigger] entries@[j])@ == listing(alerts@, sensors@)[j],
        decreases alerts@.len() - i,
    {
        entries.push(
            AlertEntry {
                sensor_name: sensor_name(sensors, alerts[i].sensor_id),
                threshold: alerts[i].threshold,
                status: alerts[i].status,
            },
        );
        i = i + 1;
    }
    proof {
        assert(replies::entry_views(entries@) =~= listing(alerts@, sensors@));
    }
    format_alerts_list(entries.as_slice())
}

} // verus!
