//! Sensors, sponsors and temperatures of the Gfrörli API, and how they are shown.

use crate::binary64;
use crate::binary64::Binary64;
use crate::calendar;
use crate::calendar::{from_timestamp, seconds_between, utc_now, Date, Instant};
use crate::numerals;
use crate::numerals::{parse_u32, push_integer, push_number, push_one_decimal};
use crate::rounding;
use crate::sequences;
use crate::sequences::{arrange, Ranked};
use crate::text;
use crate::text::{contains, is_before, same, trim_end};
use vstd::prelude::*;

verus! {

/// Identifies a sensor of the Gfrörli network.
#[derive(Clone, Copy, Debug, PartialEq, Eq, Structural)]
pub struct SensorId(pub u32);

/// Identifies a sponsor of the Gfrörli project.
#[derive(Clone, Copy, Debug, PartialEq, Eq, Structural)]
pub struct SponsorId(pub u32);

/// A sensor as returned by the Gfrörli API.
#[derive(Debug)]
pub struct Sensor {
    /// Identifies the sensor.
    pub id: SensorId,
    /// Name of the sensor.
    pub device_name: String,
    /// A sentence on the sensor.
    pub caption: Option<String>,
    /// The last measured temperature.
    pub latest_temperature: Option<Binary64>,
    /// When the last temperature was measured.
    pub latest_measurement_at: Option<Instant>,
    /// All-time highest temperature recorded at this sensor. Only populated by the per-sensor
    /// detail endpoint; `None` in the list response.
    pub maximum_temperature: Option<Binary64>,
}

/// What a sensor holds.
pub struct SensorView {
    pub id: SensorId,
    pub device_name: Seq<char>,
    pub caption: Option<Seq<char>>,
    pub latest_temperature: Option<Binary64>,
    pub latest_measurement_at: Option<Instant>,
    pub maximum_temperature: Option<Binary64>,
}

/// The characters of a text that may be missing.
pub open spec fn optional_text(text: Option<String>) -> Option<Seq<char>> {
    match text {
        Some(text) => Some(text@),
        None => None,
    }
}

impl View for Sensor {
    type V = SensorView;

    open spec fn view(&self) -> SensorView {
        SensorView {
            id: self.id,
            device_name: self.device_name@,
            caption: optional_text(self.caption),
            latest_temperature: self.latest_temperature,
            latest_measurement_at: self.latest_measurement_at,
            maximum_temperature: self.maximum_temperature,
        }
    }
}

impl Clone for Sensor {
    fn clone(&self) -> (copy: Self)
        ensures
            copy@ == self@,
    {
        Sensor {
            id: self.id,
            device_name: self.device_name.clone(),
            caption: match &self.caption {
                Some(caption) => Some(caption.clone()),
                None => None,
            },
            latest_temperature: self.latest_temperature,
            latest_measurement_at: self.latest_measurement_at,
            maximum_temperature: self.maximum_temperature,
        }
    }
}

/// A sponsor of the Gfrörli project.
#[derive(Debug)]
pub struct Sponsor {
    /// Identifies the sponsor.
    pub id: SponsorId,
    /// Name of the sponsor.
    pub name: String,
    /// Some paragraphs on the sponsor.
    pub description: Option<String>,
    /// What the sponsor is to the project.
    pub sponsor_type: SponsorType,
    /// Since when the sponsor is known.
    pub created_at: Option<Instant>,
    /// IDs of the sensors backed by this sponsor.
    pub sensor_ids: Vec<u32>,
}

/// The relationship a sponsor has to the project.
#[derive(Clone, Copy, Debug, PartialEq, Eq, Structural)]
pub enum SponsorType {
    /// Pays for sensors.
    Sponsor,
    /// Publishes the data.
    PublicDataProvider,
    /// Works with the project.
    Partner,
    /// Anything else.
    Unknown,
}

/// The phrase that leads to the name of a sponsor.
pub open spec fn preposition_text(sponsor_type: SponsorType) -> Seq<char> {
    if sponsor_type == SponsorType::Sponsor {
        "sponsored by"@
    } else {
        "powered by"@
    }
}

/// The relationship of some name in the API.
pub open spec fn type_named(name: Seq<char>) -> SponsorType {
    if name == "sponsor"@ {
        SponsorType::Sponsor
    } else if name == "public_data_provider"@ {
        SponsorType::PublicDataProvider
    } else if name == "partner"@ {
        SponsorType::Partner
    } else {
        SponsorType::Unknown
    }
}

/// The relationships that are known go by their names in the API, and any other name is accepted
/// without being known.
pub proof fn law_relationships_go_by_their_names(name: Seq<char>)
    ensures
        type_named(name) is Sponsor <==> name == "sponsor"@,
        type_named(name) is PublicDataProvider <==> name == "public_data_provider"@,
        type_named(name) is Partner <==> name == "partner"@,
        type_named(name) is Unknown <==> name != "sponsor"@ && name != "public_data_provider"@ && name
            != "partner"@,
{
    reveal_strlit("sponsor");
    reveal_strlit("public_data_provider");
    reveal_strlit("partner");
    assert("sponsor"@[0] == 's' && "public_data_provider"@[1] == 'u' && "partner"@[1] == 'a');
    assert("public_data_provider"@[0] == 'p' && "partner"@[0] == 'p');
}

impl SponsorType {
    /// The relationship of some name in the API. Names that are not known yet are accepted.
    pub fn from_name(name: &str) -> (sponsor_type: SponsorType)
        ensures
            sponsor_type == type_named(name@),
    {
        if same(name, "sponsor") {
            SponsorType::Sponsor
        } else if same(name, "public_data_provider") {
            SponsorType::PublicDataProvider
        } else if same(name, "partner") {
            SponsorType::Partner
        } else {
            SponsorType::Unknown
        }
    }

    /// The phrase used in `/sponsor <sensor>` output. "Sponsored by" for actual sponsors,
    /// "powered by" for everything else.
    pub fn preposition(self) -> (phrase: &'static str)
        ensures
            phrase@ == preposition_text(self),
    {
        match self {
            SponsorType::Sponsor => "sponsored by",
            _ => "powered by",
        }
    }
}

/// A daily temperature aggregate as returned by the Gfrörli API.
#[derive(Clone, Copy, Debug)]
pub struct DailyTemperature {
    /// The day, local to the sensor.
    pub aggregation_date: Date,
    /// Lowest temperature of the day.
    pub minimum_temperature: Binary64,
    /// Highest temperature of the day.
    pub maximum_temperature: Binary64,
    /// Average temperature of the day.
    pub average_temperature: Binary64,
}

/// An hourly temperature aggregate as returned by the Gfrörli API.
#[derive(Clone, Copy, Debug)]
pub struct HourlyTemperature {
    /// The day, local to the sensor.
    pub aggregation_date: Date,
    /// The hour of the day, local to the sensor.
    pub aggregation_hour: u8,
    /// Lowest temperature of the hour.
    pub minimum_temperature: Binary64,
    /// Highest temperature of the hour.
    pub maximum_temperature: Binary64,
    /// Average temperature of the hour.
    pub average_temperature: Binary64,
}

/// Read an optional Unix timestamp (seconds), as the API gives the time of a measurement.
pub fn read_optional_timestamp(timestamp: Option<i64>) -> (time: Result<Option<Instant>, String>)
    ensures
        match timestamp {
            None => time == Ok::<Option<Instant>, String>(None),
            Some(seconds) => if calendar::FIRST_SECOND <= seconds <= calendar::LAST_SECOND {
                time == Ok::<Option<Instant>, String>(Some(Instant { seconds, nanos: 0 }))
            } else {
                &&& time is Err
                &&& time->Err_0@ == "invalid timestamp: "@ + numerals::signed_decimal(
                    seconds as int,
                )
            },
        },
{
    match timestamp {
        None => Ok(None),
        Some(seconds) => match from_timestamp(seconds) {
            Some(time) => Ok(Some(time)),
            None => {
                let mut message: String = "invalid timestamp: ".to_string();
                push_integer(&mut message, seconds);
                Err(message)
            },
        },
    }
}

// ---------------------------------------------------------------------------------------------
// Finding sensors
// ---------------------------------------------------------------------------------------------

/// Whether a query means a sensor: by its ID where the query is a number, else by a part of its
/// name, upper and lower case being the same.
pub open spec fn is_meant(sensor: Sensor, query: Seq<char>) -> bool {
    match numerals::parsed_u32(query) {
        Some(id) => sensor.id.0 == id,
        None => text::holds(text::lowercased(sensor.device_name@), text::lowercased(query)),
    }
}

/// The sensors that a query means, in the order in which they are listed.
pub open spec fn sensors_meant(sensors: Seq<Sensor>, query: Seq<char>) -> Seq<Sensor> {
    sensors.filter(|sensor: Sensor| is_meant(sensor, query))
}

/// Filter sensors by query (ID or case-insensitive name substring).
pub fn filter_sensors(sensors: Vec<Sensor>, query: &str) -> (found: Vec<Sensor>)
    ensures
        found@ == sensors_meant(sensors@, query@),
{
    let ghost given = sensors@;
    let ghost wanted = |sensor: Sensor| is_meant(sensor, query@);
    let id: Option<u32> = parse_u32(query);
    let query_lower: String = query.to_lowercase();
    let mut found: Vec<Sensor> = Vec::new();
    proof {
        sequences::lemma_filter_ends(given, wanted);
    }
    for sensor in it: sensors
        invariant
            it.seq() == given,
            wanted == (|sensor: Sensor| is_meant(sensor, query@)),
            id == numerals::parsed_u32(query@),
            query_lower@ == text::lowercased(query@),
            found@ == given.take(it.index()).filter(wanted),
    {
        proof {
            sequences::lemma_filter_next(given, wanted, it.index());
        }
        let meant: bool = match id {
            Some(id) => sensor.id.0 == id,
            None => contains(
                sensor.device_name.as_str().to_lowercase().as_str(),
                query_lower.as_str(),
            ),
        };
        if meant {
            found.push(sensor);
        }
    }
    proof {
        sequences::lemma_filter_ends(given, wanted);
    }
    found
}

/// A query finds nothing but listed sensors that it means, and every one of them.
pub proof fn law_finds_what_is_meant(sensors: Seq<Sensor>, query: Seq<char>, sensor: Sensor)
    ensures
        sensors_meant(sensors, query).contains(sensor) == (sensors.contains(sensor) && is_meant(
            sensor,
            query,
        )),
{
    let wanted = |sensor: Sensor| is_meant(sensor, query);
    let found = sensors.filter(wanted);
    if found.contains(sensor) {
        let i = choose|i: int| 0 <= i < found.len() && found[i] == sensor;
        sensors.lemma_filter_pred(wanted, i);
        sensors.lemma_filter_contains_rev(wanted, sensor);
    }
    if sensors.contains(sensor) && is_meant(sensor, query) {
        let i = choose|i: int| 0 <= i < sensors.len() && sensors[i] == sensor;
        sensors.lemma_filter_contains(wanted, i);
    }
}

/// Where the query is no number, a listed sensor is found exactly if its name in lower case holds the
/// query in lower case. Nothing else of the sensor makes a difference.
pub proof fn law_sensors_are_found_by_their_names(
    sensors: Seq<Sensor>,
    query: Seq<char>,
    sensor: Sensor,
)
    requires
        numerals::parsed_u32(query) is None,
    ensures
        sensors_meant(sensors, query).contains(sensor) <==> sensors.contains(sensor) && exists|
            front: Seq<char>,
            back: Seq<char>,
        |
            text::lowercased(sensor.device_name@) == #[trigger] (front + text::lowercased(query)
                + back),
{
    law_finds_what_is_meant(sensors, query, sensor);
    text::law_texts_hold_their_parts(
        text::lowercased(sensor.device_name@),
        text::lowercased(query),
    );
}

/// Where the query is a number, a listed sensor is found exactly if that is its ID.
pub proof fn law_sensors_are_found_by_their_ids(sensors: Seq<Sensor>, id: u32, sensor: Sensor)
    ensures
        sensors_meant(sensors, numerals::decimal(id as nat)).contains(sensor) <==> sensors.contains(
            sensor,
        ) && sensor.id == SensorId(id),
{
    numerals::law_decimals_are_read_back(id as nat);
    law_finds_what_is_meant(sensors, numerals::decimal(id as nat), sensor);
}

/// Sensors are found one by one: what is found of two lists together is what is found of each, in
/// order, and a single sensor is found once or not at all.
pub proof fn law_sensors_are_found_one_by_one(
    front: Seq<Sensor>,
    back: Seq<Sensor>,
    sensor: Sensor,
    query: Seq<char>,
)
    ensures
        sensors_meant(front + back, query) == sensors_meant(front, query) + sensors_meant(
            back,
            query,
        ),
        sensors_meant(seq![sensor], query) == seq![sensor] || sensors_meant(seq![sensor], query)
            == Seq::<Sensor>::empty(),
{
    let wanted = |sensor: Sensor| is_meant(sensor, query);
    Seq::filter_distributes_over_add(front, back, wanted);
    reveal(Seq::filter);
    assert(seq![sensor].drop_last() =~= Seq::<Sensor>::empty());
    assert(seq![sensor].drop_last().filter(wanted) =~= Seq::<Sensor>::empty());
    assert(Seq::<Sensor>::empty().push(sensor) =~= seq![sensor]);
}

/// Two sensors of one name are both found by a query that is no number, or both not, whatever else is
/// known of them.
pub proof fn law_sensors_of_one_name_are_found_alike(a: Sensor, b: Sensor, query: Seq<char>)
    requires
        a.device_name@ == b.device_name@,
        numerals::parsed_u32(query) is None,
    ensures
        (sensors_meant(seq![a], query) == seq![a]) == (sensors_meant(seq![b], query) == seq![b]),
{
    law_sensors_are_found_one_by_one(Seq::empty(), Seq::empty(), a, query);
    law_sensors_are_found_one_by_one(Seq::empty(), Seq::empty(), b, query);
    law_finds_what_is_meant(seq![a], query, a);
    law_finds_what_is_meant(seq![b], query, b);
    assert(seq![a][0] == a && seq![b][0] == b);
    assert(seq![a].contains(a) && seq![b].contains(b));
}

/// Two queries that are the same in lower case find the same sensors, where neither is a number.
pub proof fn law_case_makes_no_difference(sensors: Seq<Sensor>, query: Seq<char>, other: Seq<char>)
    requires
        numerals::parsed_u32(query) is None,
        numerals::parsed_u32(other) is None,
        text::lowercased(query) == text::lowercased(other),
    ensures
        sensors_meant(sensors, query) == sensors_meant(sensors, other),
{
    sequences::lemma_filter_alike(
        sensors,
        |sensor: Sensor| is_meant(sensor, query),
        |sensor: Sensor| is_meant(sensor, other),
    );
}

// ---------------------------------------------------------------------------------------------
// Showing temperatures
// ---------------------------------------------------------------------------------------------

/// The face that goes with a temperature.
pub open spec fn face(temp: Option<Binary64>) -> Seq<char> {
    match temp {
        None => "❓"@,
        Some(t) => if binary64::below(t, binary64::whole(false, 10)) {
            "🥶"@
        } else if binary64::at_most(t, binary64::whole(false, 18)) {
            "😨"@
        } else if binary64::at_most(t, binary64::whole(false, 21)) {
            "😌"@
        } else if binary64::at_most(t, binary64::whole(false, 24)) {
            "😎"@
        } else {
            "🥵"@
        },
    }
}

/// Below 10 degrees it is freezing, up to 18 frightening, up to 21 fine, up to 24 cool, and hot above
/// that.
pub proof fn law_faces_go_by_the_temperature(temp: Binary64)
    requires
        !temp.is_nan(),
    ensures
        ({
            let (t, degree) = (temp.value(), binary64::one() as int);
            &&& t < 10 * degree <==> face(Some(temp)) == "🥶"@
            &&& 10 * degree <= t <= 18 * degree <==> face(Some(temp)) == "😨"@
            &&& 18 * degree < t <= 21 * degree <==> face(Some(temp)) == "😌"@
            &&& 21 * degree < t <= 24 * degree <==> face(Some(temp)) == "😎"@
            &&& 24 * degree < t <==> face(Some(temp)) == "🥵"@
        }),
        face(None) == "❓"@,
{
    rounding::law_whole_numbers_are_held(false, 10);
    rounding::law_whole_numbers_are_held(false, 18);
    rounding::law_whole_numbers_are_held(false, 21);
    rounding::law_whole_numbers_are_held(false, 24);
    vstd::arithmetic::power2::lemma_pow2_pos(1074);
    reveal_strlit("🥶");
    reveal_strlit("😨");
    reveal_strlit("😌");
    reveal_strlit("😎");
    reveal_strlit("🥵");
    assert("🥶"@[0] != "😨"@[0] && "🥶"@[0] != "😌"@[0] && "🥶"@[0] != "😎"@[0] && "🥶"@[0]
        != "🥵"@[0] && "😨"@[0] != "😌"@[0] && "😨"@[0] != "😎"@[0] && "😨"@[0] != "🥵"@[0]
        && "😌"@[0] != "😎"@[0] && "😌"@[0] != "🥵"@[0] && "😎"@[0] != "🥵"@[0]);
}

/// A face is no white space.
proof fn lemma_face(temp: Option<Binary64>)
    ensures
        face(temp).len() > 0,
        !text::is_white(face(temp).last()),
{
    reveal_strlit("❓");
    reveal_strlit("🥶");
    reveal_strlit("😨");
    reveal_strlit("😌");
    reveal_strlit("😎");
    reveal_strlit("🥵");
}

/// Map a temperature to a semantic face emoji for the sensor list.
///
/// Buckets mirror the Android app's temperature thresholds.
pub fn temperature_emoji(temp: Option<Binary64>) -> (emoji: &'static str)
    ensures
        emoji@ == face(temp),
{
    match temp {
        None => "❓",
        Some(t) => if t.is_below(Binary64::from_count(10)) {
            "🥶"
        } else if t.is_at_most(Binary64::from_count(18)) {
            "😨"
        } else if t.is_at_most(Binary64::from_count(21)) {
            "😌"
        } else if t.is_at_most(Binary64::from_count(24)) {
            "😎"
        } else {
            "🥵"
        },
    }
}

/// How long ago something was, from whole seconds.
pub open spec fn relative_text(seconds: nat) -> Seq<char> {
    let minutes = seconds / 60;
    let hours = minutes / 60;
    let days = hours / 24;
    if seconds < 60 {
        "a few seconds ago"@
    } else if minutes == 1 {
        "1 minute ago"@
    } else if minutes < 60 {
        numerals::decimal(minutes) + " minutes ago"@
    } else if hours == 1 {
        "1 hour ago"@
    } else if hours < 24 {
        numerals::decimal(hours) + " hours ago"@
    } else if days == 1 {
        "1 day ago"@
    } else {
        numerals::decimal(days) + " days ago"@
    }
}

/// The whole seconds that have passed since an instant, none where it is yet to come.
pub open spec fn seconds_since(time: Instant, now: Instant) -> nat {
    let seconds = calendar::cut_quotient(
        now.total_nanos() - time.total_nanos(),
        calendar::SECOND_NANOS as int,
    );
    if seconds < 0 {
        0
    } else {
        seconds as nat
    }
}

/// How long ago an instant was.
pub open spec fn relative_time(time: Instant, now: Instant) -> Seq<char> {
    relative_text(seconds_since(time, now))
}

/// Ages are told in the largest unit of which a whole one has passed, and in whole ones of it.
pub proof fn law_ages_are_told_in_whole_units(seconds: nat, n: nat)
    ensures
        seconds < 60 ==> relative_text(seconds) == "a few seconds ago"@,
        60 <= seconds < 120 ==> relative_text(seconds) == "1 minute ago"@,
        2 <= n < 60 && 60 * n <= seconds < 60 * (n + 1) ==> relative_text(seconds)
            == numerals::decimal(n) + " minutes ago"@,
        3600 <= seconds < 7200 ==> relative_text(seconds) == "1 hour ago"@,
        2 <= n < 24 && 3600 * n <= seconds < 3600 * (n + 1) ==> relative_text(seconds)
            == numerals::decimal(n) + " hours ago"@,
        86400 <= seconds < 172800 ==> relative_text(seconds) == "1 day ago"@,
        2 <= n && 86400 * n <= seconds < 86400 * (n + 1) ==> relative_text(seconds)
            == numerals::decimal(n) + " days ago"@,
{
}

/// The age of a reading is how many whole seconds have passed since, and none where it is yet to
/// come.
pub proof fn law_ages_count_whole_seconds(time: Instant, now: Instant, seconds: nat)
    ensures
        now.total_nanos() <= time.total_nanos() ==> seconds_since(time, now) == 0,
        seconds * 1_000_000_000 <= now.total_nanos() - time.total_nanos() < (seconds + 1)
            * 1_000_000_000 ==> seconds_since(time, now) == seconds,
{
}

/// A number and what it counts.
fn counted(number: i64, unit: &str) -> (out: String)
    requires
        number >= 0,
    ensures
        out@ == numerals::decimal(number as nat) + unit@,
{
    let mut out = String::new();
    push_number(&mut out, number as u64);
    out.append(unit);
    proof {
        assert(out@ =~= numerals::decimal(number as nat) + unit@);
    }
    out
}

/// Format an instant as a human-readable relative time string, as of `now`.
pub fn format_relative_time_at(time: Instant, now: Instant) -> (out: String)
    requires
        time.exists_in_calendar(),
        now.exists_in_calendar(),
    ensures
        out@ == relative_time(time, now),
{
    let passed: i64 = seconds_between(time, now);
    let seconds: i64 = if passed < 0 {
        0
    } else {
        passed
    };
    let minutes: i64 = seconds / 60;
    let hours: i64 = minutes / 60;
    let days: i64 = hours / 24;
    if seconds < 60 {
        "a few seconds ago".to_string()
    } else if minutes == 1 {
        "1 minute ago".to_string()
    } else if minutes < 60 {
        counted(minutes, " minutes ago")
    } else if hours == 1 {
        "1 hour ago".to_string()
    } else if hours < 24 {
        counted(hours, " hours ago")
    } else if days == 1 {
        "1 day ago".to_string()
    } else {
        counted(days, " days ago")
    }
}

/// Format a timestamp as a human-readable relative time string, as of the time on the clock.
pub fn format_relative_time(time: Instant) -> (out: String)
    requires
        time.exists_in_calendar(),
    ensures
        exists|now: Instant|
            now.exists_in_calendar() && out@ == #[trigger] relative_time(time, now),
{
    format_relative_time_at(time, utc_now())
}

/// A sensor as a line in a list.
pub open spec fn list_entry(sensor: SensorView) -> Seq<char> {
    match sensor.latest_temperature {
        Some(temp) => sensor.device_name + " (#"@ + numerals::decimal(sensor.id.0 as nat)
            + ") – "@ + numerals::one_decimal(temp) + "°C "@ + face(Some(temp)),
        None => sensor.device_name + " (#"@ + numerals::decimal(sensor.id.0 as nat) + ")"@,
    }
}

/// The current temperature reading of a sensor.
pub open spec fn reading(sensor: SensorView, now: Instant) -> Seq<char> {
    match (sensor.latest_temperature, sensor.latest_measurement_at) {
        (Some(temp), Some(time)) => "*"@ + numerals::one_decimal(temp) + "°C* "@ + face(Some(temp))
            + " (_"@ + relative_time(time, now) + "_)"@,
        (Some(temp), None) => "*"@ + numerals::one_decimal(temp) + "°C* "@ + face(Some(temp)),
        _ => "no recent measurement available"@,
    }
}

/// The line of a sensor begins with its name and its ID. A temperature is told behind them with its
/// face, and nothing is where there is none.
pub proof fn law_entries_tell_name_id_and_temperature(sensor: SensorView)
    ensures
        ({
            let lead = sensor.device_name + " (#"@ + numerals::decimal(sensor.id.0 as nat) + ")"@;
            let entry = list_entry(sensor);
            &&& entry.len() >= lead.len()
            &&& entry.take(lead.len() as int) == lead
            &&& sensor.latest_temperature is None <==> entry.len() == lead.len()
            &&& sensor.latest_temperature matches Some(temp) ==> entry.skip(lead.len() as int)
                == " – "@ + numerals::one_decimal(temp) + "°C "@ + face(Some(temp))
        }),
{
    reveal_strlit(" (#");
    reveal_strlit(")");
    reveal_strlit(") – ");
    reveal_strlit(" – ");
    let number = numerals::decimal(sensor.id.0 as nat);
    let lead = sensor.device_name + " (#"@ + number + ")"@;
    let entry = list_entry(sensor);
    match sensor.latest_temperature {
        Some(temp) => {
            let told = numerals::one_decimal(temp) + "°C "@ + face(Some(temp));
            assert(") – "@ =~= ")"@ + " – "@);
            assert(entry =~= lead + (" – "@ + told));
            assert(entry.skip(lead.len() as int) =~= " – "@ + numerals::one_decimal(temp) + "°C "@
                + face(Some(temp)));
        },
        None => {},
    }
    assert(entry.take(lead.len() as int) =~= lead);
}

/// A reading tells the temperature with its face, and how long ago it was measured where that is
/// known. Without a temperature it tells that there is none.
pub proof fn law_readings_tell_temperature_and_age(sensor: SensorView, now: Instant)
    ensures
        match sensor.latest_temperature {
            Some(temp) => {
                let lead = "*"@ + numerals::one_decimal(temp) + "°C* "@ + face(Some(temp));
                &&& reading(sensor, now).len() >= lead.len()
                &&& reading(sensor, now).take(lead.len() as int) == lead
                &&& match sensor.latest_measurement_at {
                    Some(time) => reading(sensor, now).skip(lead.len() as int) == " (_"@
                        + relative_time(time, now) + "_)"@,
                    None => reading(sensor, now).len() == lead.len(),
                }
            },
            None => reading(sensor, now) == "no recent measurement available"@,
        },
{
    match sensor.latest_temperature {
        Some(temp) => {
            let lead = "*"@ + numerals::one_decimal(temp) + "°C* "@ + face(Some(temp));
            let all = reading(sensor, now);
            match sensor.latest_measurement_at {
                Some(time) => {
                    let age = " (_"@ + relative_time(time, now) + "_)"@;
                    assert(all =~= lead + age);
                    assert(all.skip(lead.len() as int) =~= age);
                },
                None => {},
            }
            assert(all.take(lead.len() as int) =~= lead);
        },
        None => {},
    }
}

impl Sensor {
    /// Whether the measurement, where there is one, was at an instant of the calendar.
    pub open spec fn is_dated(self) -> bool {
        self.latest_measurement_at is Some ==> self.latest_measurement_at->0.exists_in_calendar()
    }

    /// Format sensor as a line in the sensor list.
    pub fn format_list_entry(&self) -> (out: String)
        ensures
            out@ == list_entry(self@),
    {
        let mut out: String = self.device_name.clone();
        out.append(" (#");
        push_number(&mut out, self.id.0 as u64);
        match self.latest_temperature {
            Some(temp) => {
                out.append(") – ");
                push_one_decimal(&mut out, temp);
                out.append("°C ");
                out.append(temperature_emoji(Some(temp)));
            },
            None => {
                out.append(")");
            },
        }
        out
    }

    /// Format just the current temperature reading (without the sensor name), as of `now`.
    pub fn format_temperature_reading_at(&self, now: Instant) -> (out: String)
        requires
            self.is_dated(),
            now.exists_in_calendar(),
        ensures
            out@ == reading(self@, now),
    {
        match self.latest_temperature {
            Some(temp) => {
                let mut out: String = "*".to_string();
                push_one_decimal(&mut out, temp);
                out.append("°C* ");
                out.append(temperature_emoji(Some(temp)));
                match self.latest_measurement_at {
                    Some(time) => {
                        out.append(" (_");
                        out.append(format_relative_time_at(time, now).as_str());
                        out.append("_)");
                    },
                    None => {},
                }
                out
            },
            None => "no recent measurement available".to_string(),
        }
    }

    /// Format just the current temperature reading (without the sensor name), e.g.
    /// `"*18.3°C* 😌 (_5 minutes ago_)"`.
    pub fn format_temperature_reading(&self) -> (out: String)
        requires
            self.is_dated(),
        ensures
            exists|now: Instant|
                now.exists_in_calendar() && out@ == #[trigger] reading(self@, now),
    {
        self.format_temperature_reading_at(utc_now())
    }

    /// Format the current temperature reading, prefixed with the sensor name, as of `now`.
    pub fn format_temperature_at(&self, now: Instant) -> (out: String)
        requires
            self.is_dated(),
            now.exists_in_calendar(),
        ensures
            out@ == self@.device_name + ": "@ + reading(self@, now),
    {
        let mut out: String = self.device_name.clone();
        out.append(": ");
        out.append(self.format_temperature_reading_at(now).as_str());
        out
    }

    /// Format the current temperature reading, prefixed with the sensor name.
    pub fn format_temperature(&self) -> (out: String)
        requires
            self.is_dated(),
        ensures
            exists|now: Instant|
                now.exists_in_calendar() && out@ == self@.device_name + ": "@ + #[trigger] reading(
                    self@,
                    now,
                ),
    {
        self.format_temperature_at(utc_now())
    }
}

// ---------------------------------------------------------------------------------------------
// Listing sensors and sponsors
// ---------------------------------------------------------------------------------------------

impl Ranked for Sensor {
    open spec fn precedes(self, other: Self) -> bool {
        text::precedes(self.device_name@, other.device_name@)
    }

    fn comes_before(&self, other: &Self) -> (before: bool) {
        is_before(self.device_name.as_str(), other.device_name.as_str())
    }

    proof fn one_way(a: Self, b: Self) {
        text::law_texts_precede_one_way(a.device_name@, b.device_name@);
    }

    proof fn parted(a: Self, b: Self, c: Self) {
        text::law_texts_are_parted(a.device_name@, b.device_name@, c.device_name@);
    }
}

/// Sensors below one another.
pub open spec fn sensor_lines(sensors: Seq<Sensor>) -> Seq<char>
    decreases sensors.len(),
{
    if sensors.len() == 0 {
        Seq::empty()
    } else {
        sensor_lines(sensors.drop_last()) + list_entry(sensors.last()@) + "\n"@
    }
}

/// The list of all sensors, by name.
pub open spec fn sensor_list_text(sensors: Seq<Sensor>) -> Seq<char> {
    if sensors.len() == 0 {
        "No sensors found."@
    } else {
        text::trimmed_end("Available sensors:\n\n"@ + sensor_lines(sequences::arranged(sensors)))
    }
}

/// Sensors are listed line by line: each has its own line, in order.
pub proof fn law_sensors_are_listed_line_by_line(front: Seq<Sensor>, back: Seq<Sensor>, one: Sensor)
    ensures
        sensor_lines(front + back) == sensor_lines(front) + sensor_lines(back),
        sensor_lines(seq![one]) == list_entry(one@) + "\n"@,
    decreases back.len(),
{
    assert(seq![one].drop_last() =~= Seq::<Sensor>::empty());
    assert(sensor_lines(seq![one].drop_last()) =~= Seq::<char>::empty());
    assert(sensor_lines(seq![one]) =~= list_entry(one@) + "\n"@);
    if back.len() == 0 {
        assert(front + back =~= front);
        assert(sensor_lines(front) + sensor_lines(back) =~= sensor_lines(front));
    } else {
        law_sensors_are_listed_line_by_line(front, back.drop_last(), one);
        assert((front + back).drop_last() =~= front + back.drop_last());
        let line = list_entry(back.last()@);
        assert(sensor_lines(front) + sensor_lines(back.drop_last()) + line + "\n"@
            =~= sensor_lines(front) + (sensor_lines(back.drop_last()) + line + "\n"@));
    }
}

/// Whether no sensor stands behind one with a name that comes later in alphabetical order.
pub open spec fn are_alphabetical(sensors: Seq<Sensor>) -> bool {
    forall|i: int, j: int|
        0 <= i < j < sensors.len() ==> text::is_not_behind(
            (#[trigger] sensors[i]).device_name@,
            (#[trigger] sensors[j]).device_name@,
        )
}

/// Putting sensors in order puts them in alphabetical order of their names, all of them.
pub proof fn law_sensors_are_put_in_alphabetical_order(sensors: Seq<Sensor>)
    ensures
        are_alphabetical(sequences::arranged(sensors)),
        sequences::arranged(sensors).len() == sensors.len(),
        sequences::arranged(sensors).to_multiset() == sensors.to_multiset(),
{
    let shown = sequences::arranged(sensors);
    sequences::law_arranged_items_are_in_order(sensors);
    sequences::law_arranged_items_are_the_same(sensors);
    assert forall|i: int, j: int| 0 <= i < j < shown.len() implies text::is_not_behind(
        (#[trigger] shown[i]).device_name@,
        (#[trigger] shown[j]).device_name@,
    ) by {
        assert(!shown[j].precedes(shown[i]));
        text::law_texts_precede_by_their_characters(shown[j].device_name@, shown[i].device_name@);
    }
}

/// The list that is shown holds every sensor once, in alphabetical order of their names, each on a
/// line of its own.
pub proof fn law_sensor_list_is_complete_and_alphabetical(sensors: Seq<Sensor>)
    ensures
        sensors.len() == 0 ==> sensor_list_text(sensors) == "No sensors found."@,
        sensors.len() > 0 ==> exists|shown: Seq<Sensor>|
            {
                &&& #[trigger] are_alphabetical(shown)
                &&& shown.to_multiset() == sensors.to_multiset()
                &&& sensor_list_text(sensors) + "\n"@ == "Available sensors:\n\n"@ + sensor_lines(
                    shown,
                )
            },
{
    if sensors.len() > 0 {
        let shown = sequences::arranged(sensors);
        law_sensors_are_put_in_alphabetical_order(sensors);
        let header = "Available sensors:\n\n"@;
        let last = shown.last();
        let entry = list_entry(last@);
        let front = header + sensor_lines(shown.drop_last()) + entry;
        reveal_strlit("\n");
        lemma_entry_end(last@);
        assert(front.last() == entry.last());
        assert(header + sensor_lines(shown) =~= front + "\n"@);
        text::lemma_trimmed_end_of(front, "\n"@);
        assert(are_alphabetical(shown));
    }
}

/// The line of a sensor does not end in white space.
proof fn lemma_entry_end(sensor: SensorView)
    ensures
        list_entry(sensor).len() > 0,
        !text::is_white(list_entry(sensor).last()),
{
    reveal_strlit(")");
    lemma_face(sensor.latest_temperature);
    match sensor.latest_temperature {
        Some(temp) => {
            assert(list_entry(sensor).last() == face(Some(temp)).last());
        },
        None => {
            assert(list_entry(sensor).last() == ')');
        },
    }
}

/// Append sensors below one another.
pub(crate) fn push_sensor_lines(out: &mut String, sensors: &Vec<Sensor>)
    ensures
        final(out)@ == old(out)@ + sensor_lines(sensors@),
{
    let ghost start = out@;
    let mut i: usize = 0;
    assert(start + sensor_lines(sensors@.take(0)) =~= start);
    while i < sensors.len()
        invariant
            i <= sensors@.len(),
            out@ == start + sensor_lines(sensors@.take(i as int)),
        decreases sensors@.len() - i,
    {
        proof {
            assert(sensors@.take(i + 1).drop_last() =~= sensors@.take(i as int));
        }
        let entry: String = sensors[i].format_list_entry();
        out.append(entry.as_str());
        out.append("\n");
        proof {
            let upto = sensor_lines(sensors@.take(i as int));
            assert(out@ =~= start + (upto + entry@ + "\n"@));
        }
        i = i + 1;
    }
    assert(sensors@.take(sensors@.len() as int) =~= sensors@);
}

/// Format a list of sensors as a human-readable text message.
pub fn format_sensor_list_text(sensors: Vec<Sensor>) -> (out: String)
    ensures
        out@ == sensor_list_text(sensors@),
{
    if sensors.len() == 0 {
        return "No sensors found.".to_string();
    }
    let sorted: Vec<Sensor> = arrange(sensors);
    let mut out: String = "Available sensors:\n\n".to_string();
    push_sensor_lines(&mut out, &sorted);
    trim_end(out.as_str())
}

/// Whether a time that may be missing is earlier than another one. A missing one comes first.
pub open spec fn created_earlier(a: Option<Instant>, b: Option<Instant>) -> bool {
    match (a, b) {
        (None, Some(_)) => true,
        (Some(x), Some(y)) => x.earlier(y),
        _ => false,
    }
}

impl Ranked for Sponsor {
    /// More sensors come first, then the earlier time of creation, then the lower ID.
    open spec fn precedes(self, other: Self) -> bool {
        if self.sensor_ids@.len() != other.sensor_ids@.len() {
            self.sensor_ids@.len() > other.sensor_ids@.len()
        } else if self.created_at != other.created_at {
            created_earlier(self.created_at, other.created_at)
        } else {
            self.id.0 < other.id.0
        }
    }

    fn comes_before(&self, other: &Self) -> (before: bool) {
        if self.sensor_ids.len() != other.sensor_ids.len() {
            return self.sensor_ids.len() > other.sensor_ids.len();
        }
        match (self.created_at, other.created_at) {
            (None, Some(_)) => true,
            (Some(_), None) => false,
            (None, None) => self.id.0 < other.id.0,
            (Some(a), Some(b)) => if a == b {
                self.id.0 < other.id.0
            } else {
                a.is_before(b)
            },
        }
    }

    proof fn one_way(a: Self, b: Self) {
    }

    proof fn parted(a: Self, b: Self, c: Self) {
    }
}

/// Whether a sponsor is listed: an actual one, with at least one linked sensor.
pub open spec fn is_listed(sponsor: Sponsor) -> bool {
    sponsor.sponsor_type == SponsorType::Sponsor && sponsor.sensor_ids@.len() > 0
}

/// A sponsor as a line in a list.
pub open spec fn sponsor_line(sponsor: Sponsor) -> Seq<char> {
    let count = sponsor.sensor_ids@.len();
    "- "@ + sponsor.name@ + " (_"@ + numerals::decimal(count) + (if count == 1 {
        " sensor"@
    } else {
        " sensors"@
    }) + "_)\n"@
}

/// Sponsors below one another.
pub open spec fn sponsor_lines(sponsors: Seq<Sponsor>) -> Seq<char>
    decreases sponsors.len(),
{
    if sponsors.len() == 0 {
        Seq::empty()
    } else {
        sponsor_lines(sponsors.drop_last()) + sponsor_line(sponsors.last())
    }
}

/// The list of all sponsors that back sensors.
pub open spec fn sponsor_list_text(sponsors: Seq<Sponsor>) -> Seq<char> {
    let listed = sponsors.filter(|sponsor: Sponsor| is_listed(sponsor));
    if listed.len() == 0 {
        "No sponsors to list."@
    } else {
        text::trimmed_end(
            "Thanks to the following sponsors for supporting the Gfrörli project:\n\n"@
                + sponsor_lines(sequences::arranged(listed)),
        )
    }
}

/// Sponsors are listed line by line: each has its own line, in order.
pub proof fn law_sponsors_are_listed_line_by_line(
    front: Seq<Sponsor>,
    back: Seq<Sponsor>,
    one: Sponsor,
)
    ensures
        sponsor_lines(front + back) == sponsor_lines(front) + sponsor_lines(back),
        sponsor_lines(seq![one]) == sponsor_line(one),
    decreases back.len(),
{
    assert(seq![one].drop_last() =~= Seq::<Sponsor>::empty());
    assert(sponsor_lines(seq![one].drop_last()) =~= Seq::<char>::empty());
    assert(sponsor_lines(seq![one]) =~= sponsor_line(one));
    if back.len() == 0 {
        assert(front + back =~= front);
        assert(sponsor_lines(front) + sponsor_lines(back) =~= sponsor_lines(front));
    } else {
        law_sponsors_are_listed_line_by_line(front, back.drop_last(), one);
        assert((front + back).drop_last() =~= front + back.drop_last());
        let line = sponsor_line(back.last());
        assert(sponsor_lines(front) + sponsor_lines(back.drop_last()) + line =~= sponsor_lines(front)
            + (sponsor_lines(back.drop_last()) + line));
    }
}

/// The line of a sponsor tells the name and how many sensors there are, one of them being one sensor
/// and not sensors.
pub proof fn law_sponsor_lines_tell_name_and_count(sponsor: Sponsor)
    ensures
        text::holds(sponsor_line(sponsor), sponsor.name@),
        sponsor.sensor_ids@.len() == 1 ==> text::holds(sponsor_line(sponsor), "(_1 sensor_)"@),
        sponsor.sensor_ids@.len() != 1 ==> text::holds(
            sponsor_line(sponsor),
            "(_"@ + numerals::decimal(sponsor.sensor_ids@.len()) + " sensors_)"@,
        ),
{
    let count = sponsor.sensor_ids@.len();
    let line = sponsor_line(sponsor);
    let number = numerals::decimal(count);
    reveal_strlit(" (_");
    reveal_strlit("(_");
    reveal_strlit(" ");
    reveal_strlit("_)\n");
    reveal_strlit("\n");
    reveal_strlit(" sensor");
    reveal_strlit(" sensors");
    reveal_strlit(" sensors_)");
    reveal_strlit("(_1 sensor_)");
    let unit = if count == 1 {
        " sensor"@
    } else {
        " sensors"@
    };
    let rest = " (_"@ + number + unit + "_)\n"@;
    assert(line =~= "- "@ + sponsor.name@ + rest);
    text::lemma_holds("- "@, sponsor.name@, rest);
    let front = "- "@ + sponsor.name@ + " "@;
    if count == 1 {
        assert(number =~= seq!['1']);
        assert(line =~= front + "(_1 sensor_)"@ + "\n"@);
        text::lemma_holds(front, "(_1 sensor_)"@, "\n"@);
    } else {
        let part = "(_"@ + number + " sensors_)"@;
        assert(line =~= front + part + "\n"@);
        text::lemma_holds(front, part, "\n"@);
    }
}

/// Whether a sponsor may be listed before another one: it backs more sensors, or as many and is known
/// for longer, or for as long and has the lower ID.
pub open spec fn may_be_listed_before(a: Sponsor, b: Sponsor) -> bool {
    ||| a.sensor_ids@.len() > b.sensor_ids@.len()
    ||| a.sensor_ids@.len() == b.sensor_ids@.len() && match (a.created_at, b.created_at) {
        (None, None) => a.id.0 <= b.id.0,
        (None, Some(_)) => true,
        (Some(_), None) => false,
        (Some(x), Some(y)) => {
            ||| x.seconds < y.seconds
            ||| x.seconds == y.seconds && x.nanos < y.nanos
            ||| x == y && a.id.0 <= b.id.0
        },
    }
}

/// Whether no sponsor stands behind one that it should stand before.
pub open spec fn are_by_merit(sponsors: Seq<Sponsor>) -> bool {
    forall|i: int, j: int|
        0 <= i < j < sponsors.len() ==> may_be_listed_before(
            #[trigger] sponsors[i],
            #[trigger] sponsors[j],
        )
}

/// The list of sponsors holds every actual sponsor with a sensor once, and no other, those with more
/// sensors first and of these the ones that are known for longer.
pub proof fn law_sponsor_list_is_complete_and_by_merit(sponsors: Seq<Sponsor>)
    ensures
        ({
            let listed = sponsors.filter(
                |sponsor: Sponsor|
                    sponsor.sponsor_type is Sponsor && sponsor.sensor_ids@.len() >= 1,
            );
            &&& listed.len() == 0 ==> sponsor_list_text(sponsors) == "No sponsors to list."@
            &&& listed.len() > 0 ==> exists|shown: Seq<Sponsor>|
                {
                    &&& #[trigger] are_by_merit(shown)
                    &&& shown.to_multiset() == listed.to_multiset()
                    &&& sponsor_list_text(sponsors) + "\n"@
                        == "Thanks to the following sponsors for supporting the Gfrörli project:\n\n"@
                        + sponsor_lines(shown)
                }
        }),
{
    let listed = sponsors.filter(
        |sponsor: Sponsor| sponsor.sponsor_type is Sponsor && sponsor.sensor_ids@.len() >= 1,
    );
    sequences::lemma_filter_alike(
        sponsors,
        |sponsor: Sponsor| is_listed(sponsor),
        |sponsor: Sponsor| sponsor.sponsor_type is Sponsor && sponsor.sensor_ids@.len() >= 1,
    );
    if listed.len() > 0 {
        let shown = sequences::arranged(listed);
        sequences::law_arranged_items_are_in_order(listed);
        sequences::law_arranged_items_are_the_same(listed);
        assert forall|i: int, j: int| 0 <= i < j < shown.len() implies may_be_listed_before(
            #[trigger] shown[i],
            #[trigger] shown[j],
        ) by {
            assert(!shown[j].precedes(shown[i]));
        }
        let header = "Thanks to the following sponsors for supporting the Gfrörli project:\n\n"@;
        let line = sponsor_line(shown.last());
        reveal_strlit("_)\n");
        reveal_strlit("\n");
        let front = header + sponsor_lines(shown.drop_last()) + line.drop_last();
        assert(line.last() == '\n');
        assert(line[line.len() - 2] == ')');
        assert(front.last() == ')');
        assert(header + sponsor_lines(shown) =~= front + "\n"@);
        text::lemma_trimmed_end_of(front, "\n"@);
        assert(are_by_merit(shown));
    }
}

/// Append a sponsor as a line.
fn push_sponsor_line(out: &mut String, sponsor: &Sponsor)
    ensures
        final(out)@ == old(out)@ + sponsor_line(*sponsor),
{
    let ghost start = out@;
    let count: usize = sponsor.sensor_ids.len();
    let unit: &'static str = if count == 1 {
        " sensor"
    } else {
        " sensors"
    };
    out.append("- ");
    out.append(sponsor.name.as_str());
    out.append(" (_");
    push_number(out, count as u64);
    out.append(unit);
    out.append("_)\n");
    proof {
        assert(out@ =~= start + sponsor_line(*sponsor));
    }
}

/// Format the `/sponsors` list: filter to actual sponsors (those with at least one linked sensor)
/// and sort by sensor count (desc), then by `created_at` (asc).
pub fn format_sponsor_list_text(sponsors: Vec<Sponsor>) -> (out: String)
    ensures
        out@ == sponsor_list_text(sponsors@),
{
    let ghost given = sponsors@;
    let ghost wanted = |sponsor: Sponsor| is_listed(sponsor);
    let mut listed: Vec<Sponsor> = Vec::new();
    proof {
        sequences::lemma_filter_ends(given, wanted);
    }
    for sponsor in it: sponsors
        invariant
            it.seq() == given,
            wanted == (|sponsor: Sponsor| is_listed(sponsor)),
            listed@ == given.take(it.index()).filter(wanted),
    {
        proof {
            sequences::lemma_filter_next(given, wanted, it.index());
        }
        if sponsor.sponsor_type == SponsorType::Sponsor && sponsor.sensor_ids.len() > 0 {
            listed.push(sponsor);
        }
    }
    proof {
        sequences::lemma_filter_ends(given, wanted);
    }
    if listed.len() == 0 {
        return "No sponsors to list.".to_string();
    }
    let sorted: Vec<Sponsor> = arrange(listed);
    let mut out: String =
        "Thanks to the following sponsors for supporting the Gfrörli project:\n\n".to_string();
    let ghost start = out@;
    let mut i: usize = 0;
    assert(start + sponsor_lines(sorted@.take(0)) =~= start);
    while i < sorted.len()
        invariant
            i <= sorted@.len(),
            out@ == start + sponsor_lines(sorted@.take(i as int)),
        decreases sorted@.len() - i,
    {
        proof {
            assert(sorted@.take(i + 1).drop_last() =~= sorted@.take(i as int));
        }
        push_sponsor_line(&mut out, &sorted[i]);
        proof {
            let upto = sponsor_lines(sorted@.take(i as int));
            assert(out@ =~= start + (upto + sponsor_line(sorted@[i as int])));
        }
        i = i + 1;
    }
    assert(sorted@.take(sorted@.len() as int) =~= sorted@);
    trim_end(out.as_str())
}

} // verus!
