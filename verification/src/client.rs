//! What the client of the Gfrörli API asks for, how it takes the answers, and how long it keeps
//! them.

use crate::api::{Sensor, SensorId, SensorView};
use crate::calendar;
use crate::calendar::{text_of_date, Date};
use crate::numerals;
use crate::numerals::push_number;
use vstd::prelude::*;

verus! {

/// How long cached sensor data remains valid, in nanoseconds.
pub const CACHE_TTL: u128 = 180_000_000_000;

/// Log API response times at warn level if they exceed this threshold, in seconds.
pub const SLOW_REQUEST_THRESHOLD: u64 = 2;

/// The endpoint that lists all sponsors. It is also the one that API keys are tried on.
pub const SPONSORS_ENDPOINT: &'static str = "/api/sponsors";

/// The endpoint that lists all sensors.
pub const SENSORS_ENDPOINT: &'static str = "/api/mobile_app/sensors";

/// What is said of an API key that the server turns down.
pub const INVALID_KEY: &'static str =
    "Gfrörli API key is invalid (401 Unauthorized). Check the api_key in your config or GFROERLI_BOT__GFROERLI__API_KEY env var.";

// ---------------------------------------------------------------------------------------------
// Requests
// ---------------------------------------------------------------------------------------------

/// The endpoint of one sensor.
pub open spec fn sensor_path(sensor_id: SensorId) -> Seq<char> {
    SENSORS_ENDPOINT@ + "/"@ + numerals::decimal(sensor_id.0 as nat)
}

/// The endpoint with the details of a sensor.
pub fn sensor_endpoint(sensor_id: SensorId) -> (endpoint: String)
    ensures
        endpoint@ == sensor_path(sensor_id),
{
    let mut endpoint: String = SENSORS_ENDPOINT.to_string();
    endpoint.append("/");
    push_number(&mut endpoint, sensor_id.0 as u64);
    endpoint
}

/// The endpoint with the sponsor of a sensor.
pub fn sponsor_endpoint(sensor_id: SensorId) -> (endpoint: String)
    ensures
        endpoint@ == sensor_path(sensor_id) + "/sponsor"@,
{
    let mut endpoint: String = sensor_endpoint(sensor_id);
    endpoint.append("/sponsor");
    endpoint
}

/// The endpoint with the daily temperatures of a sensor.
pub fn daily_endpoint(sensor_id: SensorId) -> (endpoint: String)
    ensures
        endpoint@ == sensor_path(sensor_id) + "/daily_temperatures"@,
{
    let mut endpoint: String = sensor_endpoint(sensor_id);
    endpoint.append("/daily_temperatures");
    endpoint
}

/// The endpoint with the hourly temperatures of a sensor.
pub fn hourly_endpoint(sensor_id: SensorId) -> (endpoint: String)
    ensures
        endpoint@ == sensor_path(sensor_id) + "/hourly_temperatures"@,
{
    let mut endpoint: String = sensor_endpoint(sensor_id);
    endpoint.append("/hourly_temperatures");
    endpoint
}

/// The URL of an endpoint below the base URL of the API.
pub fn endpoint_url(api_url: &str, endpoint: &str) -> (url: String)
    ensures
        url@ == api_url@ + endpoint@,
{
    let mut url: String = api_url.to_string();
    url.append(endpoint);
    url
}

/// The query of a date range: the first day, the last day and how many items are wanted at most.
pub open spec fn range_query_pairs(from: Date, to: Date, limit: u32) -> Seq<(
    Seq<char>,
    Seq<char>,
)> {
    seq![
        ("from"@, calendar::date_text(from.days as int)),
        ("to"@, calendar::date_text(to.days as int)),
        ("limit"@, numerals::decimal(limit as nat)),
    ]
}

/// The query of a date range: the first day, the last day and how many items are wanted at most.
pub fn range_query(from: Date, to: Date, limit: u32) -> (query: Vec<(&'static str, String)>)
    requires
        from.exists_in_calendar(),
        to.exists_in_calendar(),
    ensures
        query@.map_values(|pair: (&'static str, String)| (pair.0@, pair.1@)) == range_query_pairs(
            from,
            to,
            limit,
        ),
{
    let mut limit_text = String::new();
    push_number(&mut limit_text, limit as u64);
    let mut query: Vec<(&'static str, String)> = Vec::new();
    query.push(("from", text_of_date(from)));
    query.push(("to", text_of_date(to)));
    query.push(("limit", limit_text));
    proof {
        assert(limit_text@ =~= numerals::decimal(limit as nat));
        assert(query@.map_values(|pair: (&'static str, String)| (pair.0@, pair.1@))
            =~= range_query_pairs(from, to, limit));
    }
    query
}

// ---------------------------------------------------------------------------------------------
// Answers
// ---------------------------------------------------------------------------------------------

/// Judge an API key by the HTTP status of a request that was made with it: 401 means that the key
/// is invalid. Other failures of the request are not the key's.
pub fn check_api_key(status: u16) -> (verdict: Result<(), String>)
    ensures
        verdict is Err <==> status == 401,
        verdict is Err ==> verdict->Err_0@ == INVALID_KEY@,
{
    if status == 401 {
        Err(INVALID_KEY.to_string())
    } else {
        Ok(())
    }
}

/// Whether the HTTP status of a request for the sponsor of a sensor says that it has none.
pub fn has_no_sponsor(status: u16) -> (none: bool)
    ensures
        none == (status == 404),
{
    status == 404
}

/// A duration with one digit after the point: what the `Debug` of `std::time::Duration` gives with
/// a precision of one, for so many seconds and nanoseconds.
pub uninterp spec fn duration_text(seconds: int, nanos: int) -> Seq<char>;

/// The `Debug` of `std::time::Duration` with a precision of one: it gives the same for a duration
/// every time.
#[verifier::external_body]
fn text_of_duration(seconds: u64, nanos: u32) -> (text: String)
    requires
        nanos < calendar::SECOND_NANOS,
    ensures
        text@ == duration_text(seconds as int, nanos as int),
{
    format!("{:.1?}", std::time::Duration::new(seconds, nanos))
}

/// A line for the log on how long a request took.
#[derive(Debug)]
pub struct RequestLog {
    /// Whether the request was slow, and is to be logged at warn level.
    pub slow: bool,
    /// What to log.
    pub line: String,
}

/// What to log of the duration of an API request, at warn level if slow.
pub fn log_request_duration(endpoint: &str, seconds: u64, nanos: u32) -> (log: RequestLog)
    requires
        nanos < calendar::SECOND_NANOS,
    ensures
        log.slow == (seconds > SLOW_REQUEST_THRESHOLD || (seconds == SLOW_REQUEST_THRESHOLD && nanos
            > 0)),
        log.line@ == endpoint@ + " completed in "@ + duration_text(seconds as int, nanos as int),
{
    let mut line: String = endpoint.to_string();
    line.append(" completed in ");
    line.append(text_of_duration(seconds, nanos).as_str());
    let slow: bool = seconds > SLOW_REQUEST_THRESHOLD || (seconds == SLOW_REQUEST_THRESHOLD && nanos
        > 0);
    RequestLog { slow, line }
}

// ---------------------------------------------------------------------------------------------
// Cache
// ---------------------------------------------------------------------------------------------

/// What some sensors hold.
pub open spec fn sensor_views(sensors: Seq<Sensor>) -> Seq<SensorView> {
    sensors.map_values(|sensor: Sensor| sensor@)
}

/// Copies of some sensors.
pub fn copy_sensors(sensors: &Vec<Sensor>) -> (copies: Vec<Sensor>)
    ensures
        sensor_views(copies@) == sensor_views(sensors@),
{
    let mut copies: Vec<Sensor> = Vec::new();
    let mut i: usize = 0;
    while i < sensors.len()
        invariant
            i <= sensors@.len(),
            copies@.len() == i,
            forall|j: int| 0 <= j < i ==> (#[trigger] copies@[j])@ == sensors@[j]@,
        decreases sensors@.len() - i,
    {
        let copy: Sensor = sensors[i].clone();
        copies.push(copy);
        i = i + 1;
    }
    proof {
        assert(sensor_views(copies@) =~= sensor_views(sensors@));
    }
    copies
}

/// Sensors that were fetched from the API, and when.
#[derive(Debug)]
pub struct CachedSensors {
    /// The cached sensor data.
    pub sensors: Vec<Sensor>,
    /// When the data was fetched, in nanoseconds on a clock that does not go back.
    pub fetched_at: u128,
}

/// Time-limited cache of the sensor list fetched from the API.
#[derive(Debug)]
pub struct SensorCache {
    /// What was fetched last.
    pub entry: Option<CachedSensors>,
}

/// What a cache holds that is still valid.
pub open spec fn still_cached(entry: Option<CachedSensors>, now: u128) -> Option<Seq<SensorView>> {
    match entry {
        Some(cached) => if now - cached.fetched_at < CACHE_TTL {
            Some(sensor_views(cached.sensors@))
        } else {
            None
        },
        None => None,
    }
}

impl SensorCache {
    /// A cache with nothing in it.
    pub fn new() -> (cache: SensorCache)
        ensures
            cache.entry is None,
    {
        SensorCache { entry: None }
    }

    /// The cached sensors, if they are still valid.
    pub fn get(&self, now: u128) -> (sensors: Option<Vec<Sensor>>)
        ensures
            match sensors {
                Some(sensors) => still_cached(self.entry, now) == Some(sensor_views(sensors@)),
                None => still_cached(self.entry, now) is None,
            },
    {
        match &self.entry {
            Some(cached) => if now < cached.fetched_at || now - cached.fetched_at < CACHE_TTL {
                Some(copy_sensors(&cached.sensors))
            } else {
                None
            },
            None => None,
        }
    }

    /// Keep sensors that were fetched now.
    pub fn put(&mut self, sensors: Vec<Sensor>, now: u128)
        ensures
            final(self).entry == Some(CachedSensors { sensors, fetched_at: now }),
    {
        self.entry = Some(CachedSensors { sensors, fetched_at: now });
    }
}

/// The cache gives back what was put into it for three minutes, and nothing after that.
pub proof fn law_cache_gives_back_what_was_put(sensors: Vec<Sensor>, put_at: u128, now: u128)
    requires
        put_at <= now,
    ensures
        still_cached(Some(CachedSensors { sensors, fetched_at: put_at }), now) == (if now - put_at
            < 180 * 1_000_000_000 {
            Some(sensor_views(sensors@))
        } else {
            None
        }),
{
}

/// Each sensor has an endpoint of its own below the list of sensors.
pub proof fn law_sensors_have_their_own_endpoints(a: SensorId, b: SensorId)
    ensures
        sensor_path(a) == "/api/mobile_app/sensors/"@ + numerals::decimal(a.0 as nat),
        sensor_path(a) == sensor_path(b) ==> a == b,
{
    reveal_strlit("/api/mobile_app/sensors");
    reveal_strlit("/api/mobile_app/sensors/");
    reveal_strlit("/");
    let base = "/api/mobile_app/sensors/"@;
    assert(SENSORS_ENDPOINT@ + "/"@ =~= base);
    if sensor_path(a) == sensor_path(b) {
        let n = base.len() as int;
        assert(sensor_path(a).skip(n) =~= numerals::decimal(a.0 as nat));
        assert(sensor_path(b).skip(n) =~= numerals::decimal(b.0 as nat));
        numerals::law_decimals_are_told_apart(a.0 as nat, b.0 as nat);
    }
}

/// A range is asked for from its first day to its last one, with so many items at most.
pub proof fn law_range_queries_name_both_days_and_the_limit(from: Date, to: Date, limit: u32)
    ensures
        ({
            let pairs = range_query_pairs(from, to, limit);
            &&& pairs.len() == 3
            &&& pairs.contains(("from"@, calendar::date_text(from.days as int)))
            &&& pairs.contains(("to"@, calendar::date_text(to.days as int)))
            &&& exists|i: int|
                0 <= i < 3 && (#[trigger] pairs[i]).0 == "limit"@ && numerals::digits_value(
                    pairs[i].1,
                ) == Some(limit as nat)
        }),
{
    let pairs = range_query_pairs(from, to, limit);
    numerals::law_decimals_are_read_back(limit as nat);
    assert(pairs[0] == ("from"@, calendar::date_text(from.days as int)));
    assert(pairs[1] == ("to"@, calendar::date_text(to.days as int)));
    assert(pairs[2].0 == "limit"@);
}

/// Within three minutes the cache gives back all sensors in order, with all that is known of them, also
/// where the clock shows an earlier time than when they were put into it.
pub proof fn law_cached_sensors_are_complete(cached: CachedSensors, now: u128, i: int)
    requires
        now - cached.fetched_at < 180 * 1_000_000_000,
        0 <= i < cached.sensors@.len(),
    ensures
        ({
            let held = still_cached(Some(cached), now);
            let sensor = cached.sensors@[i];
            &&& held is Some
            &&& held->0.len() == cached.sensors@.len()
            &&& held->0[i].id == sensor.id
            &&& held->0[i].device_name == sensor.device_name@
            &&& held->0[i].latest_temperature == sensor.latest_temperature
            &&& held->0[i].latest_measurement_at == sensor.latest_measurement_at
            &&& held->0[i].maximum_temperature == sensor.maximum_temperature
            &&& held->0[i].caption is Some <==> sensor.caption is Some
            &&& sensor.caption is Some ==> held->0[i].caption->0 == sensor.caption->0@
        }),
{
}

} // verus!
