//! The texts that the bot replies with.

use crate::accuracy;
use crate::api;
use crate::api::{push_sensor_lines, Sensor, SensorView, Sponsor};
use crate::binary64;
use crate::binary64::{Binary64, MANTISSA_END};
use crate::calendar::{utc_now, Instant};
use crate::identity::Identity;
use crate::numerals;
use crate::numerals::{push_number, push_one_decimal};
use crate::sequences;
use crate::statistics;
use crate::store::AlertStatus;
use crate::text;
use crate::text::{join, split_paragraphs, trim, trim_end};
use vstd::prelude::*;

verus! {

/// Maximum number of alerts a single user may hold.
pub const MAX_ALERTS_PER_USER: usize = 10;

/// Usage hint shown for malformed `/alert` invocations.
pub const ALERT_USAGE: &'static str =
    "Get notified once a sensor's water body warms up.\n\nA message will be sent to you when the afternoon average temperature is above your chosen temperature for 2 days in a row.\n\nUsage: /alert <sensor> <temperature>\nExample: /alert Aare 20\n\nList your alerts with /alerts, remove one with /unalert <sensor>.";

/// Usage hint shown for malformed `/unalert` invocations.
pub const UNALERT_USAGE: &'static str =
    "Remove an alert.\n\nUsage: /unalert <sensor>\nExample: /unalert Aare\n\nRemove all your alerts with /unalert all.";

/// The project, the website and what the bot is for.
pub const ABOUT: &'static str =
    "Gfrörli is a community project that measures water temperatures in Swiss water bodies.\n\nWebsite: https://gfrör.li/\n\nThis bot allows you to quickly check current water temperatures directly from your phone. Use /sensors to see all available measurement stations, or /temp to get the latest reading for a specific sensor.";

// ---------------------------------------------------------------------------------------------
// Statistics
// ---------------------------------------------------------------------------------------------

/// Summary statistics (min/max/avg) built from a sequence of temperature aggregates.
#[derive(Clone, Copy, Debug, PartialEq, Eq, Structural)]
pub struct TempStats {
    /// Lowest minimum.
    pub min: Binary64,
    /// Highest maximum.
    pub max: Binary64,
    /// Mean of the averages.
    pub avg: Binary64,
}

/// The minimum, the maximum and the average of an aggregate.
pub type Aggregate = (Binary64, Binary64, Binary64);

/// The minima of some aggregates.
pub open spec fn minima(items: Seq<Aggregate>) -> Seq<Binary64> {
    items.map_values(|item: Aggregate| item.0)
}

/// The maxima of some aggregates.
pub open spec fn maxima(items: Seq<Aggregate>) -> Seq<Binary64> {
    items.map_values(|item: Aggregate| item.1)
}

/// The averages of some aggregates.
pub open spec fn means(items: Seq<Aggregate>) -> Seq<Binary64> {
    items.map_values(|item: Aggregate| item.2)
}

/// The lowest minimum, the highest maximum and the unweighted mean of the averages, if there are
/// any.
pub open spec fn stats_of(items: Seq<Aggregate>) -> Option<TempStats> {
    if items.len() == 0 {
        None
    } else {
        Some(
            TempStats {
                min: statistics::lowest(minima(items)),
                max: statistics::highest(maxima(items)),
                avg: statistics::mean(means(items)),
            },
        )
    }
}

/// Compute min/max/avg across `(min, max, avg)` tuples.
///
/// Returns `None` if there are none. `avg` is the unweighted mean of the per-item averages.
pub fn compute_stats(items: &Vec<Aggregate>) -> (stats: Option<TempStats>)
    ensures
        stats == stats_of(items@),
{
    let mut min: Binary64 = Binary64 { bits: 0x7ff0_0000_0000_0000 };
    let mut max: Binary64 = Binary64 { bits: 0xfff0_0000_0000_0000 };
    let mut sum: Binary64 = Binary64 { bits: 0 };
    let mut count: usize = 0;
    while count < items.len()
        invariant
            count <= items@.len(),
            min == statistics::lowest(minima(items@.take(count as int))),
            max == statistics::highest(maxima(items@.take(count as int))),
            sum == statistics::running_sum(means(items@.take(count as int))),
        decreases items@.len() - count,
    {
        let (mn, mx, av): Aggregate = items[count];
        proof {
            let (before, upto) = (items@.take(count as int), items@.take(count + 1));
            assert(minima(upto).drop_last() =~= minima(before));
            assert(maxima(upto).drop_last() =~= maxima(before));
            assert(means(upto).drop_last() =~= means(before));
        }
        if mn.is_below(min) {
            min = mn;
        }
        if max.is_below(mx) {
            max = mx;
        }
        sum = sum.plus(av);
        count = count + 1;
    }
    assert(items@.take(items@.len() as int) =~= items@);
    if count > 0 {
        Some(TempStats { min, max, avg: sum.over(Binary64::from_count(count as u64)) })
    } else {
        None
    }
}

/// What the averages of some aggregates add up to without rounding.
pub open spec fn sum_of_averages(items: Seq<Aggregate>) -> int
    decreases items.len(),
{
    if items.len() == 0 {
        0
    } else {
        items[0].2.value() + sum_of_averages(items.drop_first())
    }
}

proof fn lemma_sum_of_averages(items: Seq<Aggregate>)
    ensures
        statistics::exact_sum(means(items)) == sum_of_averages(items),
    decreases items.len(),
{
    if items.len() > 0 {
        lemma_sum_of_averages(items.drop_first());
        statistics::lemma_exact_sum_from_the_front(means(items));
        assert(means(items).drop_first() =~= means(items.drop_first()));
    }
}

/// There are statistics exactly where there are items. No item lies outside of the reported range,
/// and both ends of it are reached: each is a minimum or a maximum of an item, unless none of these
/// is a number.
pub proof fn law_statistics_cover_every_item(items: Seq<Aggregate>)
    ensures
        stats_of(items) is Some <==> items.len() > 0,
        items.len() > 0 ==> {
            let stats = stats_of(items)->0;
            &&& forall|i: int|
                0 <= i < items.len() && !(#[trigger] items[i]).0.is_nan() ==> !stats.min.is_nan()
                    && stats.min.value() <= items[i].0.value()
            &&& forall|i: int|
                0 <= i < items.len() && !(#[trigger] items[i]).1.is_nan() ==> !stats.max.is_nan()
                    && items[i].1.value() <= stats.max.value()
            &&& (exists|i: int| 0 <= i < items.len() && (#[trigger] items[i]).0 == stats.min)
                || stats.min.is_infinite() && !stats.min.negative()
            &&& (exists|i: int| 0 <= i < items.len() && (#[trigger] items[i]).1 == stats.max)
                || stats.max.is_infinite() && stats.max.negative()
        },
{
    if items.len() > 0 {
        let stats = stats_of(items)->0;
        let (low, high) = (minima(items), maxima(items));
        statistics::law_extremes_are_numbers(low);
        statistics::law_extremes_are_numbers(high);
        assert forall|i: int| 0 <= i < items.len() && !(
        #[trigger] items[i]).0.is_nan() implies !stats.min.is_nan() && stats.min.value()
            <= items[i].0.value() by {
            assert(low[i] == items[i].0);
            statistics::law_numbers_lie_between_the_extremes(low, i);
        }
        assert forall|i: int| 0 <= i < items.len() && !(
        #[trigger] items[i]).1.is_nan() implies !stats.max.is_nan() && items[i].1.value()
            <= stats.max.value() by {
            assert(high[i] == items[i].1);
            statistics::law_numbers_lie_between_the_extremes(high, i);
        }
        if low.contains(stats.min) {
            let i = choose|i: int| 0 <= i < low.len() && low[i] == stats.min;
            assert(items[i].0 == stats.min);
        }
        if high.contains(stats.max) {
            let i = choose|i: int| 0 <= i < high.len() && high[i] == stats.max;
            assert(items[i].1 == stats.max);
        }
    }
}

/// The reported average is what the averages of all items add up to divided by how many items there
/// are, but for a part in 2 to the power of 31 of the largest of them.
pub proof fn law_every_average_counts_once(items: Seq<Aggregate>, bound: int)
    requires
        0 < items.len() <= 0x10_0000,
        forall|i: int|
            0 <= i < items.len() ==> (#[trigger] items[i]).2.is_finite() && accuracy::size(
                items[i].2.value(),
            ) <= bound,
        MANTISSA_END <= bound,
        0x20_0000 * bound <= accuracy::limit(),
    ensures
        stats_of(items) is Some,
        stats_of(items)->0.avg.is_finite(),
        0x8000_0000 * accuracy::size(
            stats_of(items)->0.avg.value() * items.len() - sum_of_averages(items),
        ) <= items.len() * bound,
{
    let averages = means(items);
    assert forall|i: int| 0 <= i < averages.len() implies (#[trigger] averages[i]).is_finite()
        && accuracy::size(averages[i].value()) <= bound by {
        assert(averages[i] == items[i].2);
    }
    lemma_sum_of_averages(items);
    statistics::law_mean_is_nearly_exact(averages, bound);
}

/// The reported average is the running sum of the averages of all items, divided by their number.
pub proof fn law_average_is_the_quotient_of_the_running_sum(items: Seq<Aggregate>)
    requires
        items.len() > 0,
    ensures
        stats_of(items)->0.avg == binary64::quotient_of(
            statistics::running_sum(Seq::new(items.len(), |i: int| items[i].2)),
            binary64::whole(false, items.len()),
        ),
{
    assert(means(items) =~= Seq::new(items.len(), |i: int| items[i].2));
}

/// A sentence on the statistics of some time.
pub open spec fn stats_sentence(lead: Seq<char>, stats: TempStats) -> Seq<char> {
    lead + numerals::one_decimal(stats.min) + "°C to "@ + numerals::one_decimal(stats.max)
        + "°C, averaging "@ + numerals::one_decimal(stats.avg) + "°C."@
}

/// A sentence on the statistics of some time, where there are any.
pub open spec fn optional_sentence(lead: Seq<char>, stats: Option<TempStats>) -> Seq<char> {
    match stats {
        Some(stats) => stats_sentence(lead, stats),
        None => Seq::empty(),
    }
}

/// The caption of a sensor behind its name, where there is one.
pub open spec fn caption_text(caption: Option<Seq<char>>) -> Seq<char> {
    match caption {
        Some(caption) => if text::trimmed(caption).len() > 0 {
            ": _"@ + text::trimmed(caption) + "_"@
        } else {
            Seq::empty()
        },
        None => Seq::empty(),
    }
}

/// The highest temperature ever measured, where it is known.
pub open spec fn record_text(maximum: Option<Binary64>) -> Seq<char> {
    match maximum {
        Some(maximum) => "\n\nThe highest temperature ever measured at this location was "@
            + numerals::one_decimal(maximum) + "°C."@,
        None => Seq::empty(),
    }
}

/// The text shown above the `/stats` chart image.
pub open spec fn stats_text(
    sensor: SensorView,
    stats_24h: Option<TempStats>,
    stats_30d: Option<TempStats>,
    now: Instant,
) -> Seq<char> {
    sensor.device_name + caption_text(sensor.caption) + "\n\n🌡️ "@ + api::reading(sensor, now)
        + optional_sentence(
        "\n\nOver the last 24 hours, the temperature ranged from "@,
        stats_24h,
    ) + optional_sentence("\n\nOver the last 30 days, the temperature ranged from "@, stats_30d)
        + record_text(sensor.maximum_temperature)
}

/// The text above the charts tells the name of the sensor, its reading, the lowest, the highest and
/// the average temperature of the last 24 hours and of the last 30 days where there are any, and the
/// record where it is known.
pub proof fn law_stats_text_tells_all_of_it(
    sensor: SensorView,
    stats_24h: Option<TempStats>,
    stats_30d: Option<TempStats>,
    now: Instant,
)
    ensures
        ({
            let told = stats_text(sensor, stats_24h, stats_30d, now);
            &&& told.len() >= sensor.device_name.len()
            &&& told.take(sensor.device_name.len() as int) == sensor.device_name
            &&& text::holds(told, api::reading(sensor, now))
            &&& stats_24h matches Some(stats) ==> text::holds(
                told,
                "Over the last 24 hours, the temperature ranged from "@ + numerals::one_decimal(
                    stats.min,
                ) + "°C to "@ + numerals::one_decimal(stats.max) + "°C, averaging "@
                    + numerals::one_decimal(stats.avg) + "°C."@,
            )
            &&& stats_30d matches Some(stats) ==> text::holds(
                told,
                "Over the last 30 days, the temperature ranged from "@ + numerals::one_decimal(
                    stats.min,
                ) + "°C to "@ + numerals::one_decimal(stats.max) + "°C, averaging "@
                    + numerals::one_decimal(stats.avg) + "°C."@,
            )
            &&& sensor.maximum_temperature matches Some(maximum) ==> text::holds(
                told,
                "The highest temperature ever measured at this location was "@
                    + numerals::one_decimal(maximum) + "°C."@,
            )
        }),
{
    let told = stats_text(sensor, stats_24h, stats_30d, now);
    let lead = sensor.device_name + caption_text(sensor.caption) + "\n\n🌡️ "@;
    let reading = api::reading(sensor, now);
    let hours = optional_sentence(
        "\n\nOver the last 24 hours, the temperature ranged from "@,
        stats_24h,
    );
    let days = optional_sentence(
        "\n\nOver the last 30 days, the temperature ranged from "@,
        stats_30d,
    );
    let record = record_text(sensor.maximum_temperature);
    assert(told.take(sensor.device_name.len() as int) =~= sensor.device_name);
    assert(told =~= lead + reading + (hours + days + record));
    text::lemma_holds(lead, reading, hours + days + record);
    if let Some(stats) = stats_24h {
        assert(told =~= (lead + reading) + hours + (days + record));
        text::lemma_holds(lead + reading, hours, days + record);
        lemma_hours_sentence(stats);
        let part = stats_sentence("Over the last 24 hours, the temperature ranged from "@, stats);
        text::law_parts_of_parts_are_held(told, hours, part);
    }
    if let Some(stats) = stats_30d {
        assert(told =~= (lead + reading + hours) + days + record);
        text::lemma_holds(lead + reading + hours, days, record);
        lemma_days_sentence(stats);
        let part = stats_sentence("Over the last 30 days, the temperature ranged from "@, stats);
        text::law_parts_of_parts_are_held(told, days, part);
    }
    if let Some(maximum) = sensor.maximum_temperature {
        assert(told =~= (lead + reading + hours + days) + record + Seq::<char>::empty());
        text::lemma_holds(lead + reading + hours + days, record, Seq::empty());
        lemma_record(maximum);
        let part = "The highest temperature ever measured at this location was "@
            + numerals::one_decimal(maximum) + "°C."@;
        text::law_parts_of_parts_are_held(told, record, part);
    }
}

proof fn lemma_hours_sentence(stats: TempStats)
    ensures
        text::holds(
            stats_sentence("\n\nOver the last 24 hours, the temperature ranged from "@, stats),
            stats_sentence("Over the last 24 hours, the temperature ranged from "@, stats),
        ),
{
    reveal_strlit("\n\nOver the last 24 hours, the temperature ranged from ");
    reveal_strlit("Over the last 24 hours, the temperature ranged from ");
    reveal_strlit("\n\n");
    let lead = "Over the last 24 hours, the temperature ranged from "@;
    assert("\n\nOver the last 24 hours, the temperature ranged from "@ =~= "\n\n"@ + lead);
    lemma_lead(lead, stats);
}

proof fn lemma_days_sentence(stats: TempStats)
    ensures
        text::holds(
            stats_sentence("\n\nOver the last 30 days, the temperature ranged from "@, stats),
            stats_sentence("Over the last 30 days, the temperature ranged from "@, stats),
        ),
{
    reveal_strlit("\n\nOver the last 30 days, the temperature ranged from ");
    reveal_strlit("Over the last 30 days, the temperature ranged from ");
    reveal_strlit("\n\n");
    let lead = "Over the last 30 days, the temperature ranged from "@;
    assert("\n\nOver the last 30 days, the temperature ranged from "@ =~= "\n\n"@ + lead);
    lemma_lead(lead, stats);
}

proof fn lemma_lead(lead: Seq<char>, stats: TempStats)
    ensures
        text::holds(stats_sentence("\n\n"@ + lead, stats), stats_sentence(lead, stats)),
{
    let part = stats_sentence(lead, stats);
    assert(stats_sentence("\n\n"@ + lead, stats) =~= "\n\n"@ + part + Seq::<char>::empty());
    text::lemma_holds("\n\n"@, part, Seq::empty());
}

proof fn lemma_record(maximum: Binary64)
    ensures
        text::holds(
            record_text(Some(maximum)),
            "The highest temperature ever measured at this location was "@ + numerals::one_decimal(
                maximum,
            ) + "°C."@,
        ),
{
    reveal_strlit("\n\nThe highest temperature ever measured at this location was ");
    reveal_strlit("The highest temperature ever measured at this location was ");
    reveal_strlit("\n\n");
    let lead = "The highest temperature ever measured at this location was "@;
    assert("\n\nThe highest temperature ever measured at this location was "@ =~= "\n\n"@ + lead);
    let part = lead + numerals::one_decimal(maximum) + "°C."@;
    assert(record_text(Some(maximum)) =~= "\n\n"@ + part + Seq::<char>::empty());
    text::lemma_holds("\n\n"@, part, Seq::empty());
}

/// What is not known is not told: without statistics and without a record, the text ends with the
/// reading.
pub proof fn law_stats_text_tells_nothing_else(sensor: SensorView, now: Instant)
    requires
        sensor.maximum_temperature is None,
        sensor.caption is None,
    ensures
        stats_text(sensor, None, None, now) == sensor.device_name + "\n\n🌡️ "@ + api::reading(
            sensor,
            now,
        ),
{
    assert(stats_text(sensor, None, None, now) =~= sensor.device_name + "\n\n🌡️ "@ + api::reading(
        sensor,
        now,
    ));
}

/// A caption is told without the white space around it, and one that is nothing else is not told.
pub proof fn law_captions_are_told_without_white_space(caption: Seq<char>)
    ensures
        text::is_blank(caption) ==> caption_text(Some(caption)).len() == 0,
        !text::is_blank(caption) ==> caption_text(Some(caption)) == ": _"@ + text::trimmed(caption)
            + "_"@,
{
    text::law_blank_texts_are_trimmed_to_nothing(caption);
}

/// Append a sentence on the statistics of some time, where there are any.
fn push_optional_sentence(out: &mut String, lead: &str, stats: Option<TempStats>)
    ensures
        final(out)@ == old(out)@ + optional_sentence(lead@, stats),
{
    let ghost start = out@;
    match stats {
        Some(stats) => {
            out.append(lead);
            push_one_decimal(out, stats.min);
            out.append("°C to ");
            push_one_decimal(out, stats.max);
            out.append("°C, averaging ");
            push_one_decimal(out, stats.avg);
            out.append("°C.");
            proof {
                assert(out@ =~= start + stats_sentence(lead@, stats));
            }
        },
        None => {
            assert(out@ =~= start + Seq::<char>::empty());
        },
    }
}

/// Append the caption of a sensor, where there is one.
fn push_caption(out: &mut String, caption: &Option<String>)
    ensures
        final(out)@ == old(out)@ + caption_text(api::optional_text(*caption)),
{
    let ghost start = out@;
    match caption {
        Some(caption) => {
            let caption: String = trim(caption.as_str());
            if caption.as_str().unicode_len() > 0 {
                out.append(": _");
                out.append(caption.as_str());
                out.append("_");
                proof {
                    assert(out@ =~= start + (": _"@ + caption@ + "_"@));
                }
            } else {
                assert(out@ =~= start + Seq::<char>::empty());
            }
        },
        None => {
            assert(out@ =~= start + Seq::<char>::empty());
        },
    }
}

/// Append the highest temperature ever measured, where it is known.
fn push_record(out: &mut String, maximum: Option<Binary64>)
    ensures
        final(out)@ == old(out)@ + record_text(maximum),
{
    let ghost start = out@;
    match maximum {
        Some(maximum) => {
            out.append("\n\nThe highest temperature ever measured at this location was ");
            push_one_decimal(out, maximum);
            out.append("°C.");
            proof {
                assert(out@ =~= start + record_text(Some(maximum)));
            }
        },
        None => {
            assert(out@ =~= start + Seq::<char>::empty());
        },
    }
}

/// Format the text shown above the `/stats` chart image, as of `now`.
pub fn format_stats_text_at(
    sensor: &Sensor,
    stats_24h: Option<TempStats>,
    stats_30d: Option<TempStats>,
    now: Instant,
) -> (out: String)
    requires
        sensor.is_dated(),
        now.exists_in_calendar(),
    ensures
        out@ == stats_text(sensor@, stats_24h, stats_30d, now),
{
    let mut out: String = sensor.device_name.clone();
    push_caption(&mut out, &sensor.caption);
    out.append("\n\n🌡️ ");
    out.append(sensor.format_temperature_reading_at(now).as_str());
    push_optional_sentence(
        &mut out,
        "\n\nOver the last 24 hours, the temperature ranged from ",
        stats_24h,
    );
    push_optional_sentence(
        &mut out,
        "\n\nOver the last 30 days, the temperature ranged from ",
        stats_30d,
    );
    push_record(&mut out, sensor.maximum_temperature);
    out
}

/// Format the text shown above the `/stats` chart image.
pub fn format_stats_text(
    sensor: &Sensor,
    stats_24h: Option<TempStats>,
    stats_30d: Option<TempStats>,
) -> (out: String)
    requires
        sensor.is_dated(),
    ensures
        exists|now: Instant|
            now.exists_in_calendar() && out@ == #[trigger] stats_text(
                sensor@,
                stats_24h,
                stats_30d,
                now,
            ),
{
    format_stats_text_at(sensor, stats_24h, stats_30d, utc_now())
}

// ---------------------------------------------------------------------------------------------
// Sponsors
// ---------------------------------------------------------------------------------------------

/// Some texts without the white space around them.
pub open spec fn all_trimmed(parts: Seq<Seq<char>>) -> Seq<Seq<char>> {
    parts.map_values(|part: Seq<char>| text::trimmed(part))
}

/// A paragraph in Threema italics. The space before the closing mark keeps it apart from a URL at
/// the end of the paragraph.
pub open spec fn italic(paragraph: Seq<char>) -> Seq<char> {
    "_"@ + paragraph + " _"@
}

/// A text with each of its paragraphs in Threema italics, blank ones left out.
pub open spec fn italic_paragraphs(s: Seq<char>) -> Seq<char> {
    text::joined(
        all_trimmed(text::paragraphs(s)).filter(|p: Seq<char>| p.len() > 0).map_values(
            |p: Seq<char>| italic(p),
        ),
        "\n\n"@,
    )
}

/// Paragraphs are put in italics one by one: what stands before the first blank line, and what stands
/// behind it. Those without anything but white space are left out.
pub proof fn law_paragraphs_are_put_in_italics_one_by_one(first: Seq<char>, rest: Seq<char>)
    requires
        text::is_paragraph(first),
    ensures
        italic_paragraphs(first) == (if text::is_blank(first) {
            Seq::<char>::empty()
        } else {
            "_"@ + text::trimmed(first) + " _"@
        }),
        first.len() == 0 || first.last() != '\n' ==> italic_paragraphs(first + "\n\n"@ + rest) == (
        if text::is_blank(first) {
            italic_paragraphs(rest)
        } else if italic_paragraphs(rest).len() == 0 {
            italic_paragraphs(first)
        } else {
            italic_paragraphs(first) + "\n\n"@ + italic_paragraphs(rest)
        }),
{
    text::law_blank_texts_are_trimmed_to_nothing(first);
    text::lemma_paragraphs_of(first, rest);
    lemma_italic_first(seq![first], first, Seq::empty());
    assert(seq![first] =~= seq![first] + Seq::<Seq<char>>::empty());
    lemma_marked(Seq::empty());
    if first.len() == 0 || first.last() != '\n' {
        let parts = text::paragraphs(rest);
        lemma_italic_first(seq![first] + parts, first, parts);
        lemma_marked(parts);
    }
}

/// The paragraphs in italics, blank ones left out.
spec fn marked(parts: Seq<Seq<char>>) -> Seq<Seq<char>> {
    all_trimmed(parts).filter(|p: Seq<char>| p.len() > 0).map_values(|p: Seq<char>| italic(p))
}

proof fn lemma_italic_first(all: Seq<Seq<char>>, first: Seq<char>, rest: Seq<Seq<char>>)
    requires
        all == seq![first] + rest,
    ensures
        marked(all) == (if text::trimmed(first).len() > 0 {
            seq![italic(text::trimmed(first))] + marked(rest)
        } else {
            marked(rest)
        }),
{
    let wanted = |p: Seq<char>| p.len() > 0;
    let one = text::trimmed(first);
    assert(all_trimmed(all) =~= seq![one] + all_trimmed(rest));
    Seq::filter_distributes_over_add(seq![one], all_trimmed(rest), wanted);
    if one.len() > 0 {
        reveal(Seq::filter);
        assert(seq![one].drop_last() =~= Seq::<Seq<char>>::empty());
        assert(seq![one].drop_last().filter(wanted) =~= Seq::<Seq<char>>::empty());
        assert(seq![one].filter(wanted) =~= seq![one]);
        assert(marked(all) =~= seq![italic(one)] + marked(rest));
    } else {
        sequences::lemma_filter_nothing(seq![one], wanted);
        assert(all_trimmed(all).filter(wanted) =~= all_trimmed(rest).filter(wanted));
    }
}

/// Joining is nothing where there is nothing to join, and goes on from the first text else.
proof fn lemma_marked(parts: Seq<Seq<char>>)
    ensures
        forall|text: Seq<char>|
            #![trigger italic(text)]
            text::joined(seq![italic(text)] + marked(parts), "\n\n"@) == (if marked(parts).len() == 0 {
                italic(text)
            } else {
                italic(text) + "\n\n"@ + text::joined(marked(parts), "\n\n"@)
            }),
        text::joined(marked(parts), "\n\n"@).len() == 0 <==> marked(parts).len() == 0,
{
    let rest = marked(parts);
    let between = "\n\n"@;
    assert forall|text: Seq<char>|
        #![trigger italic(text)]
        text::joined(seq![italic(text)] + rest, between) == (if rest.len() == 0 {
            italic(text)
        } else {
            italic(text) + between + text::joined(rest, between)
        }) by {
        let all = seq![italic(text)] + rest;
        text::law_joined_texts_stand_in_order(all, between);
        text::law_joined_texts_stand_in_order(rest, between);
        assert(all.drop_first() =~= rest);
        assert(all[0] == italic(text));
    }
    if rest.len() > 0 {
        reveal_strlit("_");
        let last = rest.last();
        let kept = all_trimmed(parts).filter(|p: Seq<char>| p.len() > 0);
        assert(last == italic(kept.last()));
        assert(last.len() > 0);
        if rest.len() == 1 {
            assert(rest[0] == last);
        }
    }
}

/// Wrap each paragraph of a description in Threema italic markers. Threema markup is scoped to a
/// single paragraph, so blocks separated by blank lines each need their own `_..._` pair.
pub fn italicize_paragraphs(text: &str) -> (out: String)
    ensures
        out@ == italic_paragraphs(text@),
{
    let parts: Vec<String> = split_paragraphs(text);
    let mut kept: Vec<String> = Vec::new();
    let ghost wanted = |p: Seq<char>| p.len() > 0;
    let ghost styled = |p: Seq<char>| italic(p);
    let ghost whole = all_trimmed(text::views(parts@));
    proof {
        sequences::lemma_filter_ends(whole, wanted);
        assert(text::views(kept@) =~= whole.take(0).filter(wanted).map_values(styled));
    }
    let mut i: usize = 0;
    while i < parts.len()
        invariant
            i <= parts@.len(),
            whole == all_trimmed(text::views(parts@)),
            wanted == (|p: Seq<char>| p.len() > 0),
            styled == (|p: Seq<char>| italic(p)),
            text::views(kept@) == whole.take(i as int).filter(wanted).map_values(styled),
        decreases parts@.len() - i,
    {
        let part: String = trim(parts[i].as_str());
        proof {
            sequences::lemma_filter_next(whole, wanted, i as int);
            assert(whole[i as int] == part@);
        }
        if part.as_str().unicode_len() > 0 {
            let mut marked: String = "_".to_string();
            marked.append(part.as_str());
            marked.append(" _");
            let ghost before = text::views(kept@);
            let ghost new = marked@;
            kept.push(marked);
            proof {
                assert(new == italic(part@));
                assert(text::views(kept@) =~= before.push(new));
                assert(whole.take(i + 1).filter(wanted).map_values(styled) =~= before.push(new));
            }
        }
        i = i + 1;
    }
    proof {
        sequences::lemma_filter_ends(whole, wanted);
    }
    join(&kept, "\n\n")
}

/// The description of a sponsor, if there is more to it than white space.
pub open spec fn told(description: Option<Seq<char>>) -> Option<Seq<char>> {
    match description {
        Some(description) => if text::trimmed(description).len() > 0 {
            Some(text::trimmed(description))
        } else {
            None
        },
        None => None,
    }
}

/// The reply to `/sponsor` for a sensor with a sponsor.
pub open spec fn sponsor_text(sensor: SensorView, sponsor: Sponsor) -> Seq<char> {
    let lead = "The sensor \""@ + sensor.device_name + "\" is "@ + api::preposition_text(
        sponsor.sponsor_type,
    ) + " *"@ + sponsor.name@;
    match told(api::optional_text(sponsor.description)) {
        Some(description) => lead + "*:\n\n"@ + italic_paragraphs(description),
        None => lead + "*."@,
    }
}

/// What is said of a sponsor names the sensor and the sponsor. Those that pay for the sensor sponsor
/// it, all others power it.
pub proof fn law_sponsors_are_named(sensor: SensorView, sponsor: Sponsor)
    ensures
        ({
            let lead = "The sensor \""@ + sensor.device_name + "\" is "@ + (
            if sponsor.sponsor_type is Sponsor {
                "sponsored by"@
            } else {
                "powered by"@
            }) + " *"@ + sponsor.name@ + "*"@;
            let told = sponsor_text(sensor, sponsor);
            &&& told.len() > lead.len()
            &&& told.take(lead.len() as int) == lead
            &&& match sponsor.description {
                None => told.skip(lead.len() as int) == "."@,
                Some(description) => if text::is_blank(description@) {
                    told.skip(lead.len() as int) == "."@
                } else {
                    told.skip(lead.len() as int) == ":\n\n"@ + italic_paragraphs(
                        text::trimmed(description@),
                    )
                },
            }
        }),
{
    reveal_strlit("*");
    reveal_strlit("*.");
    reveal_strlit(".");
    reveal_strlit("*:\n\n");
    reveal_strlit(":\n\n");
    let phrase = if sponsor.sponsor_type is Sponsor {
        "sponsored by"@
    } else {
        "powered by"@
    };
    let lead = "The sensor \""@ + sensor.device_name + "\" is "@ + phrase + " *"@ + sponsor.name@
        + "*"@;
    let told = sponsor_text(sensor, sponsor);
    match sponsor.description {
        None => {
            assert(told =~= lead + "."@);
            assert(told.skip(lead.len() as int) =~= "."@);
        },
        Some(description) => {
            text::law_blank_texts_are_trimmed_to_nothing(description@);
            if text::is_blank(description@) {
                assert(told =~= lead + "."@);
                assert(told.skip(lead.len() as int) =~= "."@);
            } else {
                let tail = ":\n\n"@ + italic_paragraphs(text::trimmed(description@));
                assert(told =~= lead + tail);
                assert(told.skip(lead.len() as int) =~= tail);
            }
        },
    }
    assert(told.take(lead.len() as int) =~= lead);
}

/// Format the `/sponsor <sensor>` response text.
pub fn format_sponsor_text(sensor: &Sensor, sponsor: &Sponsor) -> (out: String)
    ensures
        out@ == sponsor_text(sensor@, *sponsor),
{
    let mut out: String = "The sensor \"".to_string();
    out.append(sensor.device_name.as_str());
    out.append("\" is ");
    out.append(sponsor.sponsor_type.preposition());
    out.append(" *");
    out.append(sponsor.name.as_str());
    match &sponsor.description {
        Some(description) => {
            let description: String = trim(description.as_str());
            if description.as_str().unicode_len() > 0 {
                out.append("*:\n\n");
                out.append(italicize_paragraphs(description.as_str()).as_str());
            } else {
                out.append("*.");
            }
        },
        None => {
            out.append("*.");
        },
    }
    out
}

/// The reply to `/sponsor` for a sensor without a sponsor.
pub fn format_no_sponsor(sensor_name: &str) -> (out: String)
    ensures
        out@ == "No sponsor information available for \""@ + sensor_name@ + "\"."@,
{
    let mut out: String = "No sponsor information available for \"".to_string();
    out.append(sensor_name);
    out.append("\".");
    out
}

// ---------------------------------------------------------------------------------------------
// One sensor
// ---------------------------------------------------------------------------------------------

/// What is said where a query means no sensor.
pub open spec fn no_match_text(query: Seq<char>) -> Seq<char> {
    "No sensor found matching \""@ + query
        + "\".\n\nUse /sensors to list all available sensors."@
}

/// What is said where a query means several sensors.
pub open spec fn many_matches_text(query: Seq<char>, matches: Seq<Sensor>, hint: Seq<char>) -> Seq<
    char,
> {
    "Multiple sensors match \""@ + query + "\":\n\n"@ + api::sensor_lines(matches)
        + "\nPlease be more specific or use the sensor ID (e.g. "@ + hint + ")."@
}

/// What is said where a query does not mean one sensor repeats the query. Where it means several,
/// each of them is listed, and how to ask for one.
pub proof fn law_unclear_queries_are_told(
    query: Seq<char>,
    matches: Seq<Sensor>,
    hint: Seq<char>,
    i: int,
)
    requires
        0 <= i < matches.len(),
    ensures
        text::holds(no_match_text(query), query),
        text::holds(many_matches_text(query, matches, hint), query),
        text::holds(many_matches_text(query, matches, hint), hint),
        text::holds(
            many_matches_text(query, matches, hint),
            api::list_entry(matches[i]@) + "\n"@,
        ),
{
    let tail = "\".\n\nUse /sensors to list all available sensors."@;
    text::lemma_holds("No sensor found matching \""@, query, tail);
    let told = many_matches_text(query, matches, hint);
    let lines = api::sensor_lines(matches);
    let foot = "\nPlease be more specific or use the sensor ID (e.g. "@;
    let lead = "Multiple sensors match \""@;
    assert(told =~= lead + query + ("\":\n\n"@ + lines + foot + hint + ")."@));
    text::lemma_holds(lead, query, "\":\n\n"@ + lines + foot + hint + ")."@);
    text::lemma_holds(lead + query + "\":\n\n"@ + lines + foot, hint, ")."@);
    assert(told =~= (lead + query + "\":\n\n"@) + lines + (foot + hint + ")."@));
    text::lemma_holds(lead + query + "\":\n\n"@, lines, foot + hint + ")."@);
    lemma_listed(matches, i);
    text::law_parts_of_parts_are_held(told, lines, api::list_entry(matches[i]@) + "\n"@);
}

/// Each of some sensors has a line in their list.
proof fn lemma_listed(sensors: Seq<Sensor>, i: int)
    requires
        0 <= i < sensors.len(),
    ensures
        text::holds(api::sensor_lines(sensors), api::list_entry(sensors[i]@) + "\n"@),
{
    let (front, back, one) = (sensors.take(i), sensors.skip(i + 1), sensors[i]);
    api::law_sensors_are_listed_line_by_line(front, seq![one], one);
    api::law_sensors_are_listed_line_by_line(front + seq![one], back, one);
    assert(sensors =~= front + seq![one] + back);
    text::lemma_holds(
        api::sensor_lines(front),
        api::list_entry(one@) + "\n"@,
        api::sensor_lines(back),
    );
}

/// Resolve a query to a single sensor, or produce a user-facing message describing why
/// disambiguation is needed.
///
/// The `command_hint` is put into the disambiguation footer (e.g. `"/temp 1"` or `"/stats 1"`).
pub fn resolve_single_sensor(query: &str, matches: Vec<Sensor>, command_hint: &str) -> (resolved:
    Result<Sensor, String>)
    ensures
        match resolved {
            Ok(sensor) => matches@.len() == 1 && sensor == matches@[0],
            Err(message) => {
                ||| matches@.len() == 0 && message@ == no_match_text(query@)
                ||| matches@.len() > 1 && message@ == many_matches_text(
                    query@,
                    matches@,
                    command_hint@,
                )
            },
        },
{
    if matches.len() == 0 {
        let mut message: String = "No sensor found matching \"".to_string();
        message.append(query);
        message.append("\".\n\nUse /sensors to list all available sensors.");
        return Err(message);
    }
    if matches.len() == 1 {
        let mut matches: Vec<Sensor> = matches;
        return Ok(matches.remove(0));
    }
    let mut message: String = "Multiple sensors match \"".to_string();
    message.append(query);
    message.append("\":\n\n");
    push_sensor_lines(&mut message, &matches);
    message.append("\nPlease be more specific or use the sensor ID (e.g. ");
    message.append(command_hint);
    message.append(").");
    Err(message)
}

// ---------------------------------------------------------------------------------------------
// Alerts
// ---------------------------------------------------------------------------------------------

/// Said of a new alert.
pub open spec fn alert_added_text(sensor_name: Seq<char>, threshold: Binary64) -> Seq<char> {
    "🔔 Alert set for *"@ + sensor_name
        + "*. I'll message you once the average afternoon water temperature reaches *"@
        + numerals::one_decimal(threshold)
        + "°C* two days in a row.\n\nSee your alerts with /alerts, or remove this one with /unalert "@
        + sensor_name
        + ".\n\n_To do this I store your Threema ID; removing the alert deletes it again._"@
}

/// Confirmation shown after a new alert is created.
pub fn format_alert_added(sensor_name: &str, threshold: Binary64) -> (out: String)
    ensures
        out@ == alert_added_text(sensor_name@, threshold),
{
    let mut out: String = "🔔 Alert set for *".to_string();
    out.append(sensor_name);
    out.append("*. I'll message you once the average afternoon water temperature reaches *");
    push_one_decimal(&mut out, threshold);
    out.append(
        "°C* two days in a row.\n\nSee your alerts with /alerts, or remove this one with /unalert ",
    );
    out.append(sensor_name);
    out.append(".\n\n_To do this I store your Threema ID; removing the alert deletes it again._");
    out
}

/// Said of an alert with a new threshold.
pub open spec fn alert_updated_text(sensor_name: Seq<char>, threshold: Binary64) -> Seq<char> {
    "🔔 Updated your alert for *"@ + sensor_name + "* to *"@ + numerals::one_decimal(threshold)
        + "°C*. I'll message you once the afternoon water temperature reaches it two days in a row."@
}

/// Reply shown when an existing alert's threshold is changed.
pub fn format_alert_updated(sensor_name: &str, threshold: Binary64) -> (out: String)
    ensures
        out@ == alert_updated_text(sensor_name@, threshold),
{
    let mut out: String = "🔔 Updated your alert for *".to_string();
    out.append(sensor_name);
    out.append("* to *");
    push_one_decimal(&mut out, threshold);
    out.append(
        "°C*. I'll message you once the afternoon water temperature reaches it two days in a row.",
    );
    out
}

/// Said of an alert that is there already.
pub open spec fn alert_unchanged_text(sensor_name: Seq<char>, threshold: Binary64) -> Seq<char> {
    "You already have an alert for *"@ + sensor_name + "* at "@ + numerals::one_decimal(threshold)
        + "°C. Send a different temperature to change it, or /unalert "@ + sensor_name
        + " to remove it."@
}

/// Reply shown when the user re-sends an alert they already have at the same threshold.
pub fn format_alert_unchanged(sensor_name: &str, threshold: Binary64) -> (out: String)
    ensures
        out@ == alert_unchanged_text(sensor_name@, threshold),
{
    let mut out: String = "You already have an alert for *".to_string();
    out.append(sensor_name);
    out.append("* at ");
    push_one_decimal(&mut out, threshold);
    out.append("°C. Send a different temperature to change it, or /unalert ");
    out.append(sensor_name);
    out.append(" to remove it.");
    out
}

/// Said where a user has as many alerts as one may have.
pub open spec fn alert_limit_text() -> Seq<char> {
    "You already have the maximum of "@ + numerals::decimal(MAX_ALERTS_PER_USER as nat)
        + " alerts. Remove one with /unalert <sensor> before adding another."@
}

/// What is said of an alert names its sensor and its threshold. The limit that is told is ten.
pub proof fn law_alert_replies_name_sensor_and_threshold(name: Seq<char>, threshold: Binary64)
    ensures
        text::holds(alert_added_text(name, threshold), "*"@ + name + "*"@),
        text::holds(alert_added_text(name, threshold), numerals::one_decimal(threshold) + "°C"@),
        text::holds(alert_updated_text(name, threshold), "*"@ + name + "*"@),
        text::holds(alert_updated_text(name, threshold), numerals::one_decimal(threshold) + "°C"@),
        text::holds(alert_unchanged_text(name, threshold), "*"@ + name + "*"@),
        text::holds(
            alert_unchanged_text(name, threshold),
            numerals::one_decimal(threshold) + "°C"@,
        ),
        text::holds(alert_limit_text(), " 10 alerts"@),
{
    lemma_alert_added(name, threshold);
    lemma_alert_updated(name, threshold);
    lemma_alert_unchanged(name, threshold);
    reveal_strlit("You already have the maximum of ");
    reveal_strlit(" alerts. Remove one with /unalert <sensor> before adding another.");
    reveal_strlit(" 10 alerts");
    let front = "You already have the maximum of"@;
    let back = ". Remove one with /unalert <sensor> before adding another."@;
    reveal_strlit("You already have the maximum of");
    reveal_strlit(". Remove one with /unalert <sensor> before adding another.");
    assert(numerals::decimal(1) =~= seq!['1']);
    assert(numerals::decimal(10) =~= seq!['1', '0']);
    assert(alert_limit_text() =~= front + " 10 alerts"@ + back);
    text::lemma_holds(front, " 10 alerts"@, back);
}

proof fn lemma_alert_added(name: Seq<char>, threshold: Binary64)
    ensures
        text::holds(alert_added_text(name, threshold), "*"@ + name + "*"@),
        text::holds(alert_added_text(name, threshold), numerals::one_decimal(threshold) + "°C"@),
{
    let told = alert_added_text(name, threshold);
    let number = numerals::one_decimal(threshold);
    reveal_strlit("🔔 Alert set for *");
    reveal_strlit("🔔 Alert set for ");
    reveal_strlit("*");
    reveal_strlit("°C");
    reveal_strlit("*. I'll message you once the average afternoon water temperature reaches *");
    reveal_strlit(". I'll message you once the average afternoon water temperature reaches *");
    reveal_strlit(
        "°C* two days in a row.\n\nSee your alerts with /alerts, or remove this one with /unalert ",
    );
    reveal_strlit(
        "* two days in a row.\n\nSee your alerts with /alerts, or remove this one with /unalert ",
    );
    let a = "🔔 Alert set for "@;
    let b = ". I'll message you once the average afternoon water temperature reaches *"@;
    let c =
        "* two days in a row.\n\nSee your alerts with /alerts, or remove this one with /unalert "@;
    let d = ".\n\n_To do this I store your Threema ID; removing the alert deletes it again._"@;
    assert("🔔 Alert set for *"@ =~= a + "*"@);
    assert("*. I'll message you once the average afternoon water temperature reaches *"@ =~= "*"@ + b);
    assert(
        "°C* two days in a row.\n\nSee your alerts with /alerts, or remove this one with /unalert "@
        =~= "°C"@ + c);
    let part = "*"@ + name + "*"@;
    assert(told =~= a + part + (b + number + "°C"@ + c + name + d));
    text::lemma_holds(a, part, b + number + "°C"@ + c + name + d);
    assert(told =~= (a + part + b) + (number + "°C"@) + (c + name + d));
    text::lemma_holds(a + part + b, number + "°C"@, c + name + d);
}

proof fn lemma_alert_updated(name: Seq<char>, threshold: Binary64)
    ensures
        text::holds(alert_updated_text(name, threshold), "*"@ + name + "*"@),
        text::holds(alert_updated_text(name, threshold), numerals::one_decimal(threshold) + "°C"@),
{
    let told = alert_updated_text(name, threshold);
    let number = numerals::one_decimal(threshold);
    reveal_strlit("🔔 Updated your alert for *");
    reveal_strlit("🔔 Updated your alert for ");
    reveal_strlit("*");
    reveal_strlit("°C");
    reveal_strlit("* to *");
    reveal_strlit(" to *");
    reveal_strlit(
        "°C*. I'll message you once the afternoon water temperature reaches it two days in a row.",
    );
    reveal_strlit(
        "*. I'll message you once the afternoon water temperature reaches it two days in a row.",
    );
    let a = "🔔 Updated your alert for "@;
    let c =
        "*. I'll message you once the afternoon water temperature reaches it two days in a row."@;
    assert("🔔 Updated your alert for *"@ =~= a + "*"@);
    assert("* to *"@ =~= "*"@ + " to *"@);
    assert(
        "°C*. I'll message you once the afternoon water temperature reaches it two days in a row."@
        =~= "°C"@ + c);
    let part = "*"@ + name + "*"@;
    assert(told =~= a + part + (" to *"@ + number + "°C"@ + c));
    text::lemma_holds(a, part, " to *"@ + number + "°C"@ + c);
    assert(told =~= (a + part + " to *"@) + (number + "°C"@) + c);
    text::lemma_holds(a + part + " to *"@, number + "°C"@, c);
}

proof fn lemma_alert_unchanged(name: Seq<char>, threshold: Binary64)
    ensures
        text::holds(alert_unchanged_text(name, threshold), "*"@ + name + "*"@),
        text::holds(
            alert_unchanged_text(name, threshold),
            numerals::one_decimal(threshold) + "°C"@,
        ),
{
    let told = alert_unchanged_text(name, threshold);
    let number = numerals::one_decimal(threshold);
    reveal_strlit("You already have an alert for *");
    reveal_strlit("You already have an alert for ");
    reveal_strlit("*");
    reveal_strlit("°C");
    reveal_strlit("* at ");
    reveal_strlit(" at ");
    reveal_strlit("°C. Send a different temperature to change it, or /unalert ");
    reveal_strlit(". Send a different temperature to change it, or /unalert ");
    let a = "You already have an alert for "@;
    let c = ". Send a different temperature to change it, or /unalert "@;
    let d = " to remove it."@;
    assert("You already have an alert for *"@ =~= a + "*"@);
    assert("* at "@ =~= "*"@ + " at "@);
    assert("°C. Send a different temperature to change it, or /unalert "@ =~= "°C"@ + c);
    let part = "*"@ + name + "*"@;
    assert(told =~= a + part + (" at "@ + number + "°C"@ + c + name + d));
    text::lemma_holds(a, part, " at "@ + number + "°C"@ + c + name + d);
    assert(told =~= (a + part + " at "@) + (number + "°C"@) + (c + name + d));
    text::lemma_holds(a + part + " at "@, number + "°C"@, c + name + d);
}

/// Reply shown when the per-user alert cap is reached.
pub fn format_alert_limit_reached() -> (out: String)
    ensures
        out@ == alert_limit_text(),
{
    let mut out: String = "You already have the maximum of ".to_string();
    push_number(&mut out, MAX_ALERTS_PER_USER as u64);
    out.append(" alerts. Remove one with /unalert <sensor> before adding another.");
    out
}

/// Confirmation shown after an alert is removed.
pub fn format_alert_removed(sensor_name: &str) -> (out: String)
    ensures
        out@ == "🔕 Removed your alert for *"@ + sensor_name@ + "*."@,
{
    let mut out: String = "🔕 Removed your alert for *".to_string();
    out.append(sensor_name);
    out.append("*.");
    out
}

/// Reply shown when removing an alert the user doesn't have.
pub fn format_no_alert_for(sensor_name: &str) -> (out: String)
    ensures
        out@ == "You don't have an alert for *"@ + sensor_name@ + "*."@,
{
    let mut out: String = "You don't have an alert for *".to_string();
    out.append(sensor_name);
    out.append("*.");
    out
}

/// Said after all alerts of a user were removed.
pub open spec fn alerts_cleared_text(count: nat) -> Seq<char> {
    if count == 0 {
        "You have no alerts to remove."@
    } else if count == 1 {
        "🔕 Removed your alert."@
    } else {
        "🔕 Removed all "@ + numerals::decimal(count) + " of your alerts."@
    }
}

/// How many alerts were removed is told, where there were several.
pub proof fn law_cleared_alerts_are_counted(count: nat)
    ensures
        count == 0 ==> alerts_cleared_text(count) == "You have no alerts to remove."@,
        count == 1 ==> alerts_cleared_text(count) == "🔕 Removed your alert."@,
        count >= 2 ==> text::holds(alerts_cleared_text(count), numerals::decimal(count)),
{
    text::lemma_holds("🔕 Removed all "@, numerals::decimal(count), " of your alerts."@);
}

/// Reply shown after `/unalert all`.
pub fn format_alerts_cleared(count: u32) -> (out: String)
    ensures
        out@ == alerts_cleared_text(count as nat),
{
    match count {
        0 => "You have no alerts to remove.".to_string(),
        1 => "🔕 Removed your alert.".to_string(),
        n => {
            let mut out: String = "🔕 Removed all ".to_string();
            push_number(&mut out, n as u64);
            out.append(" of your alerts.");
            out
        },
    }
}

/// One row of the `/alerts` listing.
#[derive(Debug)]
pub struct AlertEntry {
    /// Name of the sensor.
    pub sensor_name: String,
    /// Temperature threshold in °C.
    pub threshold: Binary64,
    /// Alert lifecycle state.
    pub status: AlertStatus,
}

/// What a row of the `/alerts` listing holds.
pub struct AlertEntryView {
    pub sensor_name: Seq<char>,
    pub threshold: Binary64,
    pub status: AlertStatus,
}

impl View for AlertEntry {
    type V = AlertEntryView;

    open spec fn view(&self) -> AlertEntryView {
        AlertEntryView {
            sensor_name: self.sensor_name@,
            threshold: self.threshold,
            status: self.status,
        }
    }
}

/// An alert as a line in a list.
pub open spec fn alert_line(entry: AlertEntryView) -> Seq<char> {
    "- *"@ + entry.sensor_name + "* at "@ + numerals::one_decimal(entry.threshold) + "°C (_"@ + (
    match entry.status {
        AlertStatus::Watching => "watching"@,
        AlertStatus::Notified => "already notified"@,
    }) + "_)\n"@
}

/// Alerts below one another.
pub open spec fn alert_lines(entries: Seq<AlertEntryView>) -> Seq<char>
    decreases entries.len(),
{
    if entries.len() == 0 {
        Seq::empty()
    } else {
        alert_lines(entries.drop_last()) + alert_line(entries.last())
    }
}

/// The list of a user's alerts.
pub open spec fn alerts_list_text(entries: Seq<AlertEntryView>) -> Seq<char> {
    if entries.len() == 0 {
        "You have no alerts yet.\n\nSet one with /alert <sensor> <temperature>, e.g. /alert Aare 20."@
    } else {
        text::trimmed_end("Your alerts:\n\n"@ + alert_lines(entries))
    }
}

/// Alerts are listed line by line: each has its own line, in order.
pub proof fn law_alerts_are_listed_line_by_line(
    front: Seq<AlertEntryView>,
    back: Seq<AlertEntryView>,
    one: AlertEntryView,
)
    ensures
        alert_lines(front + back) == alert_lines(front) + alert_lines(back),
        alert_lines(seq![one]) == alert_line(one),
    decreases back.len(),
{
    assert(seq![one].drop_last() =~= Seq::<AlertEntryView>::empty());
    assert(alert_lines(seq![one].drop_last()) =~= Seq::<char>::empty());
    assert(alert_lines(seq![one]) =~= alert_line(one));
    if back.len() == 0 {
        assert(front + back =~= front);
        assert(alert_lines(front) + alert_lines(back) =~= alert_lines(front));
    } else {
        law_alerts_are_listed_line_by_line(front, back.drop_last(), one);
        assert((front + back).drop_last() =~= front + back.drop_last());
        let line = alert_line(back.last());
        assert(alert_lines(front) + alert_lines(back.drop_last()) + line =~= alert_lines(front) + (
        alert_lines(back.drop_last()) + line));
    }
}

/// The line of an alert tells the sensor, the threshold and whether the user was notified already.
pub proof fn law_alert_lines_tell_sensor_threshold_and_status(entry: AlertEntryView)
    ensures
        text::holds(alert_line(entry), entry.sensor_name),
        text::holds(alert_line(entry), numerals::one_decimal(entry.threshold) + "°C"@),
        entry.status is Watching ==> text::holds(alert_line(entry), "(_watching_)"@),
        entry.status is Notified ==> text::holds(alert_line(entry), "(_already notified_)"@),
{
    let line = alert_line(entry);
    let name = entry.sensor_name;
    let number = numerals::one_decimal(entry.threshold);
    reveal_strlit("°C (_");
    reveal_strlit("°C");
    reveal_strlit("°C ");
    reveal_strlit(" (_");
    reveal_strlit("_)\n");
    reveal_strlit("\n");
    reveal_strlit("watching");
    reveal_strlit("already notified");
    reveal_strlit("(_watching_)");
    reveal_strlit("(_already notified_)");
    let status = match entry.status {
        AlertStatus::Watching => "watching"@,
        AlertStatus::Notified => "already notified"@,
    };
    let end = status + "_)\n"@;
    assert("°C (_"@ =~= "°C"@ + " (_"@);
    assert(line =~= "- *"@ + name + ("* at "@ + number + "°C (_"@ + end));
    text::lemma_holds("- *"@, name, "* at "@ + number + "°C (_"@ + end);
    assert(line =~= ("- *"@ + name + "* at "@) + (number + "°C"@) + (" (_"@ + end));
    text::lemma_holds("- *"@ + name + "* at "@, number + "°C"@, " (_"@ + end);
    let lead = "- *"@ + name + "* at "@ + number + "°C "@;
    match entry.status {
        AlertStatus::Watching => {
            assert(line =~= lead + "(_watching_)"@ + "\n"@);
            text::lemma_holds(lead, "(_watching_)"@, "\n"@);
        },
        AlertStatus::Notified => {
            assert(line =~= lead + "(_already notified_)"@ + "\n"@);
            text::lemma_holds(lead, "(_already notified_)"@, "\n"@);
        },
    }
}

/// The list of alerts holds a line for each, in order, and nothing else but its head.
pub proof fn law_alert_list_is_complete(entries: Seq<AlertEntryView>)
    requires
        entries.len() > 0,
    ensures
        alerts_list_text(entries) + "\n"@ == "Your alerts:\n\n"@ + alert_lines(entries),
{
    reveal_strlit("_)\n");
    reveal_strlit("\n");
    let header = "Your alerts:\n\n"@;
    let line = alert_line(entries.last());
    let front = header + alert_lines(entries.drop_last()) + line.drop_last();
    assert(line.last() == '\n');
    assert(line[line.len() - 2] == ')');
    assert(front.last() == ')');
    assert(header + alert_lines(entries) =~= front + "\n"@);
    text::lemma_trimmed_end_of(front, "\n"@);
}

/// What rows of the `/alerts` listing hold.
pub open spec fn entry_views(entries: Seq<AlertEntry>) -> Seq<AlertEntryView> {
    entries.map_values(|entry: AlertEntry| entry@)
}

/// Append an alert as a line.
fn push_alert_line(out: &mut String, entry: &AlertEntry)
    ensures
        final(out)@ == old(out)@ + alert_line(entry@),
{
    let ghost start = out@;
    let state: &'static str = match entry.status {
        AlertStatus::Watching => "watching",
        AlertStatus::Notified => "already notified",
    };
    out.append("- *");
    out.append(entry.sensor_name.as_str());
    out.append("* at ");
    push_one_decimal(out, entry.threshold);
    out.append("°C (_");
    out.append(state);
    out.append("_)\n");
    proof {
        assert(out@ =~= start + alert_line(entry@));
    }
}

/// Render the `/alerts` listing.
pub fn format_alerts_list(entries: &[AlertEntry]) -> (out: String)
    ensures
        out@ == alerts_list_text(entry_views(entries@)),
{
    if entries.len() == 0 {
        return "You have no alerts yet.\n\nSet one with /alert <sensor> <temperature>, e.g. /alert Aare 20.".to_string();
    }
    let mut out: String = "Your alerts:\n\n".to_string();
    let ghost start = out@;
    let ghost views = entry_views(entries@);
    let mut i: usize = 0;
    assert(start + alert_lines(views.take(0)) =~= start);
    while i < entries.len()
        invariant
            i <= entries@.len(),
            views == entry_views(entries@),
            out@ == start + alert_lines(views.take(i as int)),
        decreases entries@.len() - i,
    {
        proof {
            assert(views.take(i + 1).drop_last() =~= views.take(i as int));
        }
        push_alert_line(&mut out, &entries[i]);
        proof {
            let upto = alert_lines(views.take(i as int));
            assert(out@ =~= start + (upto + alert_line(views[i as int])));
        }
        i = i + 1;
    }
    assert(views.take(views.len() as int) =~= views);
    trim_end(out.as_str())
}

/// The message that goes out when an alert fires.
pub open spec fn notification_text(
    sensor_name: Seq<char>,
    swim_avg: Binary64,
    threshold: Binary64,
) -> Seq<char> {
    "🏊 *"@ + sensor_name
        + "* is warm enough for a swim! The afternoon water temperature reached *"@
        + numerals::one_decimal(swim_avg) + "°C* today, at or above your "@ + numerals::one_decimal(
        threshold,
    ) + "°C alert.\n\nCheck the latest reading anytime with: /temp "@ + sensor_name
        + "\n\nOr view detailed statistics with: /stats "@ + sensor_name
}

/// The message of an alert tells the sensor, the temperature that was reached and the threshold.
pub proof fn law_notifications_tell_sensor_average_and_threshold(
    name: Seq<char>,
    swim_avg: Binary64,
    threshold: Binary64,
)
    ensures
        text::holds(notification_text(name, swim_avg, threshold), "*"@ + name + "*"@),
        text::holds(
            notification_text(name, swim_avg, threshold),
            "reached *"@ + numerals::one_decimal(swim_avg) + "°C*"@,
        ),
        text::holds(
            notification_text(name, swim_avg, threshold),
            "at or above your "@ + numerals::one_decimal(threshold) + "°C alert"@,
        ),
        text::holds(notification_text(name, swim_avg, threshold), "/temp "@ + name),
        text::holds(notification_text(name, swim_avg, threshold), "/stats "@ + name),
{
    let told = notification_text(name, swim_avg, threshold);
    let (reached, wanted) = (numerals::one_decimal(swim_avg), numerals::one_decimal(threshold));
    let a = "🏊 "@;
    let b = " is warm enough for a swim! The afternoon water temperature "@;
    let c = " today, "@;
    let d = ".\n\nCheck the latest reading anytime with: "@;
    let e = "\n\nOr view detailed statistics with: "@;
    lemma_notification_pieces();
    let (p, q, r) = (
        "*"@ + name + "*"@,
        "reached *"@ + reached + "°C*"@,
        "at or above your "@ + wanted + "°C alert"@,
    );
    let (t, s) = ("/temp "@ + name, "/stats "@ + name);
    let front = a + p + b + q + c;
    let back = r + d + t + e + s;
    lemma_left("🏊 "@, "*"@, name, b, "reached *"@, reached, "°C*"@, c, "at or above your "@);
    lemma_right(
        front,
        "at or above your "@,
        wanted,
        "°C alert"@,
        d,
        "/temp "@,
        name,
        e,
        "/stats "@,
    );
    assert(told == front + back);
    lemma_front_pieces(a, p, b, q, c, back);
    lemma_back_pieces(front, r, d, t, e, s);
}

/// The first half of the message of an alert.
proof fn lemma_left(
    a: Seq<char>,
    star: Seq<char>,
    name: Seq<char>,
    b: Seq<char>,
    lead: Seq<char>,
    number: Seq<char>,
    tail: Seq<char>,
    c: Seq<char>,
    next: Seq<char>,
)
    ensures
        (a + star) + name + (star + b + lead) + number + (tail + c + next) == (a + (star + name
            + star) + b + (lead + number + tail) + c) + next,
{
    assert((a + star) + name + (star + b + lead) =~= (a + (star + name + star) + b) + lead);
    let x = a + (star + name + star) + b;
    assert((x + lead) + number + (tail + c + next) =~= (x + (lead + number + tail) + c) + next);
}

/// The second half of the message of an alert.
proof fn lemma_right(
    front: Seq<char>,
    lead: Seq<char>,
    number: Seq<char>,
    tail: Seq<char>,
    d: Seq<char>,
    temp: Seq<char>,
    name: Seq<char>,
    e: Seq<char>,
    stats: Seq<char>,
)
    ensures
        (front + lead) + number + (tail + d + temp) + name + (e + stats) + name == front + ((lead
            + number + tail) + d + (temp + name) + e + (stats + name)),
{
    let r = lead + number + tail;
    assert((front + lead) + number + (tail + d + temp) =~= front + (r + d) + temp);
    assert((front + (r + d) + temp) + name + (e + stats) + name =~= front + ((r + d) + (temp + name)
        + e + (stats + name)));
}

proof fn lemma_front_pieces(
    a: Seq<char>,
    p: Seq<char>,
    b: Seq<char>,
    q: Seq<char>,
    c: Seq<char>,
    back: Seq<char>,
)
    ensures
        text::holds((a + p + b + q + c) + back, p),
        text::holds((a + p + b + q + c) + back, q),
{
    let told = (a + p + b + q + c) + back;
    assert(told =~= a + p + (b + q + c + back));
    text::lemma_holds(a, p, b + q + c + back);
    assert(told =~= (a + p + b) + q + (c + back));
    text::lemma_holds(a + p + b, q, c + back);
}

proof fn lemma_back_pieces(
    front: Seq<char>,
    r: Seq<char>,
    d: Seq<char>,
    t: Seq<char>,
    e: Seq<char>,
    s: Seq<char>,
)
    ensures
        text::holds(front + (r + d + t + e + s), r),
        text::holds(front + (r + d + t + e + s), t),
        text::holds(front + (r + d + t + e + s), s),
{
    let told = front + (r + d + t + e + s);
    assert(told =~= front + r + (d + t + e + s));
    text::lemma_holds(front, r, d + t + e + s);
    assert(told =~= (front + r + d) + t + (e + s));
    text::lemma_holds(front + r + d, t, e + s);
    assert(told =~= (front + r + d + t + e) + s + Seq::<char>::empty());
    text::lemma_holds(front + r + d + t + e, s, Seq::empty());
}

/// What the message of an alert is put together from.
proof fn lemma_notification_pieces()
    ensures
        "🏊 *"@ == "🏊 "@ + "*"@,
        "* is warm enough for a swim! The afternoon water temperature reached *"@ == "*"@
            + " is warm enough for a swim! The afternoon water temperature "@ + "reached *"@,
        "°C* today, at or above your "@ == "°C*"@ + " today, "@ + "at or above your "@,
        "°C alert.\n\nCheck the latest reading anytime with: /temp "@ == "°C alert"@
            + ".\n\nCheck the latest reading anytime with: "@ + "/temp "@,
        "\n\nOr view detailed statistics with: /stats "@
            == "\n\nOr view detailed statistics with: "@ + "/stats "@,
{
    reveal_strlit("🏊 *");
    reveal_strlit("🏊 ");
    reveal_strlit("*");
    assert("🏊 *"@ =~= "🏊 "@ + "*"@);
    reveal_strlit("* is warm enough for a swim! The afternoon water temperature reached *");
    reveal_strlit(" is warm enough for a swim! The afternoon water temperature ");
    reveal_strlit("reached *");
    assert("* is warm enough for a swim! The afternoon water temperature reached *"@ =~= "*"@
        + " is warm enough for a swim! The afternoon water temperature "@ + "reached *"@);
    reveal_strlit("°C* today, at or above your ");
    reveal_strlit("°C*");
    reveal_strlit(" today, ");
    reveal_strlit("at or above your ");
    assert("°C* today, at or above your "@ =~= "°C*"@ + " today, "@ + "at or above your "@);
    reveal_strlit("°C alert.\n\nCheck the latest reading anytime with: /temp ");
    reveal_strlit("°C alert");
    reveal_strlit(".\n\nCheck the latest reading anytime with: ");
    reveal_strlit("/temp ");
    assert("°C alert.\n\nCheck the latest reading anytime with: /temp "@ =~= "°C alert"@
        + ".\n\nCheck the latest reading anytime with: "@ + "/temp "@);
    reveal_strlit("\n\nOr view detailed statistics with: /stats ");
    reveal_strlit("\n\nOr view detailed statistics with: ");
    reveal_strlit("/stats ");
    assert("\n\nOr view detailed statistics with: /stats "@
        =~= "\n\nOr view detailed statistics with: "@ + "/stats "@);
}

/// The notification message sent when an alert fires.
pub fn format_notification(sensor_name: &str, swim_avg: Binary64, threshold: Binary64) -> (out:
    String)
    ensures
        out@ == notification_text(sensor_name@, swim_avg, threshold),
{
    let mut out: String = "🏊 *".to_string();
    out.append(sensor_name);
    out.append("* is warm enough for a swim! The afternoon water temperature reached *");
    push_one_decimal(&mut out, swim_avg);
    out.append("°C* today, at or above your ");
    push_one_decimal(&mut out, threshold);
    out.append("°C alert.\n\nCheck the latest reading anytime with: /temp ");
    out.append(sensor_name);
    out.append("\n\nOr view detailed statistics with: /stats ");
    out.append(sensor_name);
    out
}

// ---------------------------------------------------------------------------------------------
// About
// ---------------------------------------------------------------------------------------------

/// The links to some users.
pub open spec fn contact_links(ids: Seq<Identity>) -> Seq<Seq<char>> {
    ids.map_values(|id: Identity| "https://threema.id/"@ + id.text@)
}

/// The reply to `/about`.
pub open spec fn about_text(maintainers: Seq<Identity>) -> Seq<char> {
    if maintainers.len() == 0 {
        ABOUT@
    } else {
        ABOUT@
            + "\n\nIf you have any question about this bot, please feel free to contact "@
            + text::joined(contact_links(maintainers), " or "@)
    }
}

/// The reply to `/about` begins with what the project is. All maintainers are linked behind it, in
/// order, and nothing is where there are none.
pub proof fn law_all_maintainers_are_linked(maintainers: Seq<Identity>)
    ensures
        maintainers.len() == 0 ==> about_text(maintainers) == ABOUT@,
        forall|i: int|
            0 <= i < maintainers.len() ==> text::holds(
                about_text(maintainers),
                "https://threema.id/"@ + (#[trigger] maintainers[i]).text@,
            ),
        maintainers.len() > 0 ==> about_text(maintainers).len() >= ABOUT@.len() && about_text(
            maintainers,
        ).take(ABOUT@.len() as int) == ABOUT@,
{
    if maintainers.len() > 0 {
        let lead = ABOUT@
            + "\n\nIf you have any question about this bot, please feel free to contact "@;
        let links = contact_links(maintainers);
        let all = text::joined(links, " or "@);
        assert(about_text(maintainers).take(ABOUT@.len() as int) =~= ABOUT@);
        assert forall|i: int| 0 <= i < maintainers.len() implies text::holds(
            about_text(maintainers),
            "https://threema.id/"@ + (#[trigger] maintainers[i]).text@,
        ) by {
            let link = "https://threema.id/"@ + maintainers[i].text@;
            assert(links[i] == link);
            text::lemma_joined_holds(links, " or "@, i);
            assert(about_text(maintainers) =~= lead + all + Seq::<char>::empty());
            text::lemma_holds(lead, all, Seq::empty());
            text::law_parts_of_parts_are_held(about_text(maintainers), all, link);
        }
    }
}

/// Build the text shown in response to `/about`.
///
/// Appends a maintainer contact section if `maintainer_ids` is non-empty; multiple IDs are joined
/// with ` or `.
pub fn format_about_text(maintainer_ids: &Vec<Identity>) -> (out: String)
    ensures
        out@ == about_text(maintainer_ids@),
{
    let mut out: String = ABOUT.to_string();
    if maintainer_ids.len() == 0 {
        return out;
    }
    let mut links: Vec<String> = Vec::new();
    let mut i: usize = 0;
    while i < maintainer_ids.len()
        invariant
            i <= maintainer_ids@.len(),
            links@.len() == i,
            forall|j: int| 0 <= j < i ==> (#[trigger] links@[j])@ == contact_links(maintainer_ids@)[j],
        decreases maintainer_ids@.len() - i,
    {
        let mut link: String = "https://threema.id/".to_string();
        link.append(maintainer_ids[i].text.as_str());
        links.push(link);
        i = i + 1;
    }
    proof {
        assert(text::views(links@) =~= contact_links(maintainer_ids@));
    }
    out.append("\n\nIf you have any question about this bot, please feel free to contact ");
    out.append(join(&links, " or ").as_str());
    out
}

} // verus!
