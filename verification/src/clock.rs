//! Rate-limit segments, with the reset time read in the local time zone.
use vstd::prelude::*;
use chrono::{Datelike, Local, TimeZone};
use crate::style::{bar, bar_from_cells, pad2, painted, push_painted, MUTED};
use crate::text::{dec_int, push_char, push_dec_signed};

verus! {

/// A wall-clock time `HH:MM`: hour below 24, minute below 60, each two digits.
pub open spec fn is_clock(s: Seq<char>) -> bool {
    exists|h: nat, m: nat| h < 24 && m < 60 && s == #[trigger] clock_text(h, m)
}

/// `HH:MM` of the hour `h` and minute `m`.
pub open spec fn clock_text(h: nat, m: nat) -> Seq<char> {
    pad2(h) + seq![':'] + pad2(m)
}

/// `HH:MM` of the local time `secs + off` seconds after the Unix epoch: the
/// seconds of its day, wrapped into one day, read as hour and minute.
pub open spec fn clock_at(secs: int, off: int) -> Seq<char> {
    clock_text((((secs + off) % 86400) / 3600) as nat, ((((secs + off) % 86400) / 60) % 60) as nat)
}

/// The day number from the common era of the date at `secs + off` seconds
/// after the Unix epoch, which is day 719163.
pub open spec fn day_at(secs: int, off: int) -> int {
    (secs + off) / 86400 + 719163
}

/// `c` is the wall-clock time of the instant `secs` under some time-zone
/// offset of less than a day.
pub open spec fn is_local_clock(c: Seq<char>, secs: int) -> bool {
    exists|off: int| -86400 < off < 86400 && c == #[trigger] clock_at(secs, off)
}

/// `d` is the day number of the instant `secs` under some time-zone offset
/// of less than a day.
pub open spec fn is_local_day(d: int, secs: int) -> bool {
    exists|off: int| -86400 < off < 86400 && d == #[trigger] day_at(secs, off)
}

/// `d` is the day number of a present-day local date: that of some instant
/// at or after the Unix epoch, under a time-zone offset of less than a day.
pub open spec fn is_current_day(d: int) -> bool {
    exists|now: int, off: int| 0 <= now && -86400 < off < 86400 && d == #[trigger] day_at(now, off)
}

/// An instant whose UTC date lies at least two whole days inside chrono's
/// date range (1 January -262143 to 31 December 262142, day numbers
/// -95746129 to 95745399 from the common era, the Unix epoch being day
/// 719163), so that a time-zone offset, always under a day, keeps its local
/// date in range too.
pub open spec fn placeable(secs: i64) -> bool {
    -8_334_601_056_000 <= secs <= 8_210_266_703_999
}

/// The local wall-clock time `HH:MM` of the instant `secs` seconds after the
/// Unix epoch: `Local.timestamp_opt(secs, 0).single()`, formatted with
/// `"%H:%M"`. chrono's `timestamp_opt` gives a single local time for every
/// instant `DateTime::from_timestamp` accepts (a day number within `i32`
/// and a date between the years -262143 and 262142), which includes every
/// placeable instant; `format` uses the local time with overflow allowed, so
/// it does not panic. chrono documents `%H` as the hour 00-23 and `%M` as the
/// minute 00-59, both zero-padded. The local time is the UTC time plus the
/// zone's offset, which chrono's `FixedOffset` keeps strictly within a day,
/// wrapped into one day; which offset the machine's time zone gives is not
/// stated. chrono panics when the
/// machine's time-zone data gives no offset for the instant; that rests on
/// the machine, not on `secs`, and is not ruled out here.
#[verifier::external_body]
fn local_clock(secs: i64) -> (r: Option<String>)
    ensures
        placeable(secs) ==> r is Some,
        r matches Some(c) ==> is_clock(c@) && is_local_clock(c@, secs as int),
{
    match Local.timestamp_opt(secs, 0).single() {
        Some(t) => Some(t.format("%H:%M").to_string()),
        None => None,
    }
}

/// The local calendar date of the instant `secs` seconds after the Unix
/// epoch, as its day number from the common era: the date part of
/// `t.naive_utc().checked_add_offset(*t.offset())` for
/// `t = Local.timestamp_opt(secs, 0).single()`, then
/// `Datelike::num_days_from_ce`. That sum is what `t.date_naive()` reads
/// (through `naive_local`), except that `naive_local` panics where the
/// checked sum gives `None`: when the offset pushes the date out of chrono's
/// range. A placeable instant stays more than a day inside that range, so it
/// always has a date. The date is that of the UTC time plus the zone's
/// offset, strictly within a day; which offset the machine's time zone gives
/// is not stated.
#[verifier::external_body]
fn local_day(secs: i64) -> (r: Option<i32>)
    ensures
        placeable(secs) ==> r is Some,
        r matches Some(d) ==> is_local_day(d as int, secs as int),
{
    match Local.timestamp_opt(secs, 0).single() {
        Some(t) => match t.naive_utc().checked_add_offset(*t.offset()) {
            Some(local) => Some(local.date().num_days_from_ce()),
            None => None,
        },
        None => None,
    }
}

/// Today's local date as its day number from the common era
/// (`Local::now().date_naive()`, then `Datelike::num_days_from_ce`). chrono's
/// `Utc::now` (outside wasm32 with its `wasmbind` feature) takes the system
/// time since the Unix epoch and panics, by `expect`, when the clock stands
/// before it, so the instant read is at or after the epoch; `Local::now`
/// adds the machine zone's offset, which chrono keeps strictly within a day,
/// and `date_naive` reads the date of that local time. Which day it is rests
/// on the clock and the time zone and is not stated.
#[verifier::external_body]
fn today() -> (r: i32)
    ensures
        is_current_day(r as int),
{
    Local::now().date_naive().num_days_from_ce()
}

} // verus!

verus! {

/// A rate-limit gauge: `cells` full cells of the bar, the whole percentage
/// `remaining`, and the colour both are shown in.
pub struct LimitGauge {
    pub cells: usize,
    pub remaining: i64,
    pub color: String,
}

/// The window a rate limit covers.
pub enum LimitKind {
    FiveHour,
    SevenDay,
}

/// When a limit resets: the local `HH:MM`, and for the weekly limit the
/// days until then.
pub struct ResetTime {
    pub clock: String,
    pub days: Option<i64>,
}

/// The content of an optional reset time.
pub open spec fn reset_view(r: Option<ResetTime>) -> Option<(Seq<char>, Option<int>)> {
    match r {
        Some(t) => Some(
            (
                t.clock@,
                match t.days {
                    Some(d) => Some(d as int),
                    None => None,
                },
            ),
        ),
        None => None,
    }
}

/// The muted reset note: ` HH:MM`, or ` Nd HH:MM` with the days.
pub open spec fn reset_note(reset: Option<(Seq<char>, Option<int>)>) -> Seq<char> {
    match reset {
        None => seq![],
        Some((clock, None)) => painted(seq![' '] + clock, MUTED@),
        Some((clock, Some(d))) => painted(seq![' '] + dec_int(d) + "d "@ + clock, MUTED@),
    }
}

/// `label`, the gauge's bar and remaining percentage in its colour, and the
/// reset note.
pub open spec fn limit_text(
    label: Seq<char>,
    g: LimitGauge,
    reset: Option<(Seq<char>, Option<int>)>,
) -> Seq<char> {
    label + seq![' '] + painted(
        bar(g.cells as nat) + seq![' '] + dec_int(g.remaining as int) + seq!['%'],
        g.color@,
    ) + reset_note(reset)
}

/// What a reset note can hold: none without a reset time; for a placeable
/// reset time, its local wall-clock time, with days exactly for the weekly
/// limit, and those days are the local date of the reset less a present-day
/// local date;
/// otherwise (an instant at or past the ends of chrono's range) that, or
/// nothing.
pub open spec fn reset_fits(
    reset: Option<(Seq<char>, Option<int>)>,
    resets_at: Option<i64>,
    kind: LimitKind,
) -> bool {
    match resets_at {
        None => reset is None,
        Some(t) => (placeable(t) ==> reset is Some) && match reset {
            None => true,
            Some((clock, days)) => is_clock(clock) && is_local_clock(clock, t as int) && (days
                is Some <==> kind is SevenDay) && (days matches Some(n) ==> exists|
                day: int,
                now: int,
            |
                #![trigger is_local_day(day, t as int), is_current_day(now)]
                is_local_day(day, t as int) && is_current_day(now) && n == day - now),
        },
    }
}

/// Days from the local date numbered `today` to the one numbered
/// `reset_day`: what chrono's `(reset - today).num_days()` gives, its dates
/// being day counts.
pub fn days_until(reset_day: i32, today: i32) -> (d: i64)
    ensures
        d == reset_day - today,
{
    reset_day as i64 - today as i64
}

/// The reset note's content from what the local clock gave: the wall-clock
/// time `clock` of the reset, when known; and for the weekly limit the day
/// numbers `(reset_day, today)` of the reset's date and today's, the days
/// being their difference. The weekly limit without its dates gets no note.
pub fn reset_time(clock: Option<String>, dates: Option<(i32, i32)>, kind: LimitKind) -> (r: Option<
    ResetTime,
>)
    ensures
        reset_view(r) == match (clock, kind) {
            (None, _) => None,
            (Some(c), LimitKind::FiveHour) => Some((c@, None)),
            (Some(c), LimitKind::SevenDay) => match dates {
                Some((a, b)) => Some((c@, Some(a - b))),
                None => None,
            },
        },
{
    match clock {
        None => None,
        Some(clock) => match kind {
            LimitKind::FiveHour => Some(ResetTime { clock, days: None }),
            LimitKind::SevenDay => match dates {
                Some((reset_day, today)) => Some(
                    ResetTime { clock, days: Some(days_until(reset_day, today)) },
                ),
                None => None,
            },
        },
    }
}

/// The rate-limit segment for a gauge and a known reset time.
pub fn limit_segment(label: &str, gauge: &LimitGauge, reset: &Option<ResetTime>) -> (r: String)
    ensures
        r@ == limit_text(label@, *gauge, reset_view(*reset)),
{
    let mut inner = bar_from_cells(gauge.cells);
    push_char(&mut inner, ' ');
    push_dec_signed(&mut inner, gauge.remaining);
    push_char(&mut inner, '%');
    let mut r = String::from_str(label);
    push_char(&mut r, ' ');
    push_painted(&mut r, inner.as_str(), gauge.color.as_str());
    match reset {
        Some(t) => {
            let mut note = String::new();
            push_char(&mut note, ' ');
            match t.days {
                Some(d) => {
                    push_dec_signed(&mut note, d);
                    note.append("d ");
                },
                None => {},
            }
            note.append(t.clock.as_str());
            push_painted(&mut r, note.as_str(), MUTED);
        },
        None => {},
    }
    assert(r@ =~= limit_text(label@, *gauge, reset_view(*reset)));
    r
}

/// The segment of one rate limit: `None` without a gauge; otherwise the
/// gauge, and when `resets_at` (seconds since the epoch) is known, the local
/// time it resets at, with the days from today until then for the weekly
/// limit. A weekly reset time whose local date falls outside chrono's range
/// (possible only within a day of its ends, where chrono's `date_naive`
/// panics) gets no note.
pub fn fmt_limit(
    label: &str,
    gauge: &Option<LimitGauge>,
    resets_at: Option<i64>,
    kind: LimitKind,
) -> (r: Option<String>)
    ensures
        gauge is None ==> r is None,
        *gauge matches Some(g) ==> r matches Some(s) && exists|reset: Option<(Seq<char>, Option<int>)>|
            reset_fits(reset, resets_at, kind) && s@ == #[trigger] limit_text(label@, g, reset),
{
    match gauge {
        None => None,
        Some(g) => {
            let reset: Option<ResetTime> = match resets_at {
                None => None,
                Some(secs) => {
                    let clock = local_clock(secs);
                    let dates = match (&clock, &kind) {
                        (Some(_), LimitKind::SevenDay) => match local_day(secs) {
                            Some(day) => {
                                let now = today();
                                assert(is_local_day(day as int, secs as int) && is_current_day(
                                    now as int,
                                ));
                                Some((day, now))
                            },
                            None => None,
                        },
                        _ => None,
                    };
                    assert(dates matches Some((a, b)) ==> is_local_day(a as int, secs as int)
                        && is_current_day(b as int));
                    reset_time(clock, dates, kind)
                },
            };
            let s = limit_segment(label, g, &reset);
            assert(reset_fits(reset_view(reset), resets_at, kind));
            Some(s)
        },
    }
}

} // verus!

verus! {

/// A weekly reset note counts its days from a present-day local date to the
/// reset's local date: adding them to some present-day date gives the
/// reset's date, so they never exceed the days from the Unix epoch to the
/// reset, give or take the day a time-zone offset can shift either date.
pub proof fn law_weekly_days_count_from_today(clock: Seq<char>, n: int, t: i64)
    requires
        reset_fits(Some((clock, Some(n))), Some(t), LimitKind::SevenDay),
    ensures
        exists|now: int| #[trigger] is_current_day(now) && is_local_day(n + now, t as int),
        n <= (t as int) / 86400 + 2,
{
    let (day, now) = choose|day: int, now: int|
        #![trigger is_local_day(day, t as int), is_current_day(now)]
        is_local_day(day, t as int) && is_current_day(now) && n == day - now;
    assert(is_local_day(n + now, t as int));
    let off = choose|off: int| -86400 < off < 86400 && day == #[trigger] day_at(t as int, off);
    let (s, o) = choose|s: int, o: int| 0 <= s && -86400 < o < 86400 && now == #[trigger] day_at(s, o);
    assert((s + o) / 86400 >= -1);
    assert((t as int + off) / 86400 <= (t as int) / 86400 + 1);
}

} // verus!
