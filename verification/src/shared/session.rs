//! The session record: evidence, turns and their rows.
//!
//! A session file holds one JSON value a line: a header, then one row for
//! each turn.

use vstd::prelude::*;
use crate::foreign::unix_now;
use crate::json::Json;
use crate::SESSION_FORMAT_VERSION;
#[allow(unused_imports)]
use crate::json::{empty_object, JsonView};
#[allow(unused_imports)]
use crate::text::{
    decimal, digits_value, law_numbers_round_trip, lemma_decimal_digits, lemma_views_empty,
    lemma_views_push, views,
};

verus! {

/// Whether the year of the Gregorian calendar has a 29th of February.
pub open spec fn is_leap(year: int) -> bool {
    year % 4 == 0 && (year % 100 != 0 || year % 400 == 0)
}

/// The number of days of a month.
pub open spec fn days_in_month(year: int, month: int) -> int {
    if month == 2 {
        if is_leap(year) {
            29
        } else {
            28
        }
    } else if month == 4 || month == 6 || month == 9 || month == 11 {
        30
    } else {
        31
    }
}

/// Whether the numbers are a day of the calendar.
pub open spec fn is_date(year: int, month: int, day: int) -> bool {
    1 <= month <= 12 && 1 <= day <= days_in_month(year, month)
}

/// The number of days of the year before the first of a month.
pub open spec fn days_before_month(year: int, month: int) -> int
    decreases month,
{
    if month <= 1 {
        0
    } else {
        days_before_month(year, month - 1) + days_in_month(year, month - 1)
    }
}

/// The number of leap years from year 1 to a year.
pub open spec fn leap_years_to(year: int) -> int {
    year / 4 - year / 100 + year / 400
}

/// The number of days from the first of January 1970 to a day.
pub open spec fn day_number(year: int, month: int, day: int) -> int {
    365 * (year - 1970) + leap_years_to(year - 1) - leap_years_to(1969) + days_before_month(
        year,
        month,
    ) + day - 1
}

/// The number, with zeros before it up to this many digits.
pub open spec fn padded(n: nat, digits: nat) -> Seq<char> {
    let text = decimal(n);
    if text.len() >= digits {
        text
    } else {
        Seq::new((digits - text.len()) as nat, |i: int| '0') + text
    }
}

/// Whether a day of the calendar has this number.
pub open spec fn is_date_of(year: nat, month: nat, day: nat, days: nat) -> bool {
    is_date(year as int, month as int, day as int) && day_number(
        year as int,
        month as int,
        day as int,
    ) == days
}

/// The year, month and day of the day with this number.
pub open spec fn date_of(days: nat) -> (nat, nat, nat) {
    choose|year: nat, month: nat, day: nat| is_date_of(year, month, day, days)
}

/// A time as `YYYY-MM-DDTHH:MM:SSZ`.
pub open spec fn time_text(
    year: nat,
    month: nat,
    day: nat,
    hour: nat,
    minute: nat,
    second: nat,
) -> Seq<char> {
    padded(year, 4) + seq!['-'] + padded(month, 2) + seq!['-'] + padded(day, 2) + seq!['T']
        + padded(hour, 2) + seq![':'] + padded(minute, 2) + seq![':'] + padded(second, 2)
        + seq!['Z']
}

/// The time that many seconds after the start of 1970, in UTC.
pub open spec fn timestamp(secs: nat) -> Seq<char> {
    let (year, month, day) = date_of(secs / 86_400);
    let second = secs % 86_400;
    time_text(year, month, day, second / 3600, second % 3600 / 60, second % 60)
}

/// The number of days from the first of January 1970 to the first day of a
/// year.
pub open spec fn year_start(year: int) -> int {
    365 * (year - 1970) + leap_years_to(year - 1) - leap_years_to(1969)
}

/// The number of days of a year.
pub open spec fn days_in_year(year: int) -> int {
    if is_leap(year) {
        366
    } else {
        365
    }
}

proof fn lemma_year_step(year: int)
    ensures
        year_start(year + 1) == year_start(year) + days_in_year(year),
{
}

proof fn lemma_years_ascend(a: int, b: int)
    requires
        a <= b,
    ensures
        year_start(a) <= year_start(b),
    decreases b - a,
{
    if a < b {
        lemma_year_step(b - 1);
        lemma_years_ascend(a, b - 1);
    }
}

proof fn lemma_months_ascend(year: int, a: int, b: int)
    requires
        1 <= a <= b,
    ensures
        days_before_month(year, a) <= days_before_month(year, b),
    decreases b - a,
{
    if a < b {
        lemma_months_ascend(year, a, b - 1);
    }
}

proof fn lemma_year_is_twelve_months(year: int)
    ensures
        days_before_month(year, 13) == days_in_year(year),
{
    reveal_with_fuel(days_before_month, 14);
}

proof fn lemma_day_of_year(year: int, month: int, day: int)
    requires
        is_date(year, month, day),
    ensures
        year_start(year) <= day_number(year, month, day) < year_start(year + 1),
{
    lemma_year_step(year);
    lemma_year_is_twelve_months(year);
    lemma_months_ascend(year, month + 1, 13);
    lemma_months_ascend(year, 1, month);
}

/// Later dates have larger numbers: a day of the calendar comes before
/// another exactly where its number is smaller, so that a number is that of
/// one date alone.
pub proof fn law_dates_are_in_order(y1: int, m1: int, d1: int, y2: int, m2: int, d2: int)
    requires
        is_date(y1, m1, d1),
        is_date(y2, m2, d2),
    ensures
        day_number(y1, m1, d1) < day_number(y2, m2, d2) <==> (y1 < y2 || y1 == y2 && (m1 < m2
            || m1 == m2 && d1 < d2)),
        day_number(y1, m1, d1) == day_number(y2, m2, d2) <==> (y1 == y2 && m1 == m2 && d1 == d2),
{
    lemma_day_of_year(y1, m1, d1);
    lemma_day_of_year(y2, m2, d2);
    if y1 < y2 {
        lemma_years_ascend(y1 + 1, y2);
    } else if y2 < y1 {
        lemma_years_ascend(y2 + 1, y1);
    } else if m1 < m2 {
        lemma_months_ascend(y1, m1 + 1, m2);
    } else if m2 < m1 {
        lemma_months_ascend(y1, m2 + 1, m1);
    }
}

proof fn lemma_date_of(year: nat, month: nat, day: nat, days: nat)
    requires
        is_date_of(year, month, day, days),
    ensures
        date_of(days) == (year, month, day),
{
    let (y, m, d) = date_of(days);
    assert(is_date_of(y, m, d, days));
    law_dates_are_in_order(
        y as int,
        m as int,
        d as int,
        year as int,
        month as int,
        day as int,
    );
}

/// Every number of days is that of a day of the calendar, from 1970 on.
proof fn lemma_every_day_has_a_date(days: nat)
    ensures
        is_date_of(date_of(days).0, date_of(days).1, date_of(days).2, days),
        date_of(days).0 >= 1970,
    decreases days,
{
    if days == 0 {
        assert(days_before_month(1970, 1) == 0);
        lemma_date_of(1970, 1, 1, 0);
    } else {
        lemma_every_day_has_a_date((days - 1) as nat);
        let (year, month, day) = date_of((days - 1) as nat);
        if day < days_in_month(year as int, month as int) {
            lemma_date_of(year, month, day + 1, days);
        } else if month < 12 {
            lemma_date_of(year, month + 1, 1, days);
        } else {
            lemma_year_step(year as int);
            lemma_year_is_twelve_months(year as int);
            assert(days_before_month((year + 1) as int, 1) == 0);
            lemma_date_of(year + 1, 1, 1, days);
        }
    }
}

proof fn lemma_padded_len(n: nat, digits: nat)
    requires
        digits == 2 && n < 100 || digits == 4 && n < 10_000,
    ensures
        padded(n, digits).len() == digits,
{
    reveal_with_fuel(decimal, 4);
}

/// A time before the year 10000 is written in twenty characters, with the
/// separators of `YYYY-MM-DDTHH:MM:SSZ` in their places, and its date is that
/// of a day of the calendar.
pub proof fn law_timestamps_have_one_shape(secs: nat)
    requires
        secs < 253_402_300_800,
    ensures
        timestamp(secs).len() == 20,
        timestamp(secs)[4] == '-' && timestamp(secs)[7] == '-' && timestamp(secs)[10] == 'T'
            && timestamp(secs)[13] == ':' && timestamp(secs)[16] == ':' && timestamp(secs)[19]
            == 'Z',
        is_date_of(
            date_of(secs / 86_400).0,
            date_of(secs / 86_400).1,
            date_of(secs / 86_400).2,
            secs / 86_400,
        ),
{
    let days = secs / 86_400;
    let second = secs % 86_400;
    lemma_every_day_has_a_date(days);
    let (year, month, day) = date_of(days);
    lemma_day_of_year(year as int, month as int, day as int);
    if year >= 10_000 {
        lemma_years_ascend(10_000, year as int);
    }
    lemma_padded_len(year, 4);
    lemma_padded_len(month, 2);
    lemma_padded_len(day, 2);
    lemma_padded_len(second / 3600, 2);
    lemma_padded_len(second % 3600 / 60, 2);
    lemma_padded_len(second % 60, 2);
}

/// How the days before a year after year 1 are made up of cycles of 400
/// years, centuries, cycles of four years, and years.
proof fn lemma_cycles(cycles: int, centuries: int, fours: int, years: int, before: int)
    requires
        0 <= cycles,
        0 <= centuries <= 3,
        0 <= fours <= 24,
        0 <= years <= 3,
        before == 400 * cycles + 100 * centuries + 4 * fours + years,
    ensures
        year_start(before + 1) + 719_162 == 146_097 * cycles + 36_524 * centuries + 1461 * fours
            + 365 * years,
        is_leap(before + 1) <==> years == 3 && (fours < 24 || centuries == 3),
{
    assert(before / 4 == 100 * cycles + 25 * centuries + fours);
    assert(before / 100 == 4 * cycles + centuries);
    assert(before / 400 == cycles);
    assert((before + 1) % 4 == (years + 1) % 4);
    assert((before + 1) % 100 == (4 * fours + years + 1) % 100);
    assert((before + 1) % 400 == (100 * centuries + 4 * fours + years + 1) % 400);
}

/// The year that a day lies in, and how many days of the year come before it.
fn year_of(days: u64) -> (r: (u64, u64))
    requires
        days <= 0xffff_ffff_ffff,
    ensures
        1970 <= r.0 <= 0xffff_ffff_ffff,
        r.1 < days_in_year(r.0 as int),
        days == year_start(r.0 as int) + r.1,
{
    // Counted from the first of January of year 1: cycles of 400 years,
    // centuries, cycles of four years, years. The last century of a cycle and
    // the last year of four are a day longer.
    let n: u64 = days + 719_162;
    let cycles: u64 = n / 146_097;
    let in_cycle: u64 = n % 146_097;
    let centuries: u64 = if in_cycle == 146_096 {
        3
    } else {
        in_cycle / 36_524
    };
    let in_century: u64 = in_cycle - 36_524 * centuries;
    let fours: u64 = in_century / 1461;
    let in_four: u64 = in_century % 1461;
    let years: u64 = if in_four == 1460 {
        3
    } else {
        in_four / 365
    };
    let day: u64 = in_four - 365 * years;
    let before: u64 = 400 * cycles + 100 * centuries + 4 * fours + years;
    proof {
        lemma_cycles(
            cycles as int,
            centuries as int,
            fours as int,
            years as int,
            before as int,
        );
        if before + 1 < 1970 {
            lemma_year_step(before + 1);
            lemma_years_ascend(before + 2, 1970);
        }
    }
    (before + 1, day)
}

/// The number of days of a month.
fn month_days(year: u64, month: u64) -> (r: u64)
    ensures
        r == days_in_month(year as int, month as int),
{
    if month == 2 {
        if year % 4 == 0 && (year % 100 != 0 || year % 400 == 0) {
            29
        } else {
            28
        }
    } else if month == 4 || month == 6 || month == 9 || month == 11 {
        30
    } else {
        31
    }
}

/// The year, month and day of the day with this number.
fn date(days: u64) -> (r: (u64, u64, u64))
    requires
        days <= 0xffff_ffff_ffff,
    ensures
        is_date_of(r.0 as nat, r.1 as nat, r.2 as nat, days as nat),
        date_of(days as nat) == (r.0 as nat, r.1 as nat, r.2 as nat),
{
    let (year, day_of_year) = year_of(days);
    let mut month: u64 = 1;
    let mut left: u64 = day_of_year;
    proof {
        lemma_year_is_twelve_months(year as int);
    }
    while left >= month_days(year, month)
        invariant
            1 <= month <= 12,
            days_before_month(year as int, month as int) + left == day_of_year,
            day_of_year < days_before_month(year as int, 13),
        decreases left,
    {
        left -= month_days(year, month);
        month += 1;
        assert(days_before_month(year as int, month as int) + left == day_of_year);
    }
    proof {
        lemma_date_of(year as nat, month as nat, (left + 1) as nat, days as nat);
    }
    (year, month, left + 1)
}

/// Adds a number with zeros before it up to this many digits.
fn push_padded(out: &mut String, n: u64, digits: usize)
    ensures
        final(out)@ == old(out)@ + padded(n as nat, digits as nat),
{
    let text = crate::text::decimal_text(n);
    let ghost start = out@;
    let mut have: usize = text.as_str().unicode_len();
    let ghost had = have as nat;
    while have < digits
        invariant
            had <= have,
            have <= digits || have == had,
            out@ == start + Seq::new((have - had) as nat, |i: int| '0'),
        decreases digits - have,
    {
        let ghost so_far = out@;
        out.push('0');
        have += 1;
        assert(out@ =~= start + Seq::new((have - had) as nat, |i: int| '0'));
    }
    out.append(text.as_str());
    assert(out@ =~= start + padded(n as nat, digits as nat));
}

/// A date and a time of day as `YYYY-MM-DDTHH:MM:SSZ`.
fn text_of_time(year: u64, month: u64, day: u64, hour: u64, minute: u64, second: u64) -> (r: String)
    ensures
        r@ == time_text(
            year as nat,
            month as nat,
            day as nat,
            hour as nat,
            minute as nat,
            second as nat,
        ),
{
    let mut out = String::new();
    push_padded(&mut out, year, 4);
    out.push('-');
    push_padded(&mut out, month, 2);
    out.push('-');
    push_padded(&mut out, day, 2);
    out.push('T');
    push_padded(&mut out, hour, 2);
    out.push(':');
    push_padded(&mut out, minute, 2);
    out.push(':');
    push_padded(&mut out, second, 2);
    out.push('Z');
    assert(out@ =~= time_text(
        year as nat,
        month as nat,
        day as nat,
        hour as nat,
        minute as nat,
        second as nat,
    ));
    out
}

/// Seconds after the start of 1970 as `YYYY-MM-DDTHH:MM:SSZ`.
pub fn format_timestamp(secs: u64) -> (r: String)
    ensures
        r@ == timestamp(secs as nat),
        forall|year: nat, month: nat, day: nat| #[trigger]
            is_date_of(year, month, day, secs as nat / 86_400) ==> r@ == time_text(
                year,
                month,
                day,
                secs as nat % 86_400 / 3600,
                secs as nat % 86_400 % 3600 / 60,
                secs as nat % 86_400 % 60,
            ),
{
    let (year, month, day) = date(secs / 86_400);
    let second: u64 = secs % 86_400;
    let out = text_of_time(
        year,
        month,
        day,
        second / 3600,
        second % 3600 / 60,
        second % 60,
    );
    proof {
        assert forall|year: nat, month: nat, day: nat| #[trigger]
            is_date_of(year, month, day, secs as nat / 86_400) implies date_of(
            secs as nat / 86_400,
        ) == (year, month, day) by {
            lemma_date_of(year, month, day, secs as nat / 86_400);
        }
    }
    out
}

/// The content of a page with its source and the time when it was collected.
#[derive(Debug, Clone, PartialEq, Eq)]
pub struct Evidence {
    /// The normalized URL, never the caller's input.
    pub source_url: String,
    /// The time of collection, in UTC.
    pub collected_at: String,
    /// The markdown, as the engine gave it.
    pub markdown: String,
}

/// What a piece of evidence says.
#[verifier::ext_equal]
pub struct SourceView {
    pub source_url: Seq<char>,
    pub collected_at: Seq<char>,
    pub markdown: Seq<char>,
}

impl View for Evidence {
    type V = SourceView;

    open spec fn view(&self) -> SourceView {
        SourceView {
            source_url: self.source_url@,
            collected_at: self.collected_at@,
            markdown: self.markdown@,
        }
    }
}

/// Evidence collected that many seconds after the start of 1970.
pub open spec fn collected(source_url: Seq<char>, markdown: Seq<char>, secs: nat) -> SourceView {
    SourceView { source_url, collected_at: timestamp(secs), markdown }
}

impl SourceView {
    /// The evidence as JSON.
    pub open spec fn json(self) -> JsonView {
        empty_object().with("source_url"@, JsonView::Text(self.source_url)).with(
            "collected_at"@,
            JsonView::Text(self.collected_at),
        ).with("markdown"@, JsonView::Text(self.markdown))
    }
}

/// The evidence that JSON holds: an object with the three texts. Other fields
/// are ignored.
pub open spec fn source_from(value: JsonView) -> Option<SourceView> {
    match (value.field("source_url"@), value.field("collected_at"@), value.field("markdown"@)) {
        (
            Some(JsonView::Text(source_url)),
            Some(JsonView::Text(collected_at)),
            Some(JsonView::Text(markdown)),
        ) => Some(SourceView { source_url, collected_at, markdown }),
        _ => None,
    }
}

/// Evidence that was written as JSON is read back as it was.
pub proof fn law_evidence_round_trips(evidence: SourceView)
    ensures
        source_from(evidence.json()) == Some(evidence),
{
    reveal_strlit("source_url");
    reveal_strlit("collected_at");
    reveal_strlit("markdown");
    assert("source_url"@[0] == 's');
    assert("collected_at"@[0] == 'c');
    assert("markdown"@[0] == 'm');
    reveal_with_fuel(crate::json::first_field, 4);
}

impl Evidence {
    /// Evidence that is collected now. The time is that of the clock.
    pub fn new(source_url: String, markdown: String) -> (r: Evidence)
        ensures
            r.source_url == source_url,
            r.markdown == markdown,
            exists|secs: u64| r.collected_at@ == #[trigger] timestamp(secs as nat),
    {
        Evidence::at(source_url, markdown, unix_now())
    }

    /// Evidence that is collected that many seconds after the start of 1970.
    pub fn at(source_url: String, markdown: String, secs: u64) -> (r: Evidence)
        ensures
            r.source_url == source_url,
            r.markdown == markdown,
            r.collected_at@ == timestamp(secs as nat),
    {
        Evidence { source_url, collected_at: format_timestamp(secs), markdown }
    }

    /// Reads evidence from JSON.
    pub fn from_json(value: &Json) -> (r: Option<Evidence>)
        ensures
            crate::text::opt_view(r) == source_from(value@),
    {
        match (value.get("source_url"), value.get("collected_at"), value.get("markdown")) {
            (Some(source_url), Some(collected_at), Some(markdown)) => {
                match (source_url.as_str(), collected_at.as_str(), markdown.as_str()) {
                    (Some(source_url), Some(collected_at), Some(markdown)) => Some(
                        Evidence {
                            source_url: source_url.to_owned(),
                            collected_at: collected_at.to_owned(),
                            markdown: markdown.to_owned(),
                        },
                    ),
                    _ => None,
                }
            },
            _ => None,
        }
    }

    /// The evidence as JSON.
    pub fn to_json(&self) -> (r: Json)
        ensures
            r@ == self@.json(),
    {
        Json::object().with("source_url", Json::text(self.source_url.as_str())).with(
            "collected_at",
            Json::text(self.collected_at.as_str()),
        ).with("markdown", Json::text(self.markdown.as_str()))
    }
}

/// The first line of a session file.
#[derive(Debug, PartialEq, Eq)]
pub struct SessionHeader {
    pub format_version: u32,
    pub session_id: String,
    pub goal: String,
    /// The name of the requested size.
    pub size: String,
}

/// What a header says.
#[verifier::ext_equal]
pub struct HeaderView {
    pub format_version: u32,
    pub session_id: Seq<char>,
    pub goal: Seq<char>,
    pub size: Seq<char>,
}

impl View for SessionHeader {
    type V = HeaderView;

    open spec fn view(&self) -> HeaderView {
        HeaderView {
            format_version: self.format_version,
            session_id: self.session_id@,
            goal: self.goal@,
            size: self.size@,
        }
    }
}

impl HeaderView {
    /// The header as JSON.
    pub open spec fn json(self) -> JsonView {
        empty_object().with("format_version"@, JsonView::Number(self.format_version as nat)).with(
            "session_id"@,
            JsonView::Text(self.session_id),
        ).with("goal"@, JsonView::Text(self.goal)).with("size"@, JsonView::Text(self.size))
    }
}

impl SessionHeader {
    /// A header of the current format.
    pub fn new(session_id: String, goal: String, size: String) -> (r: SessionHeader)
        ensures
            r@ == (HeaderView {
                format_version: SESSION_FORMAT_VERSION,
                session_id: session_id@,
                goal: goal@,
                size: size@,
            }),
    {
        SessionHeader { format_version: SESSION_FORMAT_VERSION, session_id, goal, size }
    }

    /// The header as JSON.
    pub fn to_json(&self) -> (r: Json)
        ensures
            r@ == self@.json(),
    {
        Json::object().with("format_version", Json::Number(self.format_version as u64)).with(
            "session_id",
            Json::text(self.session_id.as_str()),
        ).with("goal", Json::text(self.goal.as_str())).with("size", Json::text(self.size.as_str()))
    }
}

/// Token counts on a row.
#[derive(Debug, Clone, Copy, PartialEq, Eq, Structural)]
pub struct SessionUsage {
    pub prompt_tokens: u64,
    pub completion_tokens: u64,
    pub total_tokens: u64,
    pub reasoning_tokens: u64,
}

/// No tokens at all.
pub open spec fn no_tokens() -> SessionUsage {
    SessionUsage { prompt_tokens: 0, completion_tokens: 0, total_tokens: 0, reasoning_tokens: 0 }
}

impl Default for SessionUsage {
    fn default() -> (r: Self)
        ensures
            r == no_tokens(),
    {
        SessionUsage {
            prompt_tokens: 0,
            completion_tokens: 0,
            total_tokens: 0,
            reasoning_tokens: 0,
        }
    }
}

impl SessionUsage {
    /// The counts as JSON.
    pub open spec fn json(self) -> JsonView {
        empty_object().with("prompt_tokens"@, JsonView::Number(self.prompt_tokens as nat)).with(
            "completion_tokens"@,
            JsonView::Number(self.completion_tokens as nat),
        ).with("total_tokens"@, JsonView::Number(self.total_tokens as nat)).with(
            "reasoning_tokens"@,
            JsonView::Number(self.reasoning_tokens as nat),
        )
    }

    /// The counts as JSON.
    pub fn to_json(&self) -> (r: Json)
        ensures
            r@ == self.json(),
    {
        Json::object().with("prompt_tokens", Json::Number(self.prompt_tokens)).with(
            "completion_tokens",
            Json::Number(self.completion_tokens),
        ).with("total_tokens", Json::Number(self.total_tokens)).with(
            "reasoning_tokens",
            Json::Number(self.reasoning_tokens),
        )
    }
}

/// The line of one turn.
#[derive(Debug)]
pub struct TurnRow {
    pub session_id: String,
    /// From 1.
    pub turn: u32,
    /// What the turn collected.
    pub evidence: Vec<Evidence>,
    /// The synthesis, on the turn that ended in one.
    pub synthesis: Option<Json>,
    pub usage: SessionUsage,
}

/// What a row says.
#[verifier::ext_equal]
pub struct RowView {
    pub session_id: Seq<char>,
    pub turn: u32,
    pub evidence: Seq<SourceView>,
    pub synthesis: Option<JsonView>,
    pub usage: SessionUsage,
}

impl View for TurnRow {
    type V = RowView;

    open spec fn view(&self) -> RowView {
        RowView {
            session_id: self.session_id@,
            turn: self.turn,
            evidence: views(self.evidence@),
            synthesis: crate::text::opt_view(self.synthesis),
            usage: self.usage,
        }
    }
}

impl TurnRow {
    /// The row of a turn.
    pub fn new(
        session_id: String,
        turn: u32,
        evidence: Vec<Evidence>,
        synthesis: Option<Json>,
        usage: SessionUsage,
    ) -> (r: TurnRow)
        ensures
            r@ == (RowView {
                session_id: session_id@,
                turn,
                evidence: views(evidence@),
                synthesis: crate::text::opt_view(synthesis),
                usage,
            }),
    {
        TurnRow { session_id, turn, evidence, synthesis, usage }
    }
}

impl RowView {
    /// The row as JSON; a turn without a synthesis has no such field.
    pub open spec fn json(self) -> JsonView {
        let evidence = JsonView::Array(
            Seq::new(self.evidence.len(), |i: int| self.evidence[i].json()),
        );
        let head = empty_object().with("session_id"@, JsonView::Text(self.session_id)).with(
            "turn"@,
            JsonView::Number(self.turn as nat),
        ).with("evidence"@, evidence);
        match self.synthesis {
            Some(synthesis) => head.with("synthesis"@, synthesis),
            None => head,
        }.with("usage"@, self.usage.json())
    }
}

impl TurnRow {
    /// The row as JSON; a turn without a synthesis has no such field.
    pub fn into_json(self) -> (r: Json)
        ensures
            r@ == self@.json(),
    {
        broadcast use {lemma_views_push, lemma_views_empty};

        let ghost sources = views(self.evidence@);
        let ghost all = Seq::new(sources.len(), |i: int| sources[i].json());
        let mut items: Vec<Json> = Vec::new();
        let mut i: usize = 0;
        while i < self.evidence.len()
            invariant
                i <= self.evidence@.len(),
                sources == views(self.evidence@),
                all == Seq::new(sources.len(), |i: int| sources[i].json()),
                views(items@) == all.take(i as int),
            decreases self.evidence@.len() - i,
        {
            let ghost so_far = views(items@);
            items.push(self.evidence[i].to_json());
            assert(views(items@) == so_far.push(all[i as int]));
            i += 1;
            assert(views(items@) =~= all.take(i as int));
        }
        assert(views(items@) =~= all);
        let head = Json::object().with("session_id", Json::text(self.session_id.as_str())).with(
            "turn",
            Json::Number(self.turn as u64),
        ).with("evidence", Json::array(items));
        let usage = self.usage.to_json();
        match self.synthesis {
            Some(synthesis) => head.with("synthesis", synthesis).with("usage", usage),
            None => head.with("usage", usage),
        }
    }
}

/// Days are numbered one after another from the first of January 1970 on: the
/// months have the lengths of the calendar, and February has a day more every
/// fourth year, but of the full centuries only every fourth.
pub proof fn law_days_follow_each_other(year: int, month: int, day: int)
    requires
        1 <= month <= 12,
    ensures
        day_number(1970, 1, 1) == 0,
        day_number(year, month, day + 1) == day_number(year, month, day) + 1,
        ({
            let length: int = if month == 2 {
                if year % 4 == 0 && (year % 100 != 0 || year % 400 == 0) {
                    29
                } else {
                    28
                }
            } else if month == 4 || month == 6 || month == 9 || month == 11 {
                30
            } else {
                31
            };
            &&& is_date(year, month, day) <==> 1 <= day <= length
            &&& month < 12 ==> day_number(year, month + 1, 1) == day_number(year, month, 1) + length
            &&& month == 12 ==> day_number(year + 1, 1, 1) == day_number(year, 12, 1) + length
        }),
{
    assert(days_before_month(1970, 1) == 0);
    if month == 12 {
        lemma_year_step(year);
        lemma_year_is_twelve_months(year);
        assert(days_before_month(year + 1, 1) == 0);
        assert(days_before_month(year, 13) == days_before_month(year, 12) + days_in_month(
            year,
            12,
        ));
    }
}

proof fn lemma_leading_zeros(zeros: nat, text: Seq<char>)
    ensures
        digits_value(Seq::new(zeros, |i: int| '0') + text, 10) == digits_value(text, 10),
    decreases zeros + text.len(),
{
    let z = Seq::new(zeros, |i: int| '0');
    let all = z + text;
    if text.len() > 0 {
        assert(all.drop_last() =~= z + text.drop_last());
        assert(all.last() == text.last());
        lemma_leading_zeros(zeros, text.drop_last());
    } else if zeros > 0 {
        let fewer = Seq::new((zeros - 1) as nat, |i: int| '0');
        assert(all.drop_last() =~= fewer + text);
        assert(all.last() == '0');
        lemma_leading_zeros((zeros - 1) as nat, text);
    } else {
        assert(all =~= text);
    }
}

proof fn lemma_padded_value(n: nat, digits: nat)
    ensures
        digits_value(padded(n, digits), 10) == Some(n),
{
    law_numbers_round_trip(n, n);
    lemma_decimal_digits(n);
    let text = decimal(n);
    if text.len() < digits {
        lemma_leading_zeros((digits - text.len()) as nat, text);
    }
}

/// A timestamp is read back as the time that it was written for: its digits
/// are a day of the calendar and a time of that day, and the seconds from the
/// start of 1970 to that time are the seconds that were written.
pub proof fn law_timestamps_are_read_back(secs: nat)
    requires
        secs < 253_402_300_800,
    ensures
        ({
            let t = timestamp(secs);
            match (
                digits_value(t.subrange(0, 4), 10),
                digits_value(t.subrange(5, 7), 10),
                digits_value(t.subrange(8, 10), 10),
                digits_value(t.subrange(11, 13), 10),
                digits_value(t.subrange(14, 16), 10),
                digits_value(t.subrange(17, 19), 10),
            ) {
                (Some(year), Some(month), Some(day), Some(hour), Some(minute), Some(second)) => {
                    &&& is_date(year as int, month as int, day as int)
                    &&& hour < 24 && minute < 60 && second < 60
                    &&& day_number(year as int, month as int, day as int) * 86_400 + hour * 3600
                        + minute * 60 + second == secs
                },
                _ => false,
            }
        }),
{
    law_timestamps_have_one_shape(secs);
    let (year, month, day) = date_of(secs / 86_400);
    let rest = secs % 86_400;
    let hour = rest / 3600;
    let minute = rest % 3600 / 60;
    let second = rest % 60;
    let t = timestamp(secs);
    lemma_parts_of_time(secs);
    lemma_padded_value(year, 4);
    lemma_padded_value(month, 2);
    lemma_padded_value(day, 2);
    lemma_padded_value(hour, 2);
    lemma_padded_value(minute, 2);
    lemma_padded_value(second, 2);
}

/// The field names of a session row are told apart.
proof fn lemma_session_names()
    ensures
        "format_version"@.len() == 14,
        "session_id"@.len() == 10,
        "goal"@.len() == 4 && "size"@.len() == 4 && "goal"@[0] == 'g' && "size"@[0] == 's',
        "turn"@.len() == 4,
        "evidence"@.len() == 8,
        "synthesis"@.len() == 9,
        "usage"@.len() == 5,
        "prompt_tokens"@.len() == 13,
        "completion_tokens"@.len() == 17,
        "total_tokens"@.len() == 12,
        "reasoning_tokens"@.len() == 16,
{
    reveal_strlit("format_version");
    reveal_strlit("session_id");
    reveal_strlit("goal");
    reveal_strlit("size");
    reveal_strlit("turn");
    reveal_strlit("evidence");
    reveal_strlit("synthesis");
    reveal_strlit("usage");
    reveal_strlit("prompt_tokens");
    reveal_strlit("completion_tokens");
    reveal_strlit("total_tokens");
    reveal_strlit("reasoning_tokens");
}

/// The header and the rows of a session lose nothing as JSON: every piece of
/// evidence can be read back from its row, and a row without a synthesis has no
/// field for one.
pub proof fn law_sessions_are_written_whole(header: HeaderView, row: RowView)
    ensures
        header.json().field("format_version"@) == Some(
            JsonView::Number(header.format_version as nat),
        ),
        header.json().field("session_id"@) == Some(JsonView::Text(header.session_id)),
        header.json().field("goal"@) == Some(JsonView::Text(header.goal)),
        header.json().field("size"@) == Some(JsonView::Text(header.size)),
        row.json().field("session_id"@) == Some(JsonView::Text(row.session_id)),
        row.json().field("turn"@) == Some(JsonView::Number(row.turn as nat)),
        row.json().field("synthesis"@) == row.synthesis,
        row.json().field("evidence"@) matches Some(JsonView::Array(items)) && items.len()
            == row.evidence.len() && forall|i: int|
            0 <= i < items.len() ==> source_from(#[trigger] items[i]) == Some(row.evidence[i]),
        row.json().field("usage"@) matches Some(u) && {
            &&& u.field("prompt_tokens"@) == Some(JsonView::Number(row.usage.prompt_tokens as nat))
            &&& u.field("completion_tokens"@) == Some(
                JsonView::Number(row.usage.completion_tokens as nat),
            )
            &&& u.field("total_tokens"@) == Some(JsonView::Number(row.usage.total_tokens as nat))
            &&& u.field("reasoning_tokens"@) == Some(
                JsonView::Number(row.usage.reasoning_tokens as nat),
            )
        },
{
    lemma_session_names();
    reveal_with_fuel(crate::json::first_field, 6);
    let items = Seq::new(row.evidence.len(), |i: int| row.evidence[i].json());
    assert(row.json().field("evidence"@) == Some(JsonView::Array(items)));
    assert forall|i: int| 0 <= i < items.len() implies source_from(#[trigger] items[i]) == Some(
        row.evidence[i],
    ) by {
        law_evidence_round_trips(row.evidence[i]);
    }
}

/// The JSON of evidence names its page, its time and its content.
pub proof fn law_evidence_is_written_whole(evidence: SourceView)
    ensures
        evidence.json().field("source_url"@) == Some(JsonView::Text(evidence.source_url)),
        evidence.json().field("collected_at"@) == Some(JsonView::Text(evidence.collected_at)),
        evidence.json().field("markdown"@) == Some(JsonView::Text(evidence.markdown)),
{
    reveal_strlit("source_url");
    reveal_strlit("collected_at");
    reveal_strlit("markdown");
    assert("source_url"@[0] == 's');
    assert("collected_at"@[0] == 'c');
    assert("markdown"@[0] == 'm');
    reveal_with_fuel(crate::json::first_field, 4);
}

/// Evidence keeps the URL and the content of its page, and the time.
pub proof fn law_evidence_keeps_its_page(url: Seq<char>, markdown: Seq<char>, secs: nat)
    ensures
        collected(url, markdown, secs).source_url == url,
        collected(url, markdown, secs).markdown == markdown,
        collected(url, markdown, secs).collected_at == timestamp(secs),
{
}

proof fn lemma_parts_of_time(secs: nat)
    requires
        secs < 253_402_300_800,
    ensures
        ({
            let (year, month, day) = date_of(secs / 86_400);
            let rest = secs % 86_400;
            let t = timestamp(secs);
            &&& t.subrange(0, 4) == padded(year, 4)
            &&& t.subrange(5, 7) == padded(month, 2)
            &&& t.subrange(8, 10) == padded(day, 2)
            &&& t.subrange(11, 13) == padded(rest / 3600, 2)
            &&& t.subrange(14, 16) == padded(rest % 3600 / 60, 2)
            &&& t.subrange(17, 19) == padded(rest % 60, 2)
        }),
{
    let (year, month, day) = date_of(secs / 86_400);
    let rest = secs % 86_400;
    let t = timestamp(secs);
    lemma_every_day_has_a_date(secs / 86_400);
    lemma_day_of_year(year as int, month as int, day as int);
    if year >= 10_000 {
        lemma_years_ascend(10_000, year as int);
    }
    lemma_padded_len(year, 4);
    lemma_padded_len(month, 2);
    lemma_padded_len(day, 2);
    lemma_padded_len(rest / 3600, 2);
    lemma_padded_len(rest % 3600 / 60, 2);
    lemma_padded_len(rest % 60, 2);
    assert(t.subrange(0, 4) =~= padded(year, 4));
    assert(t.subrange(5, 7) =~= padded(month, 2));
    assert(t.subrange(8, 10) =~= padded(day, 2));
    assert(t.subrange(11, 13) =~= padded(rest / 3600, 2));
    assert(t.subrange(14, 16) =~= padded(rest % 3600 / 60, 2));
    assert(t.subrange(17, 19) =~= padded(rest % 60, 2));
}

} // verus!
