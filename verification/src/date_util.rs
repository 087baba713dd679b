//! Calendar dates and timestamps as GLPI writes them ("YYYY-MM-DD[ HH:MM:SS]"),
//! and the recency windows of the filter bar.
//!
//! A calendar date is held as its day number counted from 0001-01-01 (day 1),
//! a point in time as that day number and the seconds past midnight.
use crate::models::{FilterState, RecentTimeMode};
use crate::text::{
    byte_prefix_or_all, chars_byte_prefix_or_all, chars_of, parse_i64, parse_i64_spec,
    str_lt, string_from_chars, text_lt, trim, trim_chars, trim_str,
};
use chrono::{Datelike, Timelike};
use vstd::prelude::*;

verus! {

// ---------------------------------------------------------------------------
// Parsing through chrono
// ---------------------------------------------------------------------------
/// What `chrono::NaiveDate::parse_from_str(s, "%Y-%m-%d")` yields, as
/// (day number from 0001-01-01, year, month, day).
pub uninterp spec fn chrono_ymd(s: Seq<char>) -> Option<(i32, i32, u32, u32)>;

/// What `chrono::NaiveDateTime::parse_from_str(s, fmt)` yields, as
/// (day number of its date from 0001-01-01, seconds past midnight, nanoseconds
/// of the second; a leap second `:60` reads as second `:59` with a billion
/// nanoseconds or more, as chrono keeps it).
pub uninterp spec fn chrono_datetime(s: Seq<char>, fmt: Seq<char>) -> Option<(i32, u32, u32)>;

/// Calls `chrono::NaiveDate::parse_from_str(s, "%Y-%m-%d")` and reads the
/// parsed date's day number, year, month and day.
#[verifier::external_body]
fn chrono_parse_ymd(s: &str) -> (r: Option<(i32, i32, u32, u32)>)
    ensures
        r == chrono_ymd(s@),
{
    chrono::NaiveDate::parse_from_str(s, "%Y-%m-%d").ok().map(
        |d| (d.num_days_from_ce(), d.year(), d.month(), d.day()),
    )
}

/// Calls `chrono::NaiveDateTime::parse_from_str(s, fmt)` and reads the parsed
/// value's day number, seconds past midnight and nanoseconds.
#[verifier::external_body]
fn chrono_parse_datetime(s: &str, fmt: &str) -> (r: Option<(i32, u32, u32)>)
    ensures
        r == chrono_datetime(s@, fmt@),
{
    chrono::NaiveDateTime::parse_from_str(s, fmt).ok().map(
        |dt| (dt.date().num_days_from_ce(), dt.time().num_seconds_from_midnight(), dt.time().nanosecond()),
    )
}

/// The first day `chrono::NaiveDate` can hold (-262143-01-01), as a day number.
pub open spec fn first_day() -> int {
    -95746129
}

/// The first day `chrono::NaiveDate` can hold, as a day number.
pub fn first_day_number() -> (r: i32)
    ensures
        r == first_day(),
{
    -95746129
}

/// A calendar date.
#[derive(Debug, Clone, Copy, PartialEq, Eq, Structural)]
pub struct CalendarDate {
    /// Day number counted from 0001-01-01 (day 1).
    pub days: i32,
    pub year: i32,
    pub month: u32,
    pub day: u32,
}

/// A point in time without time zone.
#[derive(Debug, Clone, Copy, PartialEq, Eq, Structural)]
pub struct Moment {
    /// Day number of the date, counted from 0001-01-01 (day 1).
    pub days: i32,
    /// Seconds past midnight.
    pub secs: u32,
    /// Nanoseconds within the second; a billion or more during a leap second.
    pub frac: u32,
}

impl Moment {
    /// Seconds counted from the start of day 0.
    pub open spec fn total_secs(self) -> int {
        self.days as int * 86400 + self.secs as int
    }
}

/// The nanoseconds from `earlier` to `later`, counted as chrono's
/// `signed_duration_since` counts them (a leap second adds its extra
/// nanoseconds to the second before it).
pub open spec fn elapsed_nanos(later: Moment, earlier: Moment) -> int {
    (later.total_secs() - earlier.total_secs()) * 1000000000 + later.frac as int - earlier.frac as int
}

/// `elapsed_nanos`, computed.
pub fn elapsed_nanos_exec(later: Moment, earlier: Moment) -> (r: i128)
    ensures
        r == elapsed_nanos(later, earlier),
{
    let d: i128 = (later.days as i128 - earlier.days as i128) * 86400 + (later.secs as i128 - earlier.secs as i128);
    d * 1000000000 + later.frac as i128 - earlier.frac as i128
}

pub open spec fn date_of(t: Option<(i32, i32, u32, u32)>) -> Option<CalendarDate> {
    match t {
        Some((days, year, month, day)) => Some(CalendarDate { days, year, month, day }),
        None => None,
    }
}

/// `parse_date`: the first ten bytes (or the whole text when byte ten is not a
/// character boundary) read as `%Y-%m-%d`.
pub open spec fn parsed_date(s: Seq<char>) -> Option<CalendarDate> {
    date_of(chrono_ymd(byte_prefix_or_all(s, 10)))
}

pub fn parse_date(s: &str) -> (r: Option<CalendarDate>)
    ensures
        r == parsed_date(s@),
{
    let v = chars_of(s);
    let p = chars_byte_prefix_or_all(v.as_slice(), 10);
    let ps = string_from_chars(p.as_slice());
    match chrono_parse_ymd(ps.as_str()) {
        Some((days, year, month, day)) => Some(CalendarDate { days, year, month, day }),
        None => None,
    }
}

/// `s.trim_end_matches(c)` for one character `c`.
pub open spec fn trim_end_char(s: Seq<char>, c: char) -> Seq<char>
    decreases s.len(),
{
    if s.len() > 0 && s.last() == c {
        trim_end_char(s.drop_last(), c)
    } else {
        s
    }
}

/// `s.split('.').next().unwrap()`: the text before the first `.`.
pub open spec fn before_first_dot(s: Seq<char>) -> Seq<char>
    decreases s.len(),
{
    if s.len() == 0 {
        s
    } else if s[0] == '.' {
        seq![]
    } else {
        seq![s[0]] + before_first_dot(s.drop_first())
    }
}

pub open spec fn moment_of(t: Option<(i32, u32, u32)>) -> Option<Moment> {
    match t {
        Some((days, secs, frac)) => Some(Moment { days, secs, frac }),
        None => None,
    }
}

pub open spec fn fmt_space() -> Seq<char> {
    "%Y-%m-%d %H:%M:%S"@
}

pub open spec fn fmt_t() -> Seq<char> {
    "%Y-%m-%dT%H:%M:%S"@
}

/// `parse_datetime`: the trimmed text without trailing `Z`s, read as
/// "date time" or "dateTtime"; failing that, its part before the first `.`
/// read as "dateTtime" or "date time"; failing that, the date alone at midnight.
pub open spec fn parsed_datetime(s: Seq<char>) -> Option<Moment> {
    let t = trim_end_char(trim(s), 'Z');
    let base = trim(before_first_dot(t));
    if chrono_datetime(t, fmt_space()) is Some {
        moment_of(chrono_datetime(t, fmt_space()))
    } else if chrono_datetime(t, fmt_t()) is Some {
        moment_of(chrono_datetime(t, fmt_t()))
    } else if chrono_datetime(base, fmt_t()) is Some {
        moment_of(chrono_datetime(base, fmt_t()))
    } else if chrono_datetime(base, fmt_space()) is Some {
        moment_of(chrono_datetime(base, fmt_space()))
    } else {
        match parsed_date(s) {
            Some(d) => Some(Moment { days: d.days, secs: 0, frac: 0 }),
            None => None,
        }
    }
}

pub(crate) fn chars_trim_end_char(v: &[char], c: char) -> (r: Vec<char>)
    ensures
        r@ == trim_end_char(v@, c),
{
    let mut j = v.len();
    assert(v@.subrange(0, j as int) =~= v@);
    while j > 0 && v[j - 1] == c
        invariant
            j <= v@.len(),
            trim_end_char(v@, c) == trim_end_char(v@.subrange(0, j as int), c),
        decreases j,
    {
        assert(v@.subrange(0, j as int).drop_last() =~= v@.subrange(0, j - 1));
        j = j - 1;
    }
    let mut r: Vec<char> = Vec::new();
    let mut k: usize = 0;
    while k < j
        invariant
            k <= j <= v@.len(),
            r@ == v@.subrange(0, k as int),
        decreases j - k,
    {
        r.push(v[k]);
        k = k + 1;
        assert(r@ =~= v@.subrange(0, k as int));
    }
    r
}

proof fn lemma_before_first_dot_prefix(s: Seq<char>, k: int)
    requires
        0 <= k <= s.len(),
        forall|i: int| 0 <= i < k ==> s[i] != '.',
    ensures
        before_first_dot(s) == s.take(k) + before_first_dot(s.skip(k)),
    decreases k,
{
    if k == 0 {
        assert(s.skip(0) =~= s);
        assert(s.take(0) =~= seq![]);
    } else {
        let t = s.drop_first();
        lemma_before_first_dot_prefix(t, k - 1);
        assert(t.skip(k - 1) =~= s.skip(k));
        assert(s.take(k) =~= seq![s[0]] + t.take(k - 1));
    }
}

fn chars_before_first_dot(v: &[char]) -> (r: Vec<char>)
    ensures
        r@ == before_first_dot(v@),
{
    let mut r: Vec<char> = Vec::new();
    let mut k: usize = 0;
    while k < v.len() && v[k] != '.'
        invariant
            k <= v@.len(),
            r@ == v@.take(k as int),
            forall|i: int| 0 <= i < k ==> v@[i] != '.',
        decreases v.len() - k,
    {
        r.push(v[k]);
        k = k + 1;
        assert(r@ =~= v@.take(k as int));
    }
    proof {
        lemma_before_first_dot_prefix(v@, k as int);
        if k < v@.len() {
            assert(v@.skip(k as int)[0] == '.');
        }
        assert(before_first_dot(v@.skip(k as int)) =~= seq![]);
    }
    r
}

pub fn parse_datetime(s: &str) -> (r: Option<Moment>)
    ensures
        r == parsed_datetime(s@),
{
    let v = chars_of(s);
    let tv = trim_chars(v.as_slice());
    let t = chars_trim_end_char(tv.as_slice(), 'Z');
    let ts = string_from_chars(t.as_slice());
    let fmt_sp = "%Y-%m-%d %H:%M:%S";
    let fmt_tt = "%Y-%m-%dT%H:%M:%S";
    if let Some((days, secs, frac)) = chrono_parse_datetime(ts.as_str(), fmt_sp) {
        return Some(Moment { days, secs, frac });
    }
    if let Some((days, secs, frac)) = chrono_parse_datetime(ts.as_str(), fmt_tt) {
        return Some(Moment { days, secs, frac });
    }
    let b = chars_before_first_dot(t.as_slice());
    let bt = trim_chars(b.as_slice());
    let bs = string_from_chars(bt.as_slice());
    if let Some((days, secs, frac)) = chrono_parse_datetime(bs.as_str(), fmt_tt) {
        return Some(Moment { days, secs, frac });
    }
    if let Some((days, secs, frac)) = chrono_parse_datetime(bs.as_str(), fmt_sp) {
        return Some(Moment { days, secs, frac });
    }
    match parse_date(s) {
        Some(d) => Some(Moment { days: d.days, secs: 0, frac: 0 }),
        None => None,
    }
}

// ---------------------------------------------------------------------------
// Comparing date texts
// ---------------------------------------------------------------------------
/// `date_is_newer(a, b)`: by calendar date when both parse, a parsable `a` beats
/// an unparsable `b`, and otherwise the texts are compared.
pub open spec fn is_newer(a: Seq<char>, b: Seq<char>) -> bool {
    match (parsed_date(a), parsed_date(b)) {
        (Some(da), Some(db)) => da.days > db.days,
        (Some(_), None) => true,
        _ => text_lt(b, a),
    }
}

pub fn date_is_newer(a: &str, b: &str) -> (r: bool)
    ensures
        r == is_newer(a@, b@),
{
    match (parse_date(a), parse_date(b)) {
        (Some(da), Some(db)) => da.days > db.days,
        (Some(_), None) => true,
        _ => str_lt(b, a),
    }
}

pub open spec fn opt_view(o: Option<String>) -> Option<Seq<char>> {
    match o {
        Some(s) => Some(s@),
        None => None,
    }
}

/// One step of keeping the chronologically earliest date.
pub open spec fn earliest_step(earliest: Option<Seq<char>>, candidate: Seq<char>) -> Option<
    Seq<char>,
> {
    let c = trim(candidate);
    if c.len() == 0 {
        earliest
    } else {
        match earliest {
            None => Some(c),
            Some(b) => match (parsed_date(c), parsed_date(b)) {
                (Some(dc), Some(db)) => if dc.days < db.days {
                    Some(c)
                } else {
                    earliest
                },
                (Some(_), None) => Some(c),
                (None, Some(_)) => earliest,
                (None, None) => if text_lt(c, b) {
                    Some(c)
                } else {
                    earliest
                },
            },
        }
    }
}

/// Keep the chronologically earliest date (for the "all hosts" floor).
pub fn merge_date_earliest(earliest: &mut Option<String>, candidate: &str)
    ensures
        opt_view(*final(earliest)) == earliest_step(opt_view(*old(earliest)), candidate@),
{
    let c = trim_str(candidate);
    if c.as_str().is_empty() {
        return;
    }
    let replace = match earliest {
        None => true,
        Some(b) => match (parse_date(c.as_str()), parse_date(b.as_str())) {
            (Some(dc), Some(db)) => dc.days < db.days,
            (Some(_), None) => true,
            (None, Some(_)) => false,
            (None, None) => str_lt(c.as_str(), b.as_str()),
        },
    };
    if replace {
        *earliest = Some(c);
    }
}

/// One step of keeping the newest date.
pub open spec fn best_step(best: Option<Seq<char>>, candidate: Seq<char>) -> Option<Seq<char>> {
    let c = trim(candidate);
    if c.len() == 0 {
        best
    } else {
        match best {
            None => Some(c),
            Some(b) => if is_newer(c, b) {
                Some(c)
            } else {
                best
            },
        }
    }
}

/// Keep the newest date; blank candidates are ignored.
pub fn merge_date_best(best: &mut Option<String>, candidate: &str)
    ensures
        opt_view(*final(best)) == best_step(opt_view(*old(best)), candidate@),
{
    let c = trim_str(candidate);
    if c.as_str().is_empty() {
        return;
    }
    let replace = match best {
        None => true,
        Some(b) => date_is_newer(c.as_str(), b.as_str()),
    };
    if replace {
        *best = Some(c);
    }
}

/// One step of the newest-date fold that keeps untrimmed texts:
/// `if best.map_or(true, |b| date_is_newer(d, b)) { best = Some(d) }`.
pub open spec fn newer_step(best: Option<Seq<char>>, d: Seq<char>) -> Option<Seq<char>> {
    match best {
        None => Some(d),
        Some(b) => if is_newer(d, b) {
            Some(d)
        } else {
            best
        },
    }
}

pub fn keep_newer(best: &mut Option<String>, d: &str)
    ensures
        opt_view(*final(best)) == newer_step(opt_view(*old(best)), d@),
{
    let replace = match best {
        None => true,
        Some(b) => date_is_newer(d, b.as_str()),
    };
    if replace {
        *best = Some(d.to_owned());
    }
}

// ---------------------------------------------------------------------------
// Recency windows
// ---------------------------------------------------------------------------
/// Inclusive range for Between mode (ends swapped if reversed).
pub open spec fn between_bounds(f: FilterState) -> (i32, i32) {
    if f.recent_range_from > f.recent_range_to {
        (f.recent_range_to, f.recent_range_from)
    } else {
        (f.recent_range_from, f.recent_range_to)
    }
}

pub fn recent_between_bounds(filters: &FilterState) -> (r: (i32, i32))
    ensures
        r == between_bounds(*filters),
{
    let mut a = filters.recent_range_from;
    let mut b = filters.recent_range_to;
    if a > b {
        let t = a;
        a = b;
        b = t;
    }
    (a, b)
}

/// The day count of the rolling window: `days.parse().unwrap_or(30).max(0)`.
pub open spec fn window_days(f: FilterState) -> int {
    match parse_i64_spec(f.days@) {
        Some(n) => if n < 0 {
            0
        } else {
            n
        },
        None => 30,
    }
}

fn rolling_days(filters: &FilterState) -> (r: i64)
    ensures
        r as int == window_days(*filters),
        r >= 0,
{
    let d = match parse_i64(filters.days.as_str()) {
        Some(n) => n,
        None => 30,
    };
    if d < 0 {
        0
    } else {
        d
    }
}

/// Whether the calendar day `d` lies in the active window as seen on day `today`.
pub open spec fn day_in_window(d: int, today: int, f: FilterState) -> bool {
    if d > today {
        false
    } else {
        match f.recent_time_mode {
            RecentTimeMode::RollingDays => today - d <= window_days(f),
            RecentTimeMode::CutoffFrom => d >= f.recent_cutoff_from,
            RecentTimeMode::Between => between_bounds(f).0 <= d <= between_bounds(f).1,
        }
    }
}

fn day_in_window_exec(d: i32, today: i32, filters: &FilterState) -> (r: bool)
    ensures
        r == day_in_window(d as int, today as int, *filters),
{
    if d > today {
        return false;
    }
    let days = rolling_days(filters);
    match filters.recent_time_mode {
        RecentTimeMode::RollingDays => (today as i64 - d as i64) <= days,
        RecentTimeMode::CutoffFrom => d >= filters.recent_cutoff_from,
        RecentTimeMode::Between => {
            let (from, to) = recent_between_bounds(filters);
            d >= from && d <= to
        },
    }
}

/// Whether `date_str` holds a date inside the active recency window.
pub open spec fn date_in_window(date_str: Option<Seq<char>>, today: int, f: FilterState) -> bool {
    match date_str {
        None => false,
        Some(s) => match parsed_date(s) {
            None => false,
            Some(d) => day_in_window(d.days as int, today, f),
        },
    }
}

/// Whether `date_str` falls in the active recency window (rolling / cutoff / between),
/// `today` being a day number.
pub fn date_in_recency_window(date_str: &Option<String>, today: i32, filters: &FilterState) -> (r:
    bool)
    ensures
        r == date_in_window(opt_view(*date_str), today as int, *filters),
{
    match date_str {
        None => false,
        Some(ds) => match parse_date(ds.as_str()) {
            None => false,
            Some(d) => day_in_window_exec(d.days, today, filters),
        },
    }
}

/// Whether the date of the event at `event` lies in the window.
pub fn event_in_recency_window(event: Moment, today: i32, filters: &FilterState) -> (r: bool)
    ensures
        r == day_in_window(event.days as int, today as int, *filters),
{
    day_in_window_exec(event.days, today, filters)
}

// ---------------------------------------------------------------------------
// The filter bar's starting state
// ---------------------------------------------------------------------------
impl FilterState {
    /// The filter bar as it opens on day `today`: nothing filtered, a rolling
    /// window of 30 days, and the cutoff and range dates set to 30 days back
    /// (to `today` itself when that day cannot be represented).
    pub fn default_at(today: i32) -> (r: FilterState)
        ensures
            r.software_name@.len() == 0,
            r.publisher@.len() == 0,
            r.min_hosts@.len() == 0,
            !r.recently_updated,
            !r.recent_install_only,
            !r.every_host_install_in_window,
            !r.recent_use_host_inventory,
            r.days@ == "30"@,
            r.recent_time_mode == RecentTimeMode::RollingDays,
            r.recent_cutoff_from == (if today - 30 >= first_day() { today - 30 } else { today as int }),
            r.recent_range_from == r.recent_cutoff_from,
            r.recent_range_to == today,
            r.top_n@.len() == 0,
            !r.hide_os_defaults,
            !r.show_selected_only,
    {
        let month_ago: i32 = if today >= -95746129 + 30 {
            today - 30
        } else {
            today
        };
        FilterState {
            software_name: String::new(),
            publisher: String::new(),
            min_hosts: String::new(),
            recently_updated: false,
            recent_install_only: false,
            every_host_install_in_window: false,
            recent_use_host_inventory: false,
            days: "30".to_owned(),
            recent_time_mode: RecentTimeMode::RollingDays,
            recent_cutoff_from: month_ago,
            recent_range_from: month_ago,
            recent_range_to: today,
            top_n: String::new(),
            hide_os_defaults: false,
            show_selected_only: false,
        }
    }
}

impl Default for RecentTimeMode {
    fn default() -> (r: Self)
        ensures
            r == RecentTimeMode::RollingDays,
    {
        RecentTimeMode::RollingDays
    }
}

// ---------------------------------------------------------------------------
// Laws of the date folds
// ---------------------------------------------------------------------------
/// "Newer than" never holds of a date and itself.
pub proof fn lemma_newer_irreflexive(a: Seq<char>)
    ensures
        !is_newer(a, a),
{
    crate::text::lemma_text_lt_irreflexive(a);
}

/// "Newer than" does not hold both ways between two texts that both read as
/// dates, or that both do not.
pub proof fn lemma_newer_asymmetric(a: Seq<char>, b: Seq<char>)
    requires
        (parsed_date(a) is Some) == (parsed_date(b) is Some),
    ensures
        is_newer(a, b) ==> !is_newer(b, a),
{
    if is_newer(a, b) && parsed_date(a) is None {
        crate::text::lemma_text_lt_asymmetric(b, a);
    }
}

/// Offering the same date twice keeps what offering it once keeps, for the
/// newest-date fold.
pub proof fn lemma_best_step_twice(best: Option<Seq<char>>, candidate: Seq<char>)
    ensures
        best_step(best_step(best, candidate), candidate) == best_step(best, candidate),
{
    let c = trim(candidate);
    lemma_newer_irreflexive(c);
}

/// Offering the same date twice keeps what offering it once keeps, for the
/// earliest-date fold.
pub proof fn lemma_earliest_step_twice(earliest: Option<Seq<char>>, candidate: Seq<char>)
    ensures
        earliest_step(earliest_step(earliest, candidate), candidate) == earliest_step(earliest, candidate),
{
    let c = trim(candidate);
    crate::text::lemma_text_lt_irreflexive(c);
    match earliest {
        Some(b) => {
            if parsed_date(c) is None && parsed_date(b) is None && text_lt(c, b) {
                crate::text::lemma_text_lt_irreflexive(c);
            }
        },
        None => {},
    }
}

/// `best` is what a newest-date fold over the texts `cands` keeps: nothing when
/// there is no text, else one of the texts, and, when every text reads as a date,
/// one whose day no other text's day passes.
pub open spec fn newest_of(best: Option<Seq<char>>, cands: Set<Seq<char>>) -> bool {
    &&& (best is None <==> cands == Set::<Seq<char>>::empty())
    &&& (best is Some ==> cands.contains(best->0))
    &&& (best is Some && (forall|c: Seq<char>| #[trigger] cands.contains(c) ==> parsed_date(c) is Some))
        ==> forall|c: Seq<char>| #[trigger] cands.contains(c) ==> parsed_date(c)->0.days <= parsed_date(
        best->0,
    )->0.days
}

/// Offering one more date to the newest-date fold keeps one of the offered dates,
/// and, when all of them read as dates, one of the latest day.
pub proof fn lemma_newer_step_newest(best: Option<Seq<char>>, cands: Set<Seq<char>>, d: Seq<char>)
    requires
        newest_of(best, cands),
    ensures
        newest_of(newer_step(best, d), cands.insert(d)),
{
    let all = cands.insert(d);
    assert(all.contains(d));
    assert(all != Set::<Seq<char>>::empty());
    match best {
        None => {
            assert(all =~= set![d]);
        },
        Some(b) => {
            if forall|c: Seq<char>| #[trigger] all.contains(c) ==> parsed_date(c) is Some {
                assert(all.contains(b));
                assert forall|c: Seq<char>| #[trigger] cands.contains(c) implies parsed_date(c) is Some by {
                    assert(all.contains(c));
                }
            }
        },
    }
}

/// Two newest-date results put together (the second offered to the first) give the
/// newest of both sets of texts.
pub proof fn lemma_newer_merge_newest(
    b1: Option<Seq<char>>,
    c1: Set<Seq<char>>,
    b2: Option<Seq<char>>,
    c2: Set<Seq<char>>,
)
    requires
        newest_of(b1, c1),
        newest_of(b2, c2),
    ensures
        newest_of(
            match b2 {
                Some(x) => newer_step(b1, x),
                None => b1,
            },
            c1.union(c2),
        ),
{
    let all = c1.union(c2);
    match b2 {
        None => {
            assert(all =~= c1);
        },
        Some(x) => {
            assert(all.contains(x));
            match b1 {
                None => {
                    assert(all =~= c2);
                },
                Some(b) => {
                    assert(all.contains(b));
                    if forall|c: Seq<char>| #[trigger] all.contains(c) ==> parsed_date(c) is Some {
                        assert forall|c: Seq<char>| #[trigger] c1.contains(c) implies parsed_date(c) is Some by {
                            assert(all.contains(c));
                        }
                        assert forall|c: Seq<char>| #[trigger] c2.contains(c) implies parsed_date(c) is Some by {
                            assert(all.contains(c));
                        }
                    }
                },
            }
        },
    }
}

} // verus!
