//! The cleanup dry run: software whose newest known date is older than a cutoff.
use crate::aggregator::version_owner_upto;
use crate::date_util::{date_is_newer, first_day, is_newer, parse_date, CalendarDate};
use crate::history_store::append_chars;
use crate::models::{GlpiItemSoftwareVersion, GlpiSoftware, GlpiSoftwareVersion, SoftwareCleanupCandidate};
use crate::sorting::{rearranged, sort_by_lt, sorted_by};
use crate::text::{chars_of, decimal, decimal_chars, is_blank, str_eq, string_from_chars, text_lt, trim};
use std::collections::HashMap;
use vstd::prelude::*;

verus! {

broadcast use vstd::std_specs::hash::group_hash_axioms;

// ---------------------------------------------------------------------------
// Newest known date per software
// ---------------------------------------------------------------------------
/// `update_latest_date`: a blank candidate is ignored; otherwise it replaces a
/// missing or empty date, or an older one.
pub open spec fn latest_step(cur: Option<Seq<char>>, cand: Seq<char>) -> Option<Seq<char>> {
    if trim(cand).len() == 0 {
        cur
    } else {
        match cur {
            None => Some(cand),
            Some(e) => if e.len() == 0 || is_newer(cand, e) {
                Some(cand)
            } else {
                cur
            },
        }
    }
}

/// The newest date of software `id` among the events (software id, date).
pub open spec fn latest_of(ev: Seq<(u64, Seq<char>)>, id: u64) -> Option<Seq<char>>
    decreases ev.len(),
{
    if ev.len() == 0 {
        None
    } else {
        let prev = latest_of(ev.drop_last(), id);
        if ev.last().0 == id {
            latest_step(prev, ev.last().1)
        } else {
            prev
        }
    }
}

pub open spec fn opt_event(id: u64, d: Option<String>) -> Seq<(u64, Seq<char>)> {
    match d {
        Some(x) => seq![(id, x@)],
        None => Seq::empty(),
    }
}

/// The dates of the first `n` software rows: `date_mod`, then `date_creation`.
pub open spec fn software_events(sl: Seq<GlpiSoftware>, n: int) -> Seq<(u64, Seq<char>)>
    decreases n,
{
    if n <= 0 {
        Seq::empty()
    } else {
        software_events(sl, n - 1) + opt_event(sl[n - 1].id, sl[n - 1].date_mod) + opt_event(
            sl[n - 1].id,
            sl[n - 1].date_creation,
        )
    }
}

/// The dates of the first `n` version rows, for their software.
pub open spec fn version_events(vs: Seq<GlpiSoftwareVersion>, n: int) -> Seq<(u64, Seq<char>)>
    decreases n,
{
    if n <= 0 {
        Seq::empty()
    } else {
        version_events(vs, n - 1) + opt_event(vs[n - 1].softwares_id, vs[n - 1].date_mod) + opt_event(
            vs[n - 1].softwares_id,
            vs[n - 1].date_creation,
        )
    }
}

/// The dates of the first `n` installations whose version is known, for the
/// version's software: `date_install`, then `date_mod`.
pub open spec fn install_events(vs: Seq<GlpiSoftwareVersion>, is: Seq<GlpiItemSoftwareVersion>, n: int) -> Seq<
    (u64, Seq<char>),
>
    decreases n,
{
    if n <= 0 {
        Seq::empty()
    } else {
        let prev = install_events(vs, is, n - 1);
        match version_owner_upto(vs, is[n - 1].softwareversions_id, vs.len() as int) {
            Some(s) => prev + opt_event(s, is[n - 1].date_install) + opt_event(s, is[n - 1].date_mod),
            None => prev,
        }
    }
}

pub open spec fn all_events(
    sl: Seq<GlpiSoftware>,
    vs: Seq<GlpiSoftwareVersion>,
    is: Seq<GlpiItemSoftwareVersion>,
) -> Seq<(u64, Seq<char>)> {
    software_events(sl, sl.len() as int) + version_events(vs, vs.len() as int) + install_events(
        vs,
        is,
        is.len() as int,
    )
}

pub open spec fn map_text(m: Map<u64, String>, id: u64) -> Option<Seq<char>> {
    if m.contains_key(id) {
        Some(m[id]@)
    } else {
        None
    }
}

/// Folds a candidate date into the newest date kept for software `id`.
pub fn update_latest_date(latest: &mut HashMap<u64, String>, id: u64, candidate: &str)
    ensures
        forall|x: u64| x != id ==> map_text(final(latest)@, x) == map_text(old(latest)@, x),
        map_text(final(latest)@, id) == latest_step(map_text(old(latest)@, id), candidate@),
{
    if is_blank(candidate) {
        return;
    }
    let replace = match latest.get(&id) {
        None => true,
        Some(e) => e.as_str().is_empty() || date_is_newer(candidate, e.as_str()),
    };
    if replace {
        latest.insert(id, candidate.to_owned());
    }
}

proof fn lemma_latest_push(ev: Seq<(u64, Seq<char>)>, e: (u64, Seq<char>), id: u64)
    ensures
        latest_of(ev.push(e), id) == if e.0 == id {
            latest_step(latest_of(ev, id), e.1)
        } else {
            latest_of(ev, id)
        },
{
    assert(ev.push(e).drop_last() =~= ev);
}

/// Folds an optional dated event into the table.
fn feed(latest: &mut HashMap<u64, String>, id: u64, d: &Option<String>, Ghost(ev): Ghost<Seq<(u64, Seq<char>)>>)
    requires
        forall|x: u64| #[trigger] map_text(old(latest)@, x) == latest_of(ev, x),
    ensures
        forall|x: u64| #[trigger] map_text(final(latest)@, x) == latest_of(ev + opt_event(id, *d), x),
{
    match d {
        Some(t) => {
            update_latest_date(latest, id, t.as_str());
            proof {
                assert(ev + opt_event(id, *d) =~= ev.push((id, t@)));
                assert forall|x: u64| #[trigger] map_text(latest@, x) == latest_of(ev + opt_event(id, *d), x) by {
                    lemma_latest_push(ev, (id, t@), x);
                }
            }
        },
        None => {
            assert(ev + opt_event(id, *d) =~= ev);
        },
    }
}

/// The newest date of each software over its rows, its versions' rows and its
/// installations (in that order).
fn latest_dates(
    sl: &[GlpiSoftware],
    vs: &[GlpiSoftwareVersion],
    is: &[GlpiItemSoftwareVersion],
) -> (m: HashMap<u64, String>)
    ensures
        forall|x: u64| #[trigger] map_text(m@, x) == latest_of(all_events(sl@, vs@, is@), x),
{
    let mut m: HashMap<u64, String> = HashMap::new();
    let ghost mut ev: Seq<(u64, Seq<char>)> = Seq::empty();
    let mut j: usize = 0;
    while j < sl.len()
        invariant
            j <= sl@.len(),
            ev == software_events(sl@, j as int),
            forall|x: u64| #[trigger] map_text(m@, x) == latest_of(ev, x),
        decreases sl.len() - j,
    {
        feed(&mut m, sl[j].id, &sl[j].date_mod, Ghost(ev));
        proof {
            ev = ev + opt_event(sl@[j as int].id, sl@[j as int].date_mod);
        }
        feed(&mut m, sl[j].id, &sl[j].date_creation, Ghost(ev));
        proof {
            ev = ev + opt_event(sl@[j as int].id, sl@[j as int].date_creation);
        }
        j = j + 1;
    }
    let ghost base1 = ev;
    let mut k: usize = 0;
    while k < vs.len()
        invariant
            k <= vs@.len(),
            base1 == software_events(sl@, sl@.len() as int),
            ev == base1 + version_events(vs@, k as int),
            forall|x: u64| #[trigger] map_text(m@, x) == latest_of(ev, x),
        decreases vs.len() - k,
    {
        feed(&mut m, vs[k].softwares_id, &vs[k].date_mod, Ghost(ev));
        proof {
            ev = ev + opt_event(vs@[k as int].softwares_id, vs@[k as int].date_mod);
        }
        feed(&mut m, vs[k].softwares_id, &vs[k].date_creation, Ghost(ev));
        proof {
            ev = ev + opt_event(vs@[k as int].softwares_id, vs@[k as int].date_creation);
            assert(base1 + version_events(vs@, k + 1) =~= ev);
        }
        k = k + 1;
    }
    let owners = crate::aggregator::owner_table(vs);
    let ghost base2 = ev;
    let mut n: usize = 0;
    while n < is.len()
        invariant
            n <= is@.len(),
            base2 == software_events(sl@, sl@.len() as int) + version_events(vs@, vs@.len() as int),
            ev == base2 + install_events(vs@, is@, n as int),
            forall|vid: u64|
                match version_owner_upto(vs@, vid, vs@.len() as int) {
                    Some(s) => #[trigger] owners@.contains_key(vid) && owners@[vid] == s,
                    None => !owners@.contains_key(vid),
                },
            forall|x: u64| #[trigger] map_text(m@, x) == latest_of(ev, x),
        decreases is.len() - n,
    {
        let inst = &is[n];
        match owners.get(&inst.softwareversions_id) {
            Some(s) => {
                let s = *s;
                feed(&mut m, s, &inst.date_install, Ghost(ev));
                proof {
                    ev = ev + opt_event(s, inst.date_install);
                }
                feed(&mut m, s, &inst.date_mod, Ghost(ev));
                proof {
                    ev = ev + opt_event(s, inst.date_mod);
                    assert(base2 + install_events(vs@, is@, n + 1) =~= ev);
                }
            },
            None => {
                proof {
                    assert(base2 + install_events(vs@, is@, n + 1) =~= ev);
                }
            },
        }
        n = n + 1;
    }
    m
}

// ---------------------------------------------------------------------------
// Writing a calendar date
// ---------------------------------------------------------------------------
/// At least four digits: `n` zero-padded to four.
pub open spec fn padded4(n: nat) -> Seq<char> {
    if n < 10000 {
        seq![
            crate::text::digit_char(n / 1000),
            crate::text::digit_char((n / 100) % 10),
            crate::text::digit_char((n / 10) % 10),
            crate::text::digit_char(n % 10),
        ]
    } else {
        decimal(n)
    }
}

pub open spec fn padded2(n: nat) -> Seq<char> {
    seq![crate::text::digit_char((n / 10) % 10), crate::text::digit_char(n % 10)]
}

/// How `chrono::NaiveDate` prints a date: `YYYY-MM-DD`, a year outside 0..=9999
/// with its sign and at least four digits.
pub open spec fn date_display(d: CalendarDate) -> Seq<char> {
    let y = d.year as int;
    let year = if 0 <= y <= 9999 {
        padded4(y as nat)
    } else if y < 0 {
        seq!['-'] + padded4((-y) as nat)
    } else {
        seq!['+'] + padded4(y as nat)
    };
    year + seq!['-'] + padded2(d.month as nat) + seq!['-'] + padded2(d.day as nat)
}

fn push_padded4(v: &mut Vec<char>, n: u64)
    ensures
        final(v)@ == old(v)@ + padded4(n as nat),
{
    if n < 10000 {
        v.push(crate::text::digit_to_char(n / 1000));
        v.push(crate::text::digit_to_char((n / 100) % 10));
        v.push(crate::text::digit_to_char((n / 10) % 10));
        v.push(crate::text::digit_to_char(n % 10));
        assert(v@ =~= old(v)@ + padded4(n as nat));
    } else {
        let d = decimal_chars(n);
        append_chars(v, &d);
    }
}

fn push_padded2(v: &mut Vec<char>, n: u32)
    ensures
        final(v)@ == old(v)@ + padded2(n as nat),
{
    v.push(crate::text::digit_to_char(((n / 10) % 10) as u64));
    v.push(crate::text::digit_to_char((n % 10) as u64));
    assert(v@ =~= old(v)@ + padded2(n as nat));
}

/// The date as `chrono::NaiveDate` prints it.
pub fn date_text(d: CalendarDate) -> (r: String)
    ensures
        r@ == date_display(d),
{
    let mut v: Vec<char> = Vec::new();
    let y = d.year;
    if 0 <= y && y <= 9999 {
        push_padded4(&mut v, y as u64);
    } else if y < 0 {
        v.push('-');
        let m: u64 = (0i64 - y as i64) as u64;
        push_padded4(&mut v, m);
    } else {
        v.push('+');
        push_padded4(&mut v, y as u64);
    }
    v.push('-');
    push_padded2(&mut v, d.month);
    v.push('-');
    push_padded2(&mut v, d.day);
    assert(v@ =~= date_display(d));
    string_from_chars(v.as_slice())
}

// ---------------------------------------------------------------------------
// The candidates
// ---------------------------------------------------------------------------
/// The publisher shown in the cleanup list: "Unknown" for a blank, "0" or
/// "&nbsp;" field.
pub open spec fn cleanup_publisher(m: Seq<char>) -> Seq<char> {
    if trim(m).len() == 0 || m == seq!['0'] || m == "&nbsp;"@ {
        "Unknown"@
    } else {
        m
    }
}

pub(crate) fn cleanup_publisher_text(m: &str) -> (r: String)
    ensures
        r@ == cleanup_publisher(m@),
{
    proof {
        reveal_strlit("0");
        assert("0"@ =~= seq!['0']);
    }
    if is_blank(m) || str_eq(m, "0") || str_eq(m, "&nbsp;") {
        "Unknown".to_owned()
    } else {
        m.to_owned()
    }
}

/// A candidate as plain values: software id, name, publisher, date.
pub type CandidateView = (u64, Seq<char>, Seq<char>, Seq<char>);

pub open spec fn candidate_view(c: SoftwareCleanupCandidate) -> CandidateView {
    (c.software_id, c.name@, c.publisher@, c.date_mod@)
}

pub open spec fn candidate_views(cs: Seq<SoftwareCleanupCandidate>) -> Seq<CandidateView> {
    cs.map_values(|c: SoftwareCleanupCandidate| candidate_view(c))
}

/// The candidates among the first `n` software rows, in row order: rows whose
/// newest date parses and falls before day `cutoff`.
pub open spec fn cleanup_items(sl: Seq<GlpiSoftware>, ev: Seq<(u64, Seq<char>)>, cutoff: int, n: int) -> Seq<
    CandidateView,
>
    decreases n,
{
    if n <= 0 {
        Seq::empty()
    } else {
        let prev = cleanup_items(sl, ev, cutoff, n - 1);
        let s = sl[n - 1];
        match latest_of(ev, s.id) {
            None => prev,
            Some(t) => match crate::date_util::parsed_date(t) {
                None => prev,
                Some(d) => if d.days >= cutoff {
                    prev
                } else {
                    prev.push((s.id, s.name@, cleanup_publisher(s.manufacturers_id@), date_display(d)))
                },
            },
        }
    }
}

/// How many of the first `n` software rows have no date, or none that parses.
pub open spec fn skipped_count(sl: Seq<GlpiSoftware>, ev: Seq<(u64, Seq<char>)>, n: int) -> nat
    decreases n,
{
    if n <= 0 {
        0
    } else {
        skipped_count(sl, ev, n - 1) + match latest_of(ev, sl[n - 1].id) {
            None => 1nat,
            Some(t) => if crate::date_util::parsed_date(t) is None {
                1nat
            } else {
                0nat
            },
        }
    }
}

/// Candidates are listed by date, then name.
pub open spec fn candidate_before(a: CandidateView, b: CandidateView) -> bool {
    text_lt(a.3, b.3) || (a.3 == b.3 && text_lt(a.1, b.1))
}

/// Two candidates with the same date and name.
pub open spec fn same_place(a: CandidateView, b: CandidateView) -> bool {
    a.3 == b.3 && a.1 == b.1
}

/// A candidate with its row position: by date, then name, then position.
pub open spec fn ranked_before(a: (SoftwareCleanupCandidate, usize), b: (SoftwareCleanupCandidate, usize)) -> bool {
    candidate_before(candidate_view(a.0), candidate_view(b.0)) || (same_place(candidate_view(a.0), candidate_view(b.0))
        && a.1 < b.1)
}

/// Day `today` minus the age limit falls before the first representable day.
pub open spec fn cutoff_before_first_day(today: int, older_than_days: int) -> bool {
    today - cleanup_days(older_than_days) < first_day()
}

/// The effective age limit: at least one day.
pub open spec fn cleanup_days(older_than_days: int) -> int {
    if older_than_days < 1 {
        1
    } else {
        older_than_days
    }
}

/// What the dry run finds on day `today`: the candidates (a rearrangement of
/// `cleanup_items`, by date then name, candidates with the same date and name in
/// row order) and the count of software without a usable date.
pub open spec fn cleanup_ok(
    sl: Seq<GlpiSoftware>,
    vs: Seq<GlpiSoftwareVersion>,
    is: Seq<GlpiItemSoftwareVersion>,
    older_than_days: int,
    today: int,
    items: Seq<SoftwareCleanupCandidate>,
    skipped: usize,
) -> bool {
    let ev = all_events(sl, vs, is);
    let want = cleanup_items(sl, ev, today - cleanup_days(older_than_days), sl.len() as int);
    &&& exists|p: Seq<int>|
        #[trigger] rearranged(candidate_views(items), want, p) && forall|a: int, b: int|
            0 <= a < b < items.len() ==> candidate_before(
                candidate_view(#[trigger] items[a]),
                candidate_view(#[trigger] items[b]),
            ) || (same_place(candidate_view(items[a]), candidate_view(items[b])) && p[a] < p[b])
    &&& skipped == skipped_count(sl, ev, sl.len() as int)
}

fn ranked_less(a: &(SoftwareCleanupCandidate, usize), b: &(SoftwareCleanupCandidate, usize)) -> (r: bool)
    ensures
        r == ranked_before(*a, *b),
{
    candidate_less(&a.0, &b.0) || (str_eq(a.0.date_mod.as_str(), b.0.date_mod.as_str()) && str_eq(
        a.0.name.as_str(),
        b.0.name.as_str(),
    ) && a.1 < b.1)
}

proof fn lemma_ranked_strict()
    ensures
        crate::sorting::strict_order(
            |a: (SoftwareCleanupCandidate, usize), b: (SoftwareCleanupCandidate, usize)| ranked_before(a, b),
        ),
{
    lemma_candidate_before_strict();
    let cb = |a: SoftwareCleanupCandidate, b: SoftwareCleanupCandidate| candidate_before(candidate_view(a), candidate_view(b));
    assert forall|a: (SoftwareCleanupCandidate, usize), b: (SoftwareCleanupCandidate, usize), c: (SoftwareCleanupCandidate, usize)|
        #[trigger] ranked_before(a, b) && #[trigger] ranked_before(b, c) implies ranked_before(a, c) by {
        if cb(a.0, b.0) && cb(b.0, c.0) {
        } else if cb(a.0, b.0) {
        } else if cb(b.0, c.0) {
        }
    }
    assert forall|a: (SoftwareCleanupCandidate, usize), b: (SoftwareCleanupCandidate, usize)|
        #[trigger] ranked_before(a, b) implies !ranked_before(b, a) by {
        if cb(a.0, b.0) {
            assert(!cb(b.0, a.0));
            crate::text::lemma_text_lt_irreflexive(a.0.date_mod@);
            crate::text::lemma_text_lt_irreflexive(a.0.name@);
        } else {
            crate::text::lemma_text_lt_irreflexive(a.0.date_mod@);
            crate::text::lemma_text_lt_irreflexive(a.0.name@);
        }
    }
}

fn candidate_less(a: &SoftwareCleanupCandidate, b: &SoftwareCleanupCandidate) -> (r: bool)
    ensures
        r == candidate_before(candidate_view(*a), candidate_view(*b)),
{
    crate::text::str_lt(a.date_mod.as_str(), b.date_mod.as_str()) || (str_eq(a.date_mod.as_str(), b.date_mod.as_str())
        && crate::text::str_lt(a.name.as_str(), b.name.as_str()))
}

proof fn lemma_candidate_before_strict()
    ensures
        crate::sorting::strict_order(
            |a: SoftwareCleanupCandidate, b: SoftwareCleanupCandidate| candidate_before(candidate_view(a), candidate_view(b)),
        ),
{
    assert forall|a: SoftwareCleanupCandidate, b: SoftwareCleanupCandidate, c: SoftwareCleanupCandidate|
        #[trigger] candidate_before(candidate_view(a), candidate_view(b)) && #[trigger] candidate_before(
            candidate_view(b),
            candidate_view(c),
        ) implies candidate_before(candidate_view(a), candidate_view(c)) by {
        if text_lt(a.date_mod@, b.date_mod@) && text_lt(b.date_mod@, c.date_mod@) {
            crate::text::lemma_text_lt_transitive(a.date_mod@, b.date_mod@, c.date_mod@);
        } else if a.date_mod@ == b.date_mod@ && b.date_mod@ == c.date_mod@ {
            crate::text::lemma_text_lt_transitive(a.name@, b.name@, c.name@);
        }
    }
    assert forall|a: SoftwareCleanupCandidate, b: SoftwareCleanupCandidate| #[trigger] candidate_before(
        candidate_view(a),
        candidate_view(b),
    ) implies !candidate_before(candidate_view(b), candidate_view(a)) by {
        if text_lt(a.date_mod@, b.date_mod@) {
            crate::text::lemma_text_lt_asymmetric(a.date_mod@, b.date_mod@);
        } else {
            crate::text::lemma_text_lt_irreflexive(a.date_mod@);
            crate::text::lemma_text_lt_asymmetric(a.name@, b.name@);
        }
    }
}

/// The dry run on day `today`: software whose newest date (over its rows, its
/// versions and its installations) lies more than `older_than_days` days back
/// (at least one), by date then name, and how many had no usable date.
pub fn cleanup_candidates_at(
    software: &[GlpiSoftware],
    versions: &[GlpiSoftwareVersion],
    installations: &[GlpiItemSoftwareVersion],
    older_than_days: i64,
    today: i32,
) -> (r: (Vec<SoftwareCleanupCandidate>, usize))
    requires
        today - cleanup_days(older_than_days as int) >= first_day(),
    ensures
        cleanup_ok(software@, versions@, installations@, older_than_days as int, today as int, r.0@, r.1),
{
    let days: i64 = if older_than_days < 1 {
        1
    } else {
        older_than_days
    };
    let cutoff: i64 = today as i64 - days;
    let latest = latest_dates(software, versions, installations);
    let ghost ev = all_events(software@, versions@, installations@);
    let mut items: Vec<SoftwareCleanupCandidate> = Vec::new();
    let mut skipped: usize = 0;
    let mut j: usize = 0;
    while j < software.len()
        invariant
            j <= software@.len(),
            cutoff == today - cleanup_days(older_than_days as int),
            ev == all_events(software@, versions@, installations@),
            forall|x: u64| #[trigger] map_text(latest@, x) == latest_of(ev, x),
            candidate_views(items@) == cleanup_items(software@, ev, cutoff as int, j as int),
            skipped == skipped_count(software@, ev, j as int),
            skipped <= j,
        decreases software.len() - j,
    {
        let s = &software[j];
        let ghost before = items@;
        match latest.get(&s.id) {
            None => {
                assert(map_text(latest@, s.id) is None);
                skipped = skipped + 1;
            },
            Some(t) => {
                assert(map_text(latest@, s.id) == Some(t@));
                match parse_date(t.as_str()) {
                    None => {
                        skipped = skipped + 1;
                    },
                    Some(d) => {
                        if (d.days as i64) < cutoff {
                            let c = SoftwareCleanupCandidate {
                                software_id: s.id,
                                name: s.name.clone(),
                                publisher: cleanup_publisher_text(s.manufacturers_id.as_str()),
                                date_mod: date_text(d),
                            };
                            items.push(c);
                            proof {
                                assert(candidate_views(items@) =~= candidate_views(before).push(candidate_view(c)));
                            }
                        }
                    },
                }
            },
        }
        j = j + 1;
    }
    let ghost iv = items@;
    let mut ranked: Vec<(SoftwareCleanupCandidate, usize)> = Vec::new();
    let mut src = items;
    let n = src.len();
    let mut k: usize = 0;
    while k < n
        invariant
            n == iv.len(),
            k <= n,
            src@ == iv.skip(k as int),
            ranked@.len() == k,
            forall|i: int| 0 <= i < k ==> (#[trigger] ranked@[i]).0 == iv[i] && ranked@[i].1 == i,
        decreases n - k,
    {
        let c = src.remove(0);
        proof {
            assert(iv.skip(k as int)[0] == iv[k as int]);
            assert(src@ =~= iv.skip(k + 1));
        }
        let ghost before = ranked@;
        ranked.push((c, k));
        proof {
            assert forall|i: int| 0 <= i < k + 1 implies (#[trigger] ranked@[i]).0 == iv[i] && ranked@[i].1 == i by {
                if i < k {
                    assert(ranked@[i] == before[i]);
                }
            }
        }
        k = k + 1;
    }
    proof {
        lemma_ranked_strict();
    }
    let ghost rv = ranked@;
    let (rs, Ghost(p)) = sort_by_lt(
        ranked,
        ranked_less,
        Ghost(|a: (SoftwareCleanupCandidate, usize), b: (SoftwareCleanupCandidate, usize)| ranked_before(a, b)),
    );
    let mut sorted: Vec<SoftwareCleanupCandidate> = Vec::new();
    let mut rest = rs;
    let ghost svr = rest@;
    let m = rest.len();
    let mut j2: usize = 0;
    while j2 < m
        invariant
            m == svr.len(),
            j2 <= m,
            rest@ == svr.skip(j2 as int),
            sorted@.len() == j2,
            forall|i: int| 0 <= i < j2 ==> #[trigger] sorted@[i] == svr[i].0,
        decreases m - j2,
    {
        let x = rest.remove(0);
        proof {
            assert(svr.skip(j2 as int)[0] == svr[j2 as int]);
            assert(rest@ =~= svr.skip(j2 + 1));
        }
        sorted.push(x.0);
        j2 = j2 + 1;
    }
    proof {
        let want = cleanup_items(software@, ev, cutoff as int, software@.len() as int);
        let sv = candidate_views(sorted@);
        assert(rearranged(sv, want, p)) by {
            assert forall|i: int| 0 <= i < sv.len() implies #[trigger] sv[i] == want[p[i]] by {
                assert(svr[i] == rv[p[i]]);
                assert(candidate_views(iv)[p[i]] == candidate_view(iv[p[i]]));
            }
        }
        assert forall|a: int, b: int| 0 <= a < b < sorted@.len() implies candidate_before(
            candidate_view(#[trigger] sorted@[a]),
            candidate_view(#[trigger] sorted@[b]),
        ) || (same_place(candidate_view(sorted@[a]), candidate_view(sorted@[b])) && p[a] < p[b]) by {
            assert(!(|x: (SoftwareCleanupCandidate, usize), y: (SoftwareCleanupCandidate, usize)| ranked_before(x, y))(
                svr[b],
                svr[a],
            ));
            assert(svr[a] == rv[p[a]]);
            assert(svr[b] == rv[p[b]]);
            let x = sorted@[a];
            let y = sorted@[b];
            if x.date_mod@ != y.date_mod@ {
                crate::text::lemma_text_lt_total(x.date_mod@, y.date_mod@);
            } else if x.name@ != y.name@ {
                crate::text::lemma_text_lt_total(x.name@, y.name@);
            } else {
                assert(p[a] != p[b]);
            }
        }
    }
    (sorted, skipped)
}

/// The dry run on day `today` (see `cleanup_candidates_at`); `None` exactly when
/// the cutoff date would fall before the first representable day.
pub fn cleanup_candidates(
    software: &[GlpiSoftware],
    versions: &[GlpiSoftwareVersion],
    installations: &[GlpiItemSoftwareVersion],
    older_than_days: i64,
    today: i32,
) -> (r: Option<(Vec<SoftwareCleanupCandidate>, usize)>)
    ensures
        r is None <==> cutoff_before_first_day(today as int, older_than_days as int),
        r matches Some((items, skipped)) ==> cleanup_ok(
            software@,
            versions@,
            installations@,
            older_than_days as int,
            today as int,
            items@,
            skipped,
        ),
{
    let days: i64 = if older_than_days < 1 {
        1
    } else {
        older_than_days
    };
    if days > (today as i64) + 95746129 {
        return None;
    }
    assert(days == cleanup_days(older_than_days as int));
    Some(cleanup_candidates_at(software, versions, installations, older_than_days, today))
}

} // verus!
