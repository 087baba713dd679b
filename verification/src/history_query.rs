//! Views over saved inventory snapshots: picking a snapshot, grouping a snapshot's
//! installations by software, and comparing two snapshots.
use crate::date_util::{parse_date, parsed_date};
use crate::models::{
    DiffEntry, HistoricalComputerEntry, HistoricalSoftwareEntry, InventorySnapshot,
    SnapshotComputer, SnapshotDiff, SnapshotInstallation, SnapshotSummary,
};
use crate::sorted_texts::{has_text, insert_text, lists_set, strictly_sorted, texts};
use crate::sorting::{rearranged, sort_by_lt, sorted_by};
use crate::text::{
    chars_contains, chars_eq, chars_of, contains, grouping_key, is_blank, lowercase,
    normalize_for_grouping, text_lt, to_lower, trim, trim_str,
};
use std::collections::HashMap;
use vstd::prelude::*;

verus! {

broadcast use vstd::std_specs::hash::group_hash_axioms;

// ---------------------------------------------------------------------------
// Picking a snapshot by date
// ---------------------------------------------------------------------------
/// `max_by` on `captured_at`: the last of the greatest.
pub open spec fn captured_le(a: SnapshotSummary, b: SnapshotSummary) -> bool {
    !text_lt(b.captured_at@, a.captured_at@)
}

/// The latest summary (by `captured_at`, the last one on ties) among those `ok` admits.
pub open spec fn latest_where(s: Seq<SnapshotSummary>, ok: spec_fn(SnapshotSummary) -> bool) -> Option<
    SnapshotSummary,
>
    decreases s.len(),
{
    if s.len() == 0 {
        None
    } else {
        let rest = latest_where(s.drop_last(), ok);
        let x = s.last();
        if !ok(x) {
            rest
        } else {
            match rest {
                None => Some(x),
                Some(b) => if captured_le(b, x) {
                    Some(x)
                } else {
                    Some(b)
                },
            }
        }
    }
}

pub open spec fn captured_in_range(s: SnapshotSummary, from: int, to: int) -> bool {
    match parsed_date(s.captured_at@) {
        Some(d) => from <= d.days && d.days <= to,
        None => false,
    }
}

fn summary_copy(s: &SnapshotSummary) -> (r: SnapshotSummary)
    ensures
        r == *s,
{
    SnapshotSummary {
        file_name: s.file_name.clone(),
        captured_at: s.captured_at.clone(),
        computer_count: s.computer_count,
        installation_count: s.installation_count,
        file_size_bytes: s.file_size_bytes,
    }
}

/// Latest snapshot whose capture date (day) falls in `[from_date, to_date]` inclusive;
/// dates are day numbers counted from 0001-01-01.
pub fn pick_snapshot_in_date_range(summaries: &[SnapshotSummary], from_date: i32, to_date: i32) -> (r:
    Option<SnapshotSummary>)
    ensures
        from_date > to_date ==> r is None,
        from_date <= to_date ==> r == latest_where(
            summaries@,
            |s: SnapshotSummary| captured_in_range(s, from_date as int, to_date as int),
        ),
{
    if from_date > to_date {
        return None;
    }
    let ghost ok = |s: SnapshotSummary| captured_in_range(s, from_date as int, to_date as int);
    let mut best: Option<SnapshotSummary> = None;
    let mut i: usize = 0;
    while i < summaries.len()
        invariant
            i <= summaries@.len(),
            best == latest_where(summaries@.take(i as int), ok),
            forall|x: SnapshotSummary| #[trigger] ok(x) == captured_in_range(x, from_date as int, to_date as int),
        decreases summaries.len() - i,
    {
        let s = &summaries[i];
        let ghost pre = summaries@.take(i as int);
        assert(summaries@.take(i + 1).drop_last() =~= pre);
        assert(summaries@.take(i + 1).last() == summaries@[i as int]);
        assert(ok(summaries@[i as int]) == captured_in_range(summaries@[i as int], from_date as int, to_date as int));
        let inside = match parse_date(s.captured_at.as_str()) {
            Some(d) => d.days >= from_date && d.days <= to_date,
            None => false,
        };
        if inside {
            let take = match &best {
                None => true,
                Some(b) => !crate::sorted_texts::str_lt_string(&s.captured_at, &b.captured_at),
            };
            if take {
                best = Some(summary_copy(s));
            }
        }
        i = i + 1;
    }
    assert(summaries@.take(summaries@.len() as int) =~= summaries@);
    best
}

pub open spec fn captured_on_or_before(s: SnapshotSummary, target: int) -> bool {
    match parsed_date(s.captured_at@) {
        Some(d) => d.days <= target,
        None => false,
    }
}

/// The latest snapshot captured on or before the day `days_ago` days before `today`
/// (negative counts as zero).
pub fn resolve_snapshot_for_days_ago(snapshots: &[SnapshotSummary], days_ago: i64, today: i32) -> (r: Option<
    SnapshotSummary,
>)
    ensures
        r == latest_where(
            snapshots@,
            |s: SnapshotSummary|
                captured_on_or_before(
                    s,
                    today - (if days_ago < 0 {
                        0
                    } else {
                        days_ago as int
                    }),
                ),
        ),
{
    let back: i64 = if days_ago < 0 {
        0
    } else {
        days_ago
    };
    let target: i128 = today as i128 - back as i128;
    let ghost ok = |s: SnapshotSummary| captured_on_or_before(s, target as int);
    let mut best: Option<SnapshotSummary> = None;
    let mut i: usize = 0;
    while i < snapshots.len()
        invariant
            i <= snapshots@.len(),
            best == latest_where(snapshots@.take(i as int), ok),
            forall|x: SnapshotSummary| #[trigger] ok(x) == captured_on_or_before(x, target as int),
        decreases snapshots.len() - i,
    {
        let s = &snapshots[i];
        assert(snapshots@.take(i + 1).drop_last() =~= snapshots@.take(i as int));
        assert(snapshots@.take(i + 1).last() == snapshots@[i as int]);
        assert(ok(snapshots@[i as int]) == captured_on_or_before(snapshots@[i as int], target as int));
        let inside = match parse_date(s.captured_at.as_str()) {
            Some(d) => (d.days as i128) <= target,
            None => false,
        };
        if inside {
            let take = match &best {
                None => true,
                Some(b) => !crate::sorted_texts::str_lt_string(&s.captured_at, &b.captured_at),
            };
            if take {
                best = Some(summary_copy(s));
            }
        }
        i = i + 1;
    }
    assert(snapshots@.take(snapshots@.len() as int) =~= snapshots@);
    best
}



pub proof fn lemma_latest_where_member(s: Seq<SnapshotSummary>, ok: spec_fn(SnapshotSummary) -> bool)
    ensures
        latest_where(s, ok) matches Some(x) ==> s.contains(x) && ok(x),
    decreases s.len(),
{
    if s.len() > 0 {
        lemma_latest_where_member(s.drop_last(), ok);
        if let Some(x) = latest_where(s.drop_last(), ok) {
            let i = choose|i: int| 0 <= i < s.drop_last().len() && s.drop_last()[i] == x;
            assert(s[i] == x);
        }
        assert(s[s.len() - 1] == s.last());
    }
}


// ---------------------------------------------------------------------------
// Grouping a snapshot by software
// ---------------------------------------------------------------------------
/// The position of the last computer with id `id` among `cs[..n]`
/// (a map collected from the list keeps the last entry per id).
pub open spec fn computer_slot_upto(cs: Seq<SnapshotComputer>, id: u64, n: int) -> Option<int>
    decreases n,
{
    if n <= 0 {
        None
    } else if cs[n - 1].id == id {
        Some(n - 1)
    } else {
        computer_slot_upto(cs, id, n - 1)
    }
}

pub open spec fn computer_slot(cs: Seq<SnapshotComputer>, id: u64) -> Option<int> {
    computer_slot_upto(cs, id, cs.len() as int)
}

/// The three text filters of the history view, trimmed and lowercased.
pub struct HistoryFilter {
    pub software: Seq<char>,
    pub publisher: Seq<char>,
    pub pc: Seq<char>,
}

pub open spec fn history_filter(software: Seq<char>, publisher: Seq<char>, pc: Seq<char>) -> HistoryFilter {
    HistoryFilter {
        software: to_lower(trim(software)),
        publisher: to_lower(trim(publisher)),
        pc: to_lower(trim(pc)),
    }
}

/// An empty filter admits everything; otherwise the lowercased field must contain it.
pub open spec fn field_matches(field: Seq<char>, f: Seq<char>) -> bool {
    f.len() == 0 || contains(to_lower(field), f)
}

pub open spec fn computer_matches(c: SnapshotComputer, f: Seq<char>) -> bool {
    f.len() == 0 || contains(to_lower(c.name@), f) || contains(to_lower(c.contact@), f) || contains(
        to_lower(c.serial_number@),
        f,
    )
}

/// Whether an installation appears in the view: its computer is known and all filters match.
pub open spec fn install_shown(snap: InventorySnapshot, f: HistoryFilter, inst: SnapshotInstallation) -> bool {
    match computer_slot(snap.computers@, inst.computer_id) {
        None => false,
        Some(ci) => field_matches(inst.software_name@, f.software) && field_matches(
            inst.publisher@,
            f.publisher,
        ) && computer_matches(snap.computers@[ci], f.pc),
    }
}

/// `"{normalized name}|{normalized publisher}"`.
pub open spec fn software_key(name: Seq<char>, publisher: Seq<char>) -> Seq<char> {
    grouping_key(name) + seq!['|'] + grouping_key(publisher)
}

pub open spec fn install_key(inst: SnapshotInstallation) -> Seq<char> {
    software_key(inst.software_name@, inst.publisher@)
}

/// Installation `i` (among the first `n`) is shown and belongs to the group `k`.
pub open spec fn shown_in_group(snap: InventorySnapshot, f: HistoryFilter, n: int, k: Seq<char>, i: int) -> bool {
    0 <= i < n && i < snap.installations@.len() && install_shown(snap, f, snap.installations@[i])
        && install_key(snap.installations@[i]) == k
}

pub open spec fn nonblank(s: Seq<char>) -> bool {
    trim(s).len() > 0
}

/// The non-blank version names of the shown installations of group `k`.
pub open spec fn group_versions(snap: InventorySnapshot, f: HistoryFilter, n: int, k: Seq<char>) -> Set<
    Seq<char>,
> {
    Set::new(
        |v: Seq<char>|
            exists|i: int|
                #[trigger] shown_in_group(snap, f, n, k, i) && nonblank(
                    snap.installations@[i].version_name@,
                ) && snap.installations@[i].version_name@ == v,
    )
}

/// The computers of the shown installations of group `k`.
pub open spec fn group_hosts(snap: InventorySnapshot, f: HistoryFilter, n: int, k: Seq<char>) -> Set<u64> {
    Set::new(
        |id: u64|
            exists|i: int| #[trigger]
                shown_in_group(snap, f, n, k, i) && snap.installations@[i].computer_id == id,
    )
}

/// The non-blank version names group `k` has on computer `id`.
pub open spec fn host_versions(
    snap: InventorySnapshot,
    f: HistoryFilter,
    n: int,
    k: Seq<char>,
    id: u64,
) -> Set<Seq<char>> {
    Set::new(
        |v: Seq<char>|
            exists|i: int|
                #[trigger] shown_in_group(snap, f, n, k, i) && snap.installations@[i].computer_id
                    == id && nonblank(snap.installations@[i].version_name@)
                    && snap.installations@[i].version_name@ == v,
    )
}

/// `i` is the first shown installation of group `k`.
pub open spec fn first_of_group(snap: InventorySnapshot, f: HistoryFilter, n: int, k: Seq<char>, i: int) -> bool {
    shown_in_group(snap, f, n, k, i) && forall|j: int| 0 <= j < i ==> !#[trigger] shown_in_group(snap, f, n, k, j)
}

pub open spec fn display_publisher(p: Seq<char>) -> Seq<char> {
    if nonblank(p) {
        p
    } else {
        "Unknown"@
    }
}

/// A computer entry copies the computer record and lists the group's versions on it.
pub open spec fn computer_entry_ok(e: HistoricalComputerEntry, c: SnapshotComputer, vers: Set<Seq<char>>) -> bool {
    &&& e.computer_name@ == c.name@
    &&& e.contact@ == c.contact@
    &&& e.serial_number@ == c.serial_number@
    &&& e.model@ == c.model@
    &&& e.last_inventory@ == c.last_inventory@
    &&& lists_set(e.versions@, vers)
}

/// The computers of a row are those of `ids`, one each.
pub open spec fn computers_match_ids(
    snap: InventorySnapshot,
    f: HistoryFilter,
    n: int,
    k: Seq<char>,
    comps: Seq<HistoricalComputerEntry>,
    ids: Seq<u64>,
) -> bool {
    &&& ids.len() == comps.len()
    &&& forall|a: int, b: int| 0 <= a < b < ids.len() ==> #[trigger] ids[a] != #[trigger] ids[b]
    &&& forall|id: u64| #[trigger] group_hosts(snap, f, n, k).contains(id) <==> ids.contains(id)
    &&& forall|j: int|
        0 <= j < ids.len() ==> match computer_slot(snap.computers@, #[trigger] ids[j]) {
            Some(ci) => computer_entry_ok(
                comps[j],
                snap.computers@[ci],
                host_versions(snap, f, n, k, ids[j]),
            ),
            None => false,
        }
}

/// Computers listed by lowercase name.
pub open spec fn computers_by_name(comps: Seq<HistoricalComputerEntry>) -> bool {
    forall|a: int, b: int|
        0 <= a < b < comps.len() ==> !text_lt(
            to_lower(#[trigger] comps[b].computer_name@),
            to_lower(#[trigger] comps[a].computer_name@),
        )
}

/// A row of the history view for group `row.software_key`.
pub open spec fn history_row_ok(snap: InventorySnapshot, f: HistoryFilter, row: HistoricalSoftwareEntry) -> bool {
    let k = row.software_key@;
    let n = snap.installations@.len() as int;
    &&& exists|i: int|
        #[trigger] first_of_group(snap, f, n, k, i) && row.software_name@
            == snap.installations@[i].software_name@ && row.publisher@ == display_publisher(
            snap.installations@[i].publisher@,
        )
    &&& lists_set(row.versions@, group_versions(snap, f, n, k))
    &&& row.host_count == row.computers@.len()
    &&& row.host_count == group_hosts(snap, f, n, k).len()
    &&& exists|ids: Seq<u64>| computers_match_ids(snap, f, n, k, row.computers@, ids)
    &&& computers_by_name(row.computers@)
}

/// Rows go by host count (descending), then lowercase software name.
pub open spec fn row_before(a: HistoricalSoftwareEntry, b: HistoricalSoftwareEntry) -> bool {
    a.host_count > b.host_count || (a.host_count == b.host_count && text_lt(
        to_lower(a.software_name@),
        to_lower(b.software_name@),
    ))
}


proof fn lemma_group_sets_step(snap: InventorySnapshot, f: HistoryFilter, n: int, k: Seq<char>, id: u64)
    requires
        0 <= n < snap.installations@.len(),
    ensures
        group_versions(snap, f, n + 1, k) == (if shown_in_group(snap, f, n + 1, k, n) && nonblank(
            snap.installations@[n].version_name@,
        ) {
            group_versions(snap, f, n, k).insert(snap.installations@[n].version_name@)
        } else {
            group_versions(snap, f, n, k)
        }),
        group_hosts(snap, f, n + 1, k) == (if shown_in_group(snap, f, n + 1, k, n) {
            group_hosts(snap, f, n, k).insert(snap.installations@[n].computer_id)
        } else {
            group_hosts(snap, f, n, k)
        }),
        host_versions(snap, f, n + 1, k, id) == (if shown_in_group(snap, f, n + 1, k, n)
            && snap.installations@[n].computer_id == id && nonblank(
            snap.installations@[n].version_name@,
        ) {
            host_versions(snap, f, n, k, id).insert(snap.installations@[n].version_name@)
        } else {
            host_versions(snap, f, n, k, id)
        }),
{
    let insts = snap.installations@;
    assert forall|j: int| 0 <= j < n implies shown_in_group(snap, f, n + 1, k, j) == shown_in_group(
        snap,
        f,
        n,
        k,
        j,
    ) by {}
    let gv1 = group_versions(snap, f, n + 1, k);
    let gv0 = group_versions(snap, f, n, k);
    let gv = if shown_in_group(snap, f, n + 1, k, n) && nonblank(insts[n].version_name@) {
        gv0.insert(insts[n].version_name@)
    } else {
        gv0
    };
    assert forall|v: Seq<char>| gv1.contains(v) <==> gv.contains(v) by {
        if gv1.contains(v) {
            let i = choose|i: int|
                #[trigger] shown_in_group(snap, f, n + 1, k, i) && nonblank(insts[i].version_name@)
                    && insts[i].version_name@ == v;
            if i < n {
                assert(shown_in_group(snap, f, n, k, i));
            }
        }
        if gv0.contains(v) {
            let i = choose|i: int|
                #[trigger] shown_in_group(snap, f, n, k, i) && nonblank(insts[i].version_name@)
                    && insts[i].version_name@ == v;
            assert(shown_in_group(snap, f, n + 1, k, i));
        }
        if gv.contains(v) && !gv0.contains(v) {
            assert(shown_in_group(snap, f, n + 1, k, n));
        }
    }
    assert(gv1 =~= gv);
    let gh1 = group_hosts(snap, f, n + 1, k);
    let gh0 = group_hosts(snap, f, n, k);
    let gh = if shown_in_group(snap, f, n + 1, k, n) {
        gh0.insert(insts[n].computer_id)
    } else {
        gh0
    };
    assert forall|x: u64| gh1.contains(x) <==> gh.contains(x) by {
        if gh1.contains(x) {
            let i = choose|i: int|
                #[trigger] shown_in_group(snap, f, n + 1, k, i) && insts[i].computer_id == x;
            if i < n {
                assert(shown_in_group(snap, f, n, k, i));
            }
        }
        if gh0.contains(x) {
            let i = choose|i: int| #[trigger] shown_in_group(snap, f, n, k, i) && insts[i].computer_id == x;
            assert(shown_in_group(snap, f, n + 1, k, i));
        }
        if gh.contains(x) && !gh0.contains(x) {
            assert(shown_in_group(snap, f, n + 1, k, n));
        }
    }
    assert(gh1 =~= gh);
    let hv1 = host_versions(snap, f, n + 1, k, id);
    let hv0 = host_versions(snap, f, n, k, id);
    let hv = if shown_in_group(snap, f, n + 1, k, n) && insts[n].computer_id == id && nonblank(
        insts[n].version_name@,
    ) {
        hv0.insert(insts[n].version_name@)
    } else {
        hv0
    };
    assert forall|v: Seq<char>| hv1.contains(v) <==> hv.contains(v) by {
        if hv1.contains(v) {
            let i = choose|i: int|
                #[trigger] shown_in_group(snap, f, n + 1, k, i) && insts[i].computer_id == id
                    && nonblank(insts[i].version_name@) && insts[i].version_name@ == v;
            if i < n {
                assert(shown_in_group(snap, f, n, k, i));
            }
        }
        if hv0.contains(v) {
            let i = choose|i: int|
                #[trigger] shown_in_group(snap, f, n, k, i) && insts[i].computer_id == id && nonblank(
                    insts[i].version_name@,
                ) && insts[i].version_name@ == v;
            assert(shown_in_group(snap, f, n + 1, k, i));
        }
        if hv.contains(v) && !hv0.contains(v) {
            assert(shown_in_group(snap, f, n + 1, k, n));
        }
    }
    assert(hv1 =~= hv);
}

/// The state gathered for one group while scanning the installations.
struct HistGroup {
    key: String,
    key_chars: Vec<char>,
    name: String,
    publisher: String,
    versions: Vec<String>,
    ids: Vec<u64>,
    comps: Vec<HistoricalComputerEntry>,
}

spec fn hist_group_ok(snap: InventorySnapshot, f: HistoryFilter, n: int, g: HistGroup) -> bool {
    let k = g.key@;
    &&& g.key_chars@ == k
    &&& exists|i: int|
        #[trigger] first_of_group(snap, f, n, k, i) && g.name@ == snap.installations@[i].software_name@
            && g.publisher@ == snap.installations@[i].publisher@
    &&& lists_set(g.versions@, group_versions(snap, f, n, k))
    &&& computers_match_ids(snap, f, n, k, g.comps@, g.ids@)
}

fn find_group(groups: &Vec<HistGroup>, key: &[char]) -> (r: Option<usize>)
    ensures
        match r {
            Some(g) => g < groups@.len() && groups@[g as int].key_chars@ == key@,
            None => forall|g: int| 0 <= g < groups@.len() ==> #[trigger] groups@[g].key_chars@ != key@,
        },
{
    let mut g: usize = 0;
    while g < groups.len()
        invariant
            g <= groups@.len(),
            forall|h: int| 0 <= h < g ==> #[trigger] groups@[h].key_chars@ != key@,
        decreases groups.len() - g,
    {
        if chars_eq(groups[g].key_chars.as_slice(), key) {
            return Some(g);
        }
        g = g + 1;
    }
    None
}

pub(crate) fn find_id(ids: &Vec<u64>, id: u64) -> (r: Option<usize>)
    ensures
        match r {
            Some(j) => j < ids@.len() && ids@[j as int] == id,
            None => !ids@.contains(id),
        },
{
    let mut j: usize = 0;
    while j < ids.len()
        invariant
            j <= ids@.len(),
            forall|h: int| 0 <= h < j ==> ids@[h] != id,
        decreases ids.len() - j,
    {
        if ids[j] == id {
            return Some(j);
        }
        j = j + 1;
    }
    None
}

/// `filter.trim().to_lowercase()` as characters.
fn filter_chars(filter: &str) -> (r: Vec<char>)
    ensures
        r@ == to_lower(trim(filter@)),
{
    let t = trim_str(filter);
    let l = lowercase(t.as_str());
    chars_of(l.as_str())
}

/// Whether `to_lower(field)` contains `f` (or `f` is empty).
fn field_matches_exec(field: &String, f: &Vec<char>) -> (r: bool)
    ensures
        r == field_matches(field@, f@),
{
    if f.len() == 0 {
        return true;
    }
    let l = lowercase(field.as_str());
    let lc = chars_of(l.as_str());
    chars_contains(lc.as_slice(), f.as_slice())
}

/// The key `"{normalized name}|{normalized publisher}"` as a string.
pub fn software_key_text(name: &str, publisher: &str) -> (r: String)
    ensures
        r@ == software_key(name@, publisher@),
{
    let mut k = normalize_for_grouping(name);
    k.append("|");
    let p = normalize_for_grouping(publisher);
    k.append(p.as_str());
    proof {
        reveal_strlit("|");
        assert("|"@ =~= seq!['|']);
    }
    k
}

/// Index of every computer id: the position of its last record.
fn computer_slots(cs: &Vec<SnapshotComputer>) -> (m: HashMap<u64, usize>)
    ensures
        forall|id: u64|
            match computer_slot(cs@, id) {
                Some(ci) => #[trigger] m@.contains_key(id) && m@[id] == ci && 0 <= ci < cs@.len(),
                None => !m@.contains_key(id),
            },
{
    let mut m: HashMap<u64, usize> = HashMap::new();
    let mut i: usize = 0;
    while i < cs.len()
        invariant
            i <= cs@.len(),
            forall|id: u64|
                match computer_slot_upto(cs@, id, i as int) {
                    Some(ci) => #[trigger] m@.contains_key(id) && m@[id] == ci && 0 <= ci < i,
                    None => !m@.contains_key(id),
                },
        decreases cs.len() - i,
    {
        m.insert(cs[i].id, i);
        i = i + 1;
    }
    m
}


/// A group not touched by installation `n` stays valid when `n` is scanned.
proof fn lemma_hist_group_untouched(snap: InventorySnapshot, f: HistoryFilter, n: int, g: HistGroup)
    requires
        0 <= n < snap.installations@.len(),
        hist_group_ok(snap, f, n, g),
        !shown_in_group(snap, f, n + 1, g.key@, n),
    ensures
        hist_group_ok(snap, f, n + 1, g),
{
    let k = g.key@;
    let i = choose|i: int|
        #[trigger] first_of_group(snap, f, n, k, i) && g.name@ == snap.installations@[i].software_name@
            && g.publisher@ == snap.installations@[i].publisher@;
    assert(first_of_group(snap, f, n + 1, k, i)) by {
        assert forall|j: int| 0 <= j < i implies !#[trigger] shown_in_group(snap, f, n + 1, k, j) by {
            assert(!shown_in_group(snap, f, n, k, j));
        }
    }
    lemma_group_sets_step(snap, f, n, k, 0);
    assert forall|j: int|
        0 <= j < g.ids@.len() implies match computer_slot(snap.computers@, #[trigger] g.ids@[j]) {
        Some(ci) => computer_entry_ok(
            g.comps@[j],
            snap.computers@[ci],
            host_versions(snap, f, n + 1, k, g.ids@[j]),
        ),
        None => false,
    } by {
        lemma_group_sets_step(snap, f, n, k, g.ids@[j]);
    }
}



spec fn scan_ok(snap: InventorySnapshot, f: HistoryFilter, n: int, groups: Seq<HistGroup>) -> bool {
    &&& forall|g: int| 0 <= g < groups.len() ==> hist_group_ok(snap, f, n, #[trigger] groups[g])
    &&& forall|a: int, b: int| 0 <= a < b < groups.len() ==> #[trigger] groups[a].key@ != #[trigger] groups[b].key@
    &&& forall|j: int|
        0 <= j < n && install_shown(snap, f, snap.installations@[j]) ==> exists|g: int|
            0 <= g < groups.len() && #[trigger] groups[g].key@ == install_key(snap.installations@[j])
}

proof fn lemma_scan_skip(snap: InventorySnapshot, f: HistoryFilter, n: int, groups: Seq<HistGroup>)
    requires
        0 <= n < snap.installations@.len(),
        scan_ok(snap, f, n, groups),
        !install_shown(snap, f, snap.installations@[n]),
    ensures
        scan_ok(snap, f, n + 1, groups),
{
    assert forall|g: int| 0 <= g < groups.len() implies hist_group_ok(snap, f, n + 1, #[trigger] groups[g]) by {
        lemma_hist_group_untouched(snap, f, n, groups[g]);
    }
}

/// An entry for computer `c` listing the one version `v` when it is non-blank.
spec fn fresh_entry(e: HistoricalComputerEntry, c: SnapshotComputer, v: Seq<char>) -> bool {
    &&& e.computer_name@ == c.name@
    &&& e.contact@ == c.contact@
    &&& e.serial_number@ == c.serial_number@
    &&& e.model@ == c.model@
    &&& e.last_inventory@ == c.last_inventory@
    &&& strictly_sorted(texts(e.versions@))
    &&& forall|y: Seq<char>| #[trigger] has_text(e.versions@, y) <==> (nonblank(v) && y == v)
}

proof fn lemma_scan_new(
    snap: InventorySnapshot,
    f: HistoryFilter,
    n: int,
    groups: Seq<HistGroup>,
    grp: HistGroup,
    ci: int,
)
    requires
        0 <= n < snap.installations@.len(),
        scan_ok(snap, f, n, groups),
        install_shown(snap, f, snap.installations@[n]),
        grp.key@ == install_key(snap.installations@[n]),
        forall|g: int| 0 <= g < groups.len() ==> #[trigger] groups[g].key@ != grp.key@,
        grp.key_chars@ == grp.key@,
        grp.name@ == snap.installations@[n].software_name@,
        grp.publisher@ == snap.installations@[n].publisher@,
        strictly_sorted(texts(grp.versions@)),
        forall|y: Seq<char>| #[trigger] has_text(grp.versions@, y) <==> (nonblank(
            snap.installations@[n].version_name@,
        ) && y == snap.installations@[n].version_name@),
        grp.ids@ == seq![snap.installations@[n].computer_id],
        grp.comps@.len() == 1,
        computer_slot(snap.computers@, snap.installations@[n].computer_id) == Some(ci),
        fresh_entry(grp.comps@[0], snap.computers@[ci], snap.installations@[n].version_name@),
    ensures
        scan_ok(snap, f, n + 1, groups.push(grp)),
{
    let k = grp.key@;
    let inst = snap.installations@[n];
    let cid = inst.computer_id;
    assert(shown_in_group(snap, f, n + 1, k, n));
    assert forall|g: int| 0 <= g < groups.len() implies hist_group_ok(snap, f, n + 1, #[trigger] groups[g]) by {
        lemma_hist_group_untouched(snap, f, n, groups[g]);
    }
    assert forall|j: int| 0 <= j < n implies !#[trigger] shown_in_group(snap, f, n + 1, k, j) by {
        if shown_in_group(snap, f, n + 1, k, j) {
            let g = choose|g: int|
                0 <= g < groups.len() && #[trigger] groups[g].key@ == install_key(snap.installations@[j]);
        }
    }
    assert(first_of_group(snap, f, n + 1, k, n));
    lemma_group_sets_step(snap, f, n, k, cid);
    assert(group_versions(snap, f, n, k) =~= Set::empty()) by {
        assert forall|v: Seq<char>| !group_versions(snap, f, n, k).contains(v) by {
            if group_versions(snap, f, n, k).contains(v) {
                let j = choose|j: int|
                    #[trigger] shown_in_group(snap, f, n, k, j) && nonblank(
                        snap.installations@[j].version_name@,
                    ) && snap.installations@[j].version_name@ == v;
                assert(shown_in_group(snap, f, n + 1, k, j));
            }
        }
    }
    assert(group_hosts(snap, f, n, k) =~= Set::empty()) by {
        assert forall|x: u64| !group_hosts(snap, f, n, k).contains(x) by {
            if group_hosts(snap, f, n, k).contains(x) {
                let j = choose|j: int|
                    #[trigger] shown_in_group(snap, f, n, k, j) && snap.installations@[j].computer_id == x;
                assert(shown_in_group(snap, f, n + 1, k, j));
            }
        }
    }
    assert(host_versions(snap, f, n, k, cid) =~= Set::empty()) by {
        assert forall|v: Seq<char>| !host_versions(snap, f, n, k, cid).contains(v) by {
            if host_versions(snap, f, n, k, cid).contains(v) {
                let j = choose|j: int|
                    #[trigger] shown_in_group(snap, f, n, k, j) && snap.installations@[j].computer_id
                        == cid && nonblank(snap.installations@[j].version_name@)
                        && snap.installations@[j].version_name@ == v;
                assert(shown_in_group(snap, f, n + 1, k, j));
            }
        }
    }
    assert forall|v: Seq<char>| #[trigger] group_versions(snap, f, n + 1, k).contains(v) <==> has_text(
        grp.versions@,
        v,
    ) by {}
    assert forall|v: Seq<char>| #[trigger] host_versions(snap, f, n + 1, k, cid).contains(v) <==> has_text(
        grp.comps@[0].versions@,
        v,
    ) by {}
    assert forall|id: u64| #[trigger] group_hosts(snap, f, n + 1, k).contains(id) <==> grp.ids@.contains(
        id,
    ) by {
        if id == cid {
            assert(grp.ids@[0] == cid);
        }
    }
    assert(computers_match_ids(snap, f, n + 1, k, grp.comps@, grp.ids@)) by {
        assert forall|j: int|
            0 <= j < grp.ids@.len() implies match computer_slot(snap.computers@, #[trigger] grp.ids@[j]) {
            Some(ci) => computer_entry_ok(
                grp.comps@[j],
                snap.computers@[ci],
                host_versions(snap, f, n + 1, k, grp.ids@[j]),
            ),
            None => false,
        } by {
            assert(j == 0);
        }
    }
    assert(hist_group_ok(snap, f, n + 1, grp));
    let gs = groups.push(grp);
    assert forall|g: int| 0 <= g < gs.len() implies hist_group_ok(snap, f, n + 1, #[trigger] gs[g]) by {
        if g < groups.len() {
            assert(gs[g] == groups[g]);
        }
    }
    assert forall|j: int|
        0 <= j < n + 1 && install_shown(snap, f, snap.installations@[j]) implies exists|g: int|
        0 <= g < gs.len() && #[trigger] gs[g].key@ == install_key(snap.installations@[j]) by {
        if j == n {
            assert(gs[groups.len() as int].key@ == k);
        } else {
            let g = choose|g: int|
                0 <= g < groups.len() && #[trigger] groups[g].key@ == install_key(snap.installations@[j]);
            assert(gs[g] == groups[g]);
        }
    }
}


/// `e2` is `e1` with version `v` added when it is non-blank.
spec fn entry_extended(e1: HistoricalComputerEntry, e2: HistoricalComputerEntry, v: Seq<char>) -> bool {
    &&& e2.computer_name@ == e1.computer_name@
    &&& e2.contact@ == e1.contact@
    &&& e2.serial_number@ == e1.serial_number@
    &&& e2.model@ == e1.model@
    &&& e2.last_inventory@ == e1.last_inventory@
    &&& strictly_sorted(texts(e2.versions@))
    &&& forall|y: Seq<char>| #[trigger] has_text(e2.versions@, y) <==> (has_text(e1.versions@, y) || (
        nonblank(v) && y == v))
}

/// One computer entry of a group after installation `n` was added to it.
#[verifier::spinoff_prover]
proof fn lemma_update_entry_at(
    snap: InventorySnapshot,
    f: HistoryFilter,
    n: int,
    old: HistGroup,
    grp: HistGroup,
    found: bool,
    j: int,
    ci: int,
    h: int,
)
    requires
        0 <= n < snap.installations@.len(),
        hist_group_ok(snap, f, n, old),
        install_shown(snap, f, snap.installations@[n]),
        old.key@ == install_key(snap.installations@[n]),
        computer_slot(snap.computers@, snap.installations@[n].computer_id) == Some(ci),
        0 <= h < grp.ids@.len(),
        found ==> {
            &&& 0 <= j < old.ids@.len()
            &&& old.ids@[j] == snap.installations@[n].computer_id
            &&& grp.ids@ == old.ids@
            &&& grp.comps@.len() == old.comps@.len()
            &&& forall|h: int| 0 <= h < grp.comps@.len() && h != j ==> grp.comps@[h] == old.comps@[h]
            &&& entry_extended(old.comps@[j], grp.comps@[j], snap.installations@[n].version_name@)
        },
        !found ==> {
            &&& !old.ids@.contains(snap.installations@[n].computer_id)
            &&& grp.ids@ == old.ids@.push(snap.installations@[n].computer_id)
            &&& grp.comps@.len() == old.comps@.len() + 1
            &&& forall|h: int| 0 <= h < old.comps@.len() ==> grp.comps@[h] == old.comps@[h]
            &&& fresh_entry(grp.comps@[old.comps@.len() as int], snap.computers@[ci], snap.installations@[n].version_name@)
        },
    ensures
        match computer_slot(snap.computers@, grp.ids@[h]) {
            Some(c) => computer_entry_ok(
                grp.comps@[h],
                snap.computers@[c],
                host_versions(snap, f, n + 1, old.key@, grp.ids@[h]),
            ),
            None => false,
        },
{
    let k = old.key@;
    let cid = snap.installations@[n].computer_id;
    let id = grp.ids@[h];
    lemma_group_sets_step(snap, f, n, k, id);
    if found {
        assert(old.ids@[h] == id);
        if h == j {
            assert forall|v: Seq<char>| #[trigger] host_versions(snap, f, n + 1, k, id).contains(v)
                <==> has_text(grp.comps@[h].versions@, v) by {
                assert(host_versions(snap, f, n, k, id).contains(v) <==> has_text(old.comps@[h].versions@, v));
            }
        } else {
            assert(grp.comps@[h] == old.comps@[h]);
            if id == cid {
                assert(old.ids@[j] == old.ids@[h]);
            }
        }
    } else {
        if h < old.ids@.len() {
            assert(old.ids@[h] == id);
            assert(grp.comps@[h] == old.comps@[h]);
            assert(id != cid) by {
                if id == cid {
                    assert(old.ids@.contains(cid));
                }
            }
        } else {
            assert(id == cid);
            assert(host_versions(snap, f, n, k, cid) =~= Set::empty()) by {
                assert forall|v: Seq<char>| !host_versions(snap, f, n, k, cid).contains(v) by {
                    if host_versions(snap, f, n, k, cid).contains(v) {
                        let j2 = choose|j2: int|
                            #[trigger] shown_in_group(snap, f, n, k, j2) && snap.installations@[j2].computer_id == cid
                                && nonblank(snap.installations@[j2].version_name@)
                                && snap.installations@[j2].version_name@ == v;
                        assert(group_hosts(snap, f, n, k).contains(cid));
                    }
                }
            }
            assert forall|v: Seq<char>| #[trigger] host_versions(snap, f, n + 1, k, id).contains(v)
                <==> has_text(grp.comps@[h].versions@, v) by {}
        }
    }
}


#[verifier::spinoff_prover]
#[verifier::rlimit(60)]
proof fn lemma_update_group(
    snap: InventorySnapshot,
    f: HistoryFilter,
    n: int,
    groups: Seq<HistGroup>,
    g: int,
    grp: HistGroup,
    found: bool,
    j: int,
    ci: int,
)
    requires
        0 <= n < snap.installations@.len(),
        scan_ok(snap, f, n, groups),
        install_shown(snap, f, snap.installations@[n]),
        0 <= g < groups.len(),
        groups[g].key@ == install_key(snap.installations@[n]),
        grp.key@ == groups[g].key@,
        grp.key_chars@ == groups[g].key_chars@,
        grp.name@ == groups[g].name@,
        grp.publisher@ == groups[g].publisher@,
        strictly_sorted(texts(grp.versions@)),
        forall|y: Seq<char>| #[trigger] has_text(grp.versions@, y) <==> (has_text(
            groups[g].versions@,
            y,
        ) || (nonblank(snap.installations@[n].version_name@) && y
            == snap.installations@[n].version_name@)),
        computer_slot(snap.computers@, snap.installations@[n].computer_id) == Some(ci),
        found ==> {
            &&& 0 <= j < groups[g].ids@.len()
            &&& groups[g].ids@[j] == snap.installations@[n].computer_id
            &&& grp.ids@ == groups[g].ids@
            &&& grp.comps@.len() == groups[g].comps@.len()
            &&& forall|h: int| 0 <= h < grp.comps@.len() && h != j ==> grp.comps@[h] == groups[g].comps@[h]
            &&& entry_extended(groups[g].comps@[j], grp.comps@[j], snap.installations@[n].version_name@)
        },
        !found ==> {
            &&& !groups[g].ids@.contains(snap.installations@[n].computer_id)
            &&& grp.ids@ == groups[g].ids@.push(snap.installations@[n].computer_id)
            &&& grp.comps@.len() == groups[g].comps@.len() + 1
            &&& forall|h: int| 0 <= h < groups[g].comps@.len() ==> grp.comps@[h] == groups[g].comps@[h]
            &&& fresh_entry(
                grp.comps@[groups[g].comps@.len() as int],
                snap.computers@[ci],
                snap.installations@[n].version_name@,
            )
        },
    ensures
        hist_group_ok(snap, f, n + 1, grp),
{
    let old = groups[g];
    let k = old.key@;
    let inst = snap.installations@[n];
    let cid = inst.computer_id;
    assert(shown_in_group(snap, f, n + 1, k, n));
    assert(hist_group_ok(snap, f, n, old));
    lemma_group_sets_step(snap, f, n, k, cid);
    let i0 = choose|i: int|
        #[trigger] first_of_group(snap, f, n, k, i) && old.name@ == snap.installations@[i].software_name@
            && old.publisher@ == snap.installations@[i].publisher@;
    assert(first_of_group(snap, f, n + 1, k, i0)) by {
        assert forall|j2: int| 0 <= j2 < i0 implies !#[trigger] shown_in_group(snap, f, n + 1, k, j2) by {
            assert(!shown_in_group(snap, f, n, k, j2));
        }
    }
    assert forall|v: Seq<char>| #[trigger] group_versions(snap, f, n + 1, k).contains(v) <==> has_text(
        grp.versions@,
        v,
    ) by {
        assert(group_versions(snap, f, n, k).contains(v) <==> has_text(old.versions@, v));
    }
    assert forall|id: u64| #[trigger] group_hosts(snap, f, n + 1, k).contains(id) <==> grp.ids@.contains(
        id,
    ) by {
        assert(group_hosts(snap, f, n, k).contains(id) <==> old.ids@.contains(id));
        if found {
            if id == cid {
                assert(old.ids@[j] == cid);
            }
        } else {
            if grp.ids@.contains(id) {
                let h = choose|h: int| 0 <= h < grp.ids@.len() && grp.ids@[h] == id;
                if h < old.ids@.len() {
                    assert(old.ids@[h] == id);
                }
            }
            if old.ids@.contains(id) {
                let h = choose|h: int| 0 <= h < old.ids@.len() && old.ids@[h] == id;
                assert(grp.ids@[h] == id);
            }
            if id == cid {
                assert(grp.ids@[old.ids@.len() as int] == cid);
            }
        }
    }
    assert forall|a: int, b: int| 0 <= a < b < grp.ids@.len() implies #[trigger] grp.ids@[a]
        != #[trigger] grp.ids@[b] by {
        if !found && b == old.ids@.len() {
            assert(grp.ids@[a] == old.ids@[a]);
        } else if !found {
            assert(grp.ids@[a] == old.ids@[a] && grp.ids@[b] == old.ids@[b]);
        }
    }
    assert(hist_group_ok(snap, f, n, old));
    assert forall|h: int|
        0 <= h < grp.ids@.len() implies match computer_slot(snap.computers@, #[trigger] grp.ids@[h]) {
        Some(c) => computer_entry_ok(grp.comps@[h], snap.computers@[c], host_versions(snap, f, n + 1, k, grp.ids@[h])),
        None => false,
    } by {
        lemma_update_entry_at(snap, f, n, old, grp, found, j, ci, h);
    }
    assert(hist_group_ok(snap, f, n + 1, grp));
}

#[verifier::spinoff_prover]
proof fn lemma_scan_update(
    snap: InventorySnapshot,
    f: HistoryFilter,
    n: int,
    groups: Seq<HistGroup>,
    g: int,
    grp: HistGroup,
    found: bool,
    j: int,
    ci: int,
)
    requires
        0 <= n < snap.installations@.len(),
        scan_ok(snap, f, n, groups),
        install_shown(snap, f, snap.installations@[n]),
        0 <= g < groups.len(),
        groups[g].key@ == install_key(snap.installations@[n]),
        grp.key@ == groups[g].key@,
        grp.key_chars@ == groups[g].key_chars@,
        grp.name@ == groups[g].name@,
        grp.publisher@ == groups[g].publisher@,
        strictly_sorted(texts(grp.versions@)),
        forall|y: Seq<char>| #[trigger] has_text(grp.versions@, y) <==> (has_text(
            groups[g].versions@,
            y,
        ) || (nonblank(snap.installations@[n].version_name@) && y
            == snap.installations@[n].version_name@)),
        computer_slot(snap.computers@, snap.installations@[n].computer_id) == Some(ci),
        found ==> {
            &&& 0 <= j < groups[g].ids@.len()
            &&& groups[g].ids@[j] == snap.installations@[n].computer_id
            &&& grp.ids@ == groups[g].ids@
            &&& grp.comps@.len() == groups[g].comps@.len()
            &&& forall|h: int| 0 <= h < grp.comps@.len() && h != j ==> grp.comps@[h] == groups[g].comps@[h]
            &&& entry_extended(groups[g].comps@[j], grp.comps@[j], snap.installations@[n].version_name@)
        },
        !found ==> {
            &&& !groups[g].ids@.contains(snap.installations@[n].computer_id)
            &&& grp.ids@ == groups[g].ids@.push(snap.installations@[n].computer_id)
            &&& grp.comps@.len() == groups[g].comps@.len() + 1
            &&& forall|h: int| 0 <= h < groups[g].comps@.len() ==> grp.comps@[h] == groups[g].comps@[h]
            &&& fresh_entry(
                grp.comps@[groups[g].comps@.len() as int],
                snap.computers@[ci],
                snap.installations@[n].version_name@,
            )
        },
    ensures
        scan_ok(snap, f, n + 1, groups.update(g, grp)),
{
    let old = groups[g];
    let k = old.key@;
    let inst = snap.installations@[n];
    let cid = inst.computer_id;
    lemma_update_group(snap, f, n, groups, g, grp, found, j, ci);
    let gs = groups.update(g, grp);
    assert forall|x: int| 0 <= x < gs.len() implies hist_group_ok(snap, f, n + 1, #[trigger] gs[x]) by {
        if x != g {
            assert(gs[x] == groups[x]);
            assert(groups[x].key@ != k);
            lemma_hist_group_untouched(snap, f, n, groups[x]);
        }
    }
    assert forall|a: int, b: int| 0 <= a < b < gs.len() implies #[trigger] gs[a].key@ != #[trigger] gs[b].key@ by {
        assert(groups[a].key@ != groups[b].key@);
    }
    assert forall|j2: int|
        0 <= j2 < n + 1 && install_shown(snap, f, snap.installations@[j2]) implies exists|x: int|
        0 <= x < gs.len() && #[trigger] gs[x].key@ == install_key(snap.installations@[j2]) by {
        if j2 == n {
            assert(gs[g].key@ == k);
        } else {
            let x = choose|x: int|
                0 <= x < groups.len() && #[trigger] groups[x].key@ == install_key(snap.installations@[j2]);
            assert(gs[x].key@ == groups[x].key@);
        }
    }
}


fn new_entry(c: &SnapshotComputer, version: &String, nb: bool) -> (e: HistoricalComputerEntry)
    requires
        nb == nonblank(version@),
    ensures
        fresh_entry(e, *c, version@),
{
    let mut versions: Vec<String> = Vec::new();
    if nb {
        versions.push(version.clone());
    }
    let e = HistoricalComputerEntry {
        computer_name: c.name.clone(),
        contact: c.contact.clone(),
        serial_number: c.serial_number.clone(),
        model: c.model.clone(),
        last_inventory: c.last_inventory.clone(),
        versions: versions,
    };
    assert forall|y: Seq<char>| #[trigger] has_text(e.versions@, y) <==> (nonblank(version@) && y
        == version@) by {
        if nb && y == version@ {
            assert(e.versions@[0]@ == y);
        }
    }
    e
}

fn pc_matches_exec(c: &SnapshotComputer, cf: &Vec<char>) -> (r: bool)
    ensures
        r == computer_matches(*c, cf@),
{
    if cf.len() == 0 {
        return true;
    }
    let ln = lowercase(c.name.as_str());
    let vn = chars_of(ln.as_str());
    if chars_contains(vn.as_slice(), cf.as_slice()) {
        return true;
    }
    let lc = lowercase(c.contact.as_str());
    let vc = chars_of(lc.as_str());
    if chars_contains(vc.as_slice(), cf.as_slice()) {
        return true;
    }
    let ls = lowercase(c.serial_number.as_str());
    let vs = chars_of(ls.as_str());
    chars_contains(vs.as_slice(), cf.as_slice())
}

/// Adds installation `n` to the existing group at position `g`.
#[verifier::spinoff_prover]
#[verifier::rlimit(40)]
fn extend_group(
    groups: &mut Vec<HistGroup>,
    g: usize,
    inst: &SnapshotInstallation,
    c: &SnapshotComputer,
    nb: bool,
    Ghost(snap): Ghost<InventorySnapshot>,
    Ghost(f): Ghost<HistoryFilter>,
    Ghost(n): Ghost<int>,
    Ghost(slot): Ghost<int>,
)
    requires
        0 <= n < snap.installations@.len(),
        *inst == snap.installations@[n],
        scan_ok(snap, f, n, old(groups)@),
        install_shown(snap, f, snap.installations@[n]),
        g < old(groups)@.len(),
        old(groups)@[g as int].key_chars@ == install_key(*inst),
        computer_slot(snap.computers@, inst.computer_id) == Some(slot),
        0 <= slot < snap.computers@.len(),
        *c == snap.computers@[slot],
        nb == nonblank(inst.version_name@),
    ensures
        scan_ok(snap, f, n + 1, final(groups)@),
{
    proof {
        assert(hist_group_ok(snap, f, n, old(groups)@[g as int]));
    }
    let ghost before = groups@;
    let mut grp = groups.remove(g);
    proof {
        assert(grp == before[g as int]);
        assert(hist_group_ok(snap, f, n, grp));
    }
    let ghost old_grp = grp;
    if nb {
        insert_text(&mut grp.versions, inst.version_name.clone());
    }
    let found = find_id(&grp.ids, inst.computer_id);
    let mut jj: usize = 0;
    match found {
        Some(j) => {
            jj = j;
            proof {
                let k = old_grp.key@;
                assert(grp.ids@[j as int] == inst.computer_id);
                assert(computers_match_ids(snap, f, n, k, old_grp.comps@, old_grp.ids@));
                assert(computer_entry_ok(
                    old_grp.comps@[j as int],
                    snap.computers@[slot],
                    host_versions(snap, f, n, k, inst.computer_id),
                ));
            }
            let mut e = grp.comps.remove(j);
            let ghost old_e = e;
            if nb {
                insert_text(&mut e.versions, inst.version_name.clone());
            }
            grp.comps.insert(j, e);
            proof {
                assert(grp.comps@ =~= old_grp.comps@.update(j as int, e));
                assert(entry_extended(old_e, e, inst.version_name@));
            }
        },
        None => {
            let entry = new_entry(c, &inst.version_name, nb);
            grp.ids.push(inst.computer_id);
            grp.comps.push(entry);
        },
    }
    proof {
        assert forall|y: Seq<char>| #[trigger] has_text(grp.versions@, y) <==> (has_text(
            old_grp.versions@,
            y,
        ) || (nonblank(inst.version_name@) && y == inst.version_name@)) by {}
        lemma_scan_update(
            snap,
            f,
            n,
            before,
            g as int,
            grp,
            found is Some,
            jj as int,
            slot as int,
        );
    }
    groups.insert(g, grp);
    proof {
        assert(groups@ =~= before.update(g as int, grp));
    }
}

/// Scans the installations into groups keyed by normalized name and publisher.
#[verifier::rlimit(60)]
fn scan_history_groups(snapshot: &InventorySnapshot, sf: &Vec<char>, pf: &Vec<char>, cf: &Vec<char>) -> (groups:
    Vec<HistGroup>)
    ensures
        scan_ok(
            *snapshot,
            HistoryFilter { software: sf@, publisher: pf@, pc: cf@ },
            snapshot.installations@.len() as int,
            groups@,
        ),
{
    let ghost f = HistoryFilter { software: sf@, publisher: pf@, pc: cf@ };
    let ghost snap = *snapshot;
    let slots = computer_slots(&snapshot.computers);
    let mut groups: Vec<HistGroup> = Vec::new();
    let mut i: usize = 0;
    while i < snapshot.installations.len()
        invariant
            i <= snapshot.installations@.len(),
            snap == *snapshot,
            f == (HistoryFilter { software: sf@, publisher: pf@, pc: cf@ }),
            forall|id: u64|
                match computer_slot(snapshot.computers@, id) {
                    Some(ci) => #[trigger] slots@.contains_key(id) && slots@[id] == ci && 0 <= ci
                        < snapshot.computers@.len(),
                    None => !slots@.contains_key(id),
                },
            scan_ok(snap, f, i as int, groups@),
        decreases snapshot.installations.len() - i,
    {
        let inst = &snapshot.installations[i];
        let ghost n = i as int;
        let mut shown = false;
        let mut slot: usize = 0;
        match slots.get(&inst.computer_id) {
            Some(ci) => {
                slot = *ci;
                let c = &snapshot.computers[slot];
                shown = field_matches_exec(&inst.software_name, sf) && field_matches_exec(
                    &inst.publisher,
                    pf,
                ) && pc_matches_exec(c, cf);
            },
            None => {},
        }
        if !shown {
            proof {
                lemma_scan_skip(snap, f, n, groups@);
            }
        } else {
            let key = software_key_text(inst.software_name.as_str(), inst.publisher.as_str());
            let kc = chars_of(key.as_str());
            let nb = !is_blank(inst.version_name.as_str());
            let c = &snapshot.computers[slot];
            let cid = inst.computer_id;
            match find_group(&groups, kc.as_slice()) {
                None => {
                    let mut versions: Vec<String> = Vec::new();
                    if nb {
                        versions.push(inst.version_name.clone());
                    }
                    proof {
                        assert forall|y: Seq<char>| #[trigger] has_text(versions@, y) <==> (nonblank(
                            inst.version_name@,
                        ) && y == inst.version_name@) by {
                            if nb && y == inst.version_name@ {
                                assert(versions@[0]@ == y);
                            }
                        }
                    }
                    let entry = new_entry(c, &inst.version_name, nb);
                    let mut ids: Vec<u64> = Vec::new();
                    ids.push(cid);
                    let mut comps: Vec<HistoricalComputerEntry> = Vec::new();
                    comps.push(entry);
                    let grp = HistGroup {
                        key: key,
                        key_chars: kc,
                        name: inst.software_name.clone(),
                        publisher: inst.publisher.clone(),
                        versions: versions,
                        ids: ids,
                        comps: comps,
                    };
                    proof {
                        assert forall|g: int| 0 <= g < groups@.len() implies #[trigger] groups@[g].key@
                            != grp.key@ by {
                            assert(hist_group_ok(snap, f, n, groups@[g]));
                        }
                        assert(grp.ids@ =~= seq![cid]);
                        lemma_scan_new(snap, f, n, groups@, grp, slot as int);
                    }
                    groups.push(grp);
                },
                Some(g) => {
                    extend_group(&mut groups, g, inst, c, nb, Ghost(snap), Ghost(f), Ghost(n), Ghost(slot as int));
                },
            }
        }
        i = i + 1;
    }
    groups
}


spec fn comp_triple_ok(
    snap: InventorySnapshot,
    f: HistoryFilter,
    n: int,
    k: Seq<char>,
    t: (String, u64, HistoricalComputerEntry),
) -> bool {
    &&& t.0@ == to_lower(t.2.computer_name@)
    &&& match computer_slot(snap.computers@, t.1) {
        Some(ci) => computer_entry_ok(t.2, snap.computers@[ci], host_versions(snap, f, n, k, t.1)),
        None => false,
    }
}

spec fn triple_id(t: (String, u64, HistoricalComputerEntry)) -> u64 {
    t.1
}

spec fn triple_lt(a: (String, u64, HistoricalComputerEntry), b: (String, u64, HistoricalComputerEntry)) -> bool {
    text_lt(a.0@, b.0@)
}

proof fn lemma_triple_lt_strict()
    ensures
        crate::sorting::strict_order(|a, b| triple_lt(a, b)),
{
    assert forall|a: (String, u64, HistoricalComputerEntry), b: (String, u64, HistoricalComputerEntry), c: (
        String,
        u64,
        HistoricalComputerEntry,
    )| #[trigger] triple_lt(a, b) && #[trigger] triple_lt(b, c) implies triple_lt(a, c) by {
        crate::text::lemma_text_lt_transitive(a.0@, b.0@, c.0@);
    }
    assert forall|a: (String, u64, HistoricalComputerEntry), b: (String, u64, HistoricalComputerEntry)| #[trigger]
        triple_lt(a, b) implies !triple_lt(b, a) by {
        crate::text::lemma_text_lt_asymmetric(a.0@, b.0@);
    }
}

fn triple_less(a: &(String, u64, HistoricalComputerEntry), b: &(String, u64, HistoricalComputerEntry)) -> (r: bool)
    ensures
        r == triple_lt(*a, *b),
{
    crate::sorted_texts::str_lt_string(&a.0, &b.0)
}

/// Lists a group's computers by lowercase name.
fn sorted_computers(snapshot: &InventorySnapshot, Ghost(f): Ghost<HistoryFilter>, Ghost(k): Ghost<Seq<char>>, ids: Vec<u64>, comps: Vec<HistoricalComputerEntry>) -> (r: (Vec<HistoricalComputerEntry>, Ghost<Seq<u64>>))
    requires
        computers_match_ids(*snapshot, f, snapshot.installations@.len() as int, k, comps@, ids@),
    ensures
        computers_match_ids(*snapshot, f, snapshot.installations@.len() as int, k, r.0@, r.1@),
        computers_by_name(r.0@),
{
    let ghost snap = *snapshot;
    let ghost n = snapshot.installations@.len() as int;
    let mut triples: Vec<(String, u64, HistoricalComputerEntry)> = Vec::new();
    let mut src = comps;
    let ghost orig = src@;
    let mut j: usize = 0;
    while j < ids.len()
        invariant
            j <= ids@.len() == orig.len(),
            src@ == orig.skip(j as int),
            triples@.len() == j,
            snap == *snapshot,
            computers_match_ids(snap, f, n, k, orig, ids@),
            forall|t: int| 0 <= t < j ==> #[trigger] triples@[t].1 == ids@[t] && triples@[t].2 == orig[t],
            forall|t: int| 0 <= t < j ==> comp_triple_ok(snap, f, n, k, #[trigger] triples@[t]),
        decreases ids.len() - j,
    {
        let e = src.remove(0);
        assert(e == orig[j as int]);
        assert(src@ =~= orig.skip(j + 1));
        let l = lowercase(e.computer_name.as_str());
        let id = ids[j];
        triples.push((l, id, e));
        j = j + 1;
    }
    proof {
        lemma_triple_lt_strict();
    }
    let (sorted, Ghost(p)) = sort_by_lt(
        triples,
        triple_less,
        Ghost(|a, b| triple_lt(a, b)),
    );
    let ghost tr = triples@;
    proof {
        crate::sorting::lemma_rearranged_all(sorted@, tr, p, |t| comp_triple_ok(snap, f, n, k, t));
        crate::sorting::lemma_rearranged_distinct(sorted@, tr, p, |t: (String, u64, HistoricalComputerEntry)| triple_id(t));
        assert forall|a: int, b: int| 0 <= a < b < sorted@.len() implies triple_id(#[trigger] sorted@[a]) != triple_id(#[trigger] sorted@[b]) by {
            assert((|t: (String, u64, HistoricalComputerEntry)| triple_id(t))(sorted@[a]) != (|t: (String, u64, HistoricalComputerEntry)| triple_id(t))(sorted@[b]));
        }
    }
    let mut out: Vec<HistoricalComputerEntry> = Vec::new();
    let ghost mut out_ids: Seq<u64> = Seq::empty();
    let mut rest = sorted;
    let ghost srt = rest@;
    let mut t: usize = 0;
    let total = rest.len();
    while t < total
        invariant
            t <= total == srt.len(),
            rest@ == srt.skip(t as int),
            out@.len() == t,
            out_ids.len() == t,
            forall|x: int| 0 <= x < t ==> #[trigger] out@[x] == srt[x].2,
            forall|x: int| 0 <= x < t ==> #[trigger] out_ids[x] == srt[x].1,
        decreases total - t,
    {
        let (_, _, e) = rest.remove(0);
        assert(rest@ =~= srt.skip(t + 1));
        out.push(e);
        proof {
            out_ids = out_ids.push(srt[t as int].1);
        }
        t = t + 1;
    }
    proof {
        assert forall|a: int, b: int| 0 <= a < b < out_ids.len() implies #[trigger] out_ids[a]
            != #[trigger] out_ids[b] by {
            assert(triple_id(srt[a]) != triple_id(srt[b]));
        }
        assert forall|id: u64| #[trigger] group_hosts(snap, f, n, k).contains(id) <==> out_ids.contains(id) by {
            if group_hosts(snap, f, n, k).contains(id) {
                assert(ids@.contains(id));
                let j0 = choose|j0: int| 0 <= j0 < ids@.len() && ids@[j0] == id;
                assert(tr[j0].1 == id);
                crate::sorting::lemma_rearranged_onto(srt, tr, p, j0);
                let i0 = choose|i0: int| 0 <= i0 < srt.len() && srt[i0] == tr[j0];
                assert(out_ids[i0] == id);
            }
            if out_ids.contains(id) {
                let i0 = choose|i0: int| 0 <= i0 < out_ids.len() && out_ids[i0] == id;
                assert(srt[i0] == tr[p[i0]]);
                assert(ids@[p[i0]] == id);
                assert(ids@.contains(id));
            }
        }
        assert forall|x: int| 0 <= x < out_ids.len() implies match computer_slot(snap.computers@, #[trigger] out_ids[x]) {
            Some(ci) => computer_entry_ok(out@[x], snap.computers@[ci], host_versions(snap, f, n, k, out_ids[x])),
            None => false,
        } by {
            assert(comp_triple_ok(snap, f, n, k, srt[x]));
        }
        assert forall|a: int, b: int| 0 <= a < b < out@.len() implies !text_lt(
            to_lower(#[trigger] out@[b].computer_name@),
            to_lower(#[trigger] out@[a].computer_name@),
        ) by {
            assert(comp_triple_ok(snap, f, n, k, srt[a]));
            assert(comp_triple_ok(snap, f, n, k, srt[b]));
            assert(!triple_lt(srt[b], srt[a]));
        }
    }
    (out, Ghost(out_ids))
}


pub(crate) proof fn lemma_ids_count(s: Seq<u64>, set: Set<u64>)
    requires
        forall|a: int, b: int| 0 <= a < b < s.len() ==> #[trigger] s[a] != #[trigger] s[b],
        forall|id: u64| #[trigger] set.contains(id) <==> s.contains(id),
    ensures
        set.len() == s.len(),
{
    assert(s.no_duplicates()) by {
        assert forall|a: int, b: int| 0 <= a < s.len() && 0 <= b < s.len() && a != b implies s[a] != s[b] by {
            if a < b {
                assert(s[a] != s[b]);
            } else {
                assert(s[b] != s[a]);
            }
        }
    }
    s.unique_seq_to_set();
    assert(set =~= s.to_set());
}

/// Turns a scanned group into its row.
fn finish_group(snapshot: &InventorySnapshot, Ghost(f): Ghost<HistoryFilter>, grp: HistGroup) -> (row: HistoricalSoftwareEntry)
    requires
        hist_group_ok(*snapshot, f, snapshot.installations@.len() as int, grp),
    ensures
        history_row_ok(*snapshot, f, row),
        row.software_key@ == grp.key@,
{
    let ghost snap = *snapshot;
    let ghost n = snapshot.installations@.len() as int;
    let ghost k = grp.key@;
    let (computers, Ghost(ids)) = sorted_computers(snapshot, Ghost(f), Ghost(k), grp.ids, grp.comps);
    let publisher = if is_blank(grp.publisher.as_str()) {
        proof {
            reveal_strlit("Unknown");
        }
        "Unknown".to_owned()
    } else {
        grp.publisher
    };
    let host_count = computers.len();
    let row = HistoricalSoftwareEntry {
        software_key: grp.key,
        software_name: grp.name,
        publisher: publisher,
        host_count: host_count,
        versions: grp.versions,
        computers: computers,
    };
    proof {
        lemma_ids_count(ids, group_hosts(snap, f, n, k));
        let i = choose|i: int|
            #[trigger] first_of_group(snap, f, n, k, i) && grp.name@ == snap.installations@[i].software_name@
                && grp.publisher@ == snap.installations@[i].publisher@;
        assert(first_of_group(snap, f, n, k, i) && row.software_name@ == snap.installations@[i].software_name@
            && row.publisher@ == display_publisher(snap.installations@[i].publisher@));
        assert(computers_match_ids(snap, f, n, k, row.computers@, ids));
        assert(lists_set(row.versions@, group_versions(snap, f, n, k)));
        assert(row.host_count == row.computers@.len());
        assert(row.host_count == group_hosts(snap, f, n, k).len());
        assert(computers_by_name(row.computers@));
        assert(exists|i: int|
        #[trigger] first_of_group(snap, f, n, k, i) && row.software_name@
            == snap.installations@[i].software_name@ && row.publisher@ == display_publisher(
            snap.installations@[i].publisher@,
        ));
        assert(exists|ids: Seq<u64>| computers_match_ids(snap, f, n, k, row.computers@, ids));
        assert(history_row_ok(snap, f, row));
    }
    row
}

spec fn keyed_row_lt(a: (String, HistoricalSoftwareEntry), b: (String, HistoricalSoftwareEntry)) -> bool {
    a.1.host_count > b.1.host_count || (a.1.host_count == b.1.host_count && text_lt(a.0@, b.0@))
}

fn keyed_row_less(a: &(String, HistoricalSoftwareEntry), b: &(String, HistoricalSoftwareEntry)) -> (r: bool)
    ensures
        r == keyed_row_lt(*a, *b),
{
    a.1.host_count > b.1.host_count || (a.1.host_count == b.1.host_count
        && crate::sorted_texts::str_lt_string(&a.0, &b.0))
}

proof fn lemma_keyed_row_lt_strict()
    ensures
        crate::sorting::strict_order(|a, b| keyed_row_lt(a, b)),
{
    assert forall|a: (String, HistoricalSoftwareEntry), b: (String, HistoricalSoftwareEntry), c: (
        String,
        HistoricalSoftwareEntry,
    )| #[trigger] keyed_row_lt(a, b) && #[trigger] keyed_row_lt(b, c) implies keyed_row_lt(a, c) by {
        if a.1.host_count == b.1.host_count && b.1.host_count == c.1.host_count {
            crate::text::lemma_text_lt_transitive(a.0@, b.0@, c.0@);
        }
    }
    assert forall|a: (String, HistoricalSoftwareEntry), b: (String, HistoricalSoftwareEntry)| #[trigger]
        keyed_row_lt(a, b) implies !keyed_row_lt(b, a) by {
        if a.1.host_count == b.1.host_count {
            crate::text::lemma_text_lt_asymmetric(a.0@, b.0@);
        }
    }
}

spec fn keyed_row_key(t: (String, HistoricalSoftwareEntry)) -> Seq<char> {
    t.1.software_key@
}

spec fn keyed_row_ok(snap: InventorySnapshot, f: HistoryFilter, t: (String, HistoricalSoftwareEntry)) -> bool {
    t.0@ == to_lower(t.1.software_name@) && history_row_ok(snap, f, t.1)
}

/// What `build_historical_software_view` returns for filter `f`: one valid row per
/// software group, no key twice, every shown installation in some row, rows in order.
pub open spec fn historical_view_ok(snapshot: InventorySnapshot, f: HistoryFilter, rows: Seq<HistoricalSoftwareEntry>) -> bool {
    &&& forall|r: int| 0 <= r < rows.len() ==> history_row_ok(snapshot, f, #[trigger] rows[r])
    &&& forall|a: int, b: int|
        0 <= a < b < rows.len() ==> #[trigger] rows[a].software_key@ != #[trigger] rows[b].software_key@
    &&& forall|i: int|
        0 <= i < snapshot.installations@.len() && install_shown(
            snapshot,
            f,
            #[trigger] snapshot.installations@[i],
        ) ==> exists|r: int|
            0 <= r < rows.len() && #[trigger] rows[r].software_key@ == install_key(
                snapshot.installations@[i],
            )
    &&& sorted_by(rows, |a, b| row_before(a, b))
}

/// An installation whose software name and publisher contain the software and
/// publisher filters, and whose computer's name, contact or serial number contains
/// the PC filter (ignoring case and the filters' surrounding blanks; a blank
/// filter matches everything), is shown: some row of the view is its software.
pub proof fn lemma_pc_filter_matches_computer(
    snapshot: InventorySnapshot,
    software_filter: Seq<char>,
    publisher_filter: Seq<char>,
    pc_filter: Seq<char>,
    rows: Seq<HistoricalSoftwareEntry>,
    i: int,
)
    requires
        historical_view_ok(snapshot, history_filter(software_filter, publisher_filter, pc_filter), rows),
        0 <= i < snapshot.installations@.len(),
        ({
            let sf = to_lower(trim(software_filter));
            sf.len() == 0 || contains(to_lower(snapshot.installations@[i].software_name@), sf)
        }),
        ({
            let pf = to_lower(trim(publisher_filter));
            pf.len() == 0 || contains(to_lower(snapshot.installations@[i].publisher@), pf)
        }),
        computer_slot(snapshot.computers@, snapshot.installations@[i].computer_id) is Some,
        ({
            let c = snapshot.computers@[computer_slot(
                snapshot.computers@,
                snapshot.installations@[i].computer_id,
            )->0];
            let pf = to_lower(trim(pc_filter));
            pf.len() == 0 || contains(to_lower(c.name@), pf) || contains(to_lower(c.contact@), pf) || contains(
                to_lower(c.serial_number@),
                pf,
            )
        }),
    ensures
        exists|r: int|
            0 <= r < rows.len() && #[trigger] rows[r].software_key@ == install_key(snapshot.installations@[i]),
{
    let f = history_filter(software_filter, publisher_filter, pc_filter);
    assert(install_shown(snapshot, f, snapshot.installations@[i]));
}

/// Every row of the view is the software of some installation that passes all
/// three filters: its computer is known, its software name and publisher contain
/// the software and publisher filters, and its computer's name, contact or serial
/// number contains the PC filter (ignoring case and the filters' surrounding
/// blanks; a blank filter matches everything).
pub proof fn lemma_view_rows_pass_filters(
    snapshot: InventorySnapshot,
    software_filter: Seq<char>,
    publisher_filter: Seq<char>,
    pc_filter: Seq<char>,
    rows: Seq<HistoricalSoftwareEntry>,
    r: int,
)
    requires
        historical_view_ok(snapshot, history_filter(software_filter, publisher_filter, pc_filter), rows),
        0 <= r < rows.len(),
    ensures
        exists|i: int|
            0 <= i < snapshot.installations@.len() && install_key(#[trigger] snapshot.installations@[i])
                == rows[r].software_key@ && computer_slot(
                snapshot.computers@,
                snapshot.installations@[i].computer_id,
            ) is Some && ({
                let inst = snapshot.installations@[i];
                let c = snapshot.computers@[computer_slot(snapshot.computers@, inst.computer_id)->0];
                let sf = to_lower(trim(software_filter));
                let pbf = to_lower(trim(publisher_filter));
                let pf = to_lower(trim(pc_filter));
                &&& sf.len() == 0 || contains(to_lower(inst.software_name@), sf)
                &&& pbf.len() == 0 || contains(to_lower(inst.publisher@), pbf)
                &&& pf.len() == 0 || contains(to_lower(c.name@), pf) || contains(to_lower(c.contact@), pf)
                    || contains(to_lower(c.serial_number@), pf)
            }),
{
    let f = history_filter(software_filter, publisher_filter, pc_filter);
    let n = snapshot.installations@.len() as int;
    let k = rows[r].software_key@;
    assert(history_row_ok(snapshot, f, rows[r]));
    let i = choose|i: int|
        #[trigger] first_of_group(snapshot, f, n, k, i) && rows[r].software_name@
            == snapshot.installations@[i].software_name@ && rows[r].publisher@ == display_publisher(
            snapshot.installations@[i].publisher@,
        );
    assert(shown_in_group(snapshot, f, n, k, i));
    assert(install_key(snapshot.installations@[i]) == k);
}

/// Groups a snapshot's installations by software (normalized name and publisher),
/// keeping only those matching the software, publisher and PC filters
/// (case-insensitive substrings; a blank filter matches everything).
pub fn build_historical_software_view(
    snapshot: &InventorySnapshot,
    software_filter: &str,
    publisher_filter: &str,
    pc_filter: &str,
) -> (rows: Vec<HistoricalSoftwareEntry>)
    ensures
        historical_view_ok(*snapshot, history_filter(software_filter@, publisher_filter@, pc_filter@), rows@),
{
    let sf = filter_chars(software_filter);
    let pf = filter_chars(publisher_filter);
    let cf = filter_chars(pc_filter);
    let ghost f = HistoryFilter { software: sf@, publisher: pf@, pc: cf@ };
    let ghost snap = *snapshot;
    let ghost n = snapshot.installations@.len() as int;
    let groups = scan_history_groups(snapshot, &sf, &pf, &cf);
    let ghost gs = groups@;
    let mut keyed: Vec<(String, HistoricalSoftwareEntry)> = Vec::new();
    let mut src = groups;
    let mut j: usize = 0;
    let total = src.len();
    while j < total
        invariant
            j <= total == gs.len(),
            src@ == gs.skip(j as int),
            keyed@.len() == j,
            snap == *snapshot,
            n == snapshot.installations@.len() as int,
            scan_ok(snap, f, n, gs),
            forall|t: int| 0 <= t < j ==> keyed_row_ok(snap, f, #[trigger] keyed@[t]),
            forall|t: int| 0 <= t < j ==> #[trigger] keyed@[t].1.software_key@ == gs[t].key@,
        decreases total - j,
    {
        let grp = src.remove(0);
        assert(grp == gs[j as int]);
        assert(src@ =~= gs.skip(j + 1));
        assert(hist_group_ok(snap, f, n, gs[j as int]));
        assert(hist_group_ok(*snapshot, f, snapshot.installations@.len() as int, grp));
        let row = finish_group(snapshot, Ghost(f), grp);
        let l = lowercase(row.software_name.as_str());
        keyed.push((l, row));
        j = j + 1;
    }
    proof {
        lemma_keyed_row_lt_strict();
    }
    let ghost kv = keyed@;
    let (sorted, Ghost(p)) = sort_by_lt(keyed, keyed_row_less, Ghost(|a, b| keyed_row_lt(a, b)));
    proof {
        crate::sorting::lemma_rearranged_all(sorted@, kv, p, |t| keyed_row_ok(snap, f, t));
        assert forall|a: int, b: int| 0 <= a < b < kv.len() implies keyed_row_key(#[trigger] kv[a]) != keyed_row_key(#[trigger] kv[b]) by {
            assert(gs[a].key@ != gs[b].key@);
        }
        crate::sorting::lemma_rearranged_distinct(sorted@, kv, p, |t| keyed_row_key(t));
        assert forall|a: int, b: int| 0 <= a < b < sorted@.len() implies keyed_row_key(#[trigger] sorted@[a]) != keyed_row_key(#[trigger] sorted@[b]) by {
            assert((|t| keyed_row_key(t))(sorted@[a]) != (|t| keyed_row_key(t))(sorted@[b]));
        }
    }
    let mut rows: Vec<HistoricalSoftwareEntry> = Vec::new();
    let mut rest = sorted;
    let ghost srt = rest@;
    let mut t: usize = 0;
    let count = rest.len();
    while t < count
        invariant
            t <= count == srt.len(),
            rest@ == srt.skip(t as int),
            rows@.len() == t,
            forall|x: int| 0 <= x < t ==> #[trigger] rows@[x] == srt[x].1,
        decreases count - t,
    {
        let (_, row) = rest.remove(0);
        assert(rest@ =~= srt.skip(t + 1));
        rows.push(row);
        t = t + 1;
    }
    proof {
        assert forall|r: int| 0 <= r < rows@.len() implies history_row_ok(snap, f, #[trigger] rows@[r]) by {
            assert(keyed_row_ok(snap, f, srt[r]));
        }
        assert forall|a: int, b: int| 0 <= a < b < rows@.len() implies #[trigger] rows@[a].software_key@
            != #[trigger] rows@[b].software_key@ by {
            assert(keyed_row_key(srt[a]) != keyed_row_key(srt[b]));
        }
        assert forall|i: int|
            0 <= i < n && install_shown(snap, f, #[trigger] snap.installations@[i]) implies exists|r: int|
            0 <= r < rows@.len() && #[trigger] rows@[r].software_key@ == install_key(snap.installations@[i]) by {
            let g = choose|g: int| 0 <= g < gs.len() && #[trigger] gs[g].key@ == install_key(snap.installations@[i]);
            crate::sorting::lemma_rearranged_onto(srt, kv, p, g);
            let r = choose|r: int| 0 <= r < srt.len() && srt[r] == kv[g];
            assert(rows@[r].software_key@ == kv[g].1.software_key@);
        }
        assert forall|a: int, b: int| 0 <= a < b < rows@.len() implies !row_before(#[trigger] rows@[b], #[trigger] rows@[a]) by {
            assert(keyed_row_ok(snap, f, srt[a]));
            assert(keyed_row_ok(snap, f, srt[b]));
            assert(!keyed_row_lt(srt[b], srt[a]));
        }
    }
    rows
}


// ---------------------------------------------------------------------------
// The snapshot list
// ---------------------------------------------------------------------------
/// Newest capture time (as text) first; equal times keep their order.
pub open spec fn summary_before(a: (SnapshotSummary, usize), b: (SnapshotSummary, usize)) -> bool {
    text_lt(b.0.captured_at@, a.0.captured_at@) || (a.0.captured_at@ == b.0.captured_at@ && a.1 < b.1)
}

fn summary_less(a: &(SnapshotSummary, usize), b: &(SnapshotSummary, usize)) -> (r: bool)
    ensures
        r == summary_before(*a, *b),
{
    crate::text::str_lt(b.0.captured_at.as_str(), a.0.captured_at.as_str()) || (crate::text::str_eq(
        a.0.captured_at.as_str(),
        b.0.captured_at.as_str(),
    ) && a.1 < b.1)
}

proof fn lemma_summary_before_strict()
    ensures
        crate::sorting::strict_order(|a: (SnapshotSummary, usize), b: (SnapshotSummary, usize)| summary_before(a, b)),
{
    assert forall|a: (SnapshotSummary, usize), b: (SnapshotSummary, usize), c: (SnapshotSummary, usize)|
        #[trigger] summary_before(a, b) && #[trigger] summary_before(b, c) implies summary_before(a, c) by {
        if text_lt(b.0.captured_at@, a.0.captured_at@) && text_lt(c.0.captured_at@, b.0.captured_at@) {
            crate::text::lemma_text_lt_transitive(c.0.captured_at@, b.0.captured_at@, a.0.captured_at@);
        }
    }
    assert forall|a: (SnapshotSummary, usize), b: (SnapshotSummary, usize)| #[trigger] summary_before(a, b) implies !summary_before(
        b,
        a,
    ) by {
        if text_lt(b.0.captured_at@, a.0.captured_at@) {
            crate::text::lemma_text_lt_asymmetric(b.0.captured_at@, a.0.captured_at@);
        } else {
            crate::text::lemma_text_lt_irreflexive(a.0.captured_at@);
        }
    }
}

/// The snapshot list ordered newest first by capture time (compared as text);
/// snapshots with equal times keep their order.
pub fn sort_newest_first(summaries: Vec<SnapshotSummary>) -> (r: Vec<SnapshotSummary>)
    ensures
        exists|p: Seq<int>|
            #[trigger] rearranged(r@, summaries@, p) && forall|a: int, b: int|
                0 <= a < b < r@.len() ==> text_lt(#[trigger] r@[b].captured_at@, #[trigger] r@[a].captured_at@) || (
                r@[a].captured_at@ == r@[b].captured_at@ && p[a] < p[b]),
{
    let ghost orig = summaries@;
    let mut pairs: Vec<(SnapshotSummary, usize)> = Vec::new();
    let mut src = summaries;
    let n = src.len();
    let mut k: usize = 0;
    while k < n
        invariant
            n == orig.len(),
            k <= n,
            src@ == orig.skip(k as int),
            pairs@.len() == k,
            forall|i: int| 0 <= i < k ==> (#[trigger] pairs@[i]).0 == orig[i] && pairs@[i].1 == i,
        decreases n - k,
    {
        let s = src.remove(0);
        proof {
            assert(orig.skip(k as int)[0] == orig[k as int]);
            assert(src@ =~= orig.skip(k + 1));
        }
        let ghost before = pairs@;
        pairs.push((s, k));
        proof {
            assert forall|i: int| 0 <= i < k + 1 implies (#[trigger] pairs@[i]).0 == orig[i] && pairs@[i].1 == i by {
                if i < k {
                    assert(pairs@[i] == before[i]);
                }
            }
        }
        k = k + 1;
    }
    proof {
        lemma_summary_before_strict();
    }
    let ghost pv = pairs@;
    let (sorted, Ghost(p)) = sort_by_lt(
        pairs,
        summary_less,
        Ghost(|a: (SnapshotSummary, usize), b: (SnapshotSummary, usize)| summary_before(a, b)),
    );
    let mut out: Vec<SnapshotSummary> = Vec::new();
    let mut rest = sorted;
    let ghost sv = rest@;
    let m = rest.len();
    let mut j: usize = 0;
    while j < m
        invariant
            m == sv.len(),
            j <= m,
            rest@ == sv.skip(j as int),
            out@.len() == j,
            forall|i: int| 0 <= i < j ==> #[trigger] out@[i] == sv[i].0,
        decreases m - j,
    {
        let x = rest.remove(0);
        proof {
            assert(sv.skip(j as int)[0] == sv[j as int]);
            assert(rest@ =~= sv.skip(j + 1));
        }
        out.push(x.0);
        j = j + 1;
    }
    proof {
        assert(rearranged(out@, orig, p)) by {
            assert forall|i: int| 0 <= i < out@.len() implies #[trigger] out@[i] == orig[p[i]] by {
                assert(sv[i] == pv[p[i]]);
            }
        }
        assert forall|a: int, b: int| 0 <= a < b < out@.len() implies text_lt(
            #[trigger] out@[b].captured_at@,
            #[trigger] out@[a].captured_at@,
        ) || (out@[a].captured_at@ == out@[b].captured_at@ && p[a] < p[b]) by {
            assert(!(|x: (SnapshotSummary, usize), y: (SnapshotSummary, usize)| summary_before(x, y))(sv[b], sv[a]));
            assert(sv[a] == pv[p[a]]);
            assert(sv[b] == pv[p[b]]);
            if out@[a].captured_at@ != out@[b].captured_at@ {
                crate::text::lemma_text_lt_total(out@[a].captured_at@, out@[b].captured_at@);
            } else {
                assert(p[a] != p[b]);
            }
        }
    }
    out
}

} // verus!
