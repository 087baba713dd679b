//! The software list of one computer: what is installed now (from the
//! aggregated inventory), what was installed at a snapshot, and what the history
//! shows as removed; with the filters of the PC software panel.
use crate::date_util::{first_day, opt_view, parse_date, parsed_date, CalendarDate};
use crate::models::{
    AggregatedSoftware, InventorySnapshot, PcLogAction, PcSoftwareLogEntry, SnapshotInstallation, SnapshotSummary,
    VersionDetail,
};
use crate::sorting::{rearranged, sort_by_lt};
use crate::sorted_texts::{has_text, insert_text, lists_set, strictly_sorted, text_set, texts};
use crate::date_util::trim_end_char;
use crate::inventory::text_or_empty;
use crate::text::{byte_prefix_or_all, chars_byte_prefix_or_all, chars_rfind, rfind};
use crate::text::{
    char_is_ascii_digit, char_is_ascii_hex, chars_of, chars_starts_with, contains, is_ascii_digit,
    is_ascii_hex, is_blank, join, lowercase, starts_with, str_contains, string_from_chars, to_lower, trim,
    trim_chars, trim_str,
};
use vstd::prelude::*;

verus! {

broadcast use vstd::std_specs::hash::group_hash_axioms;

// ---------------------------------------------------------------------------
// What to hide
// ---------------------------------------------------------------------------
pub open spec fn guid_char(c: char) -> bool {
    is_ascii_hex(c) || c == '-'
}

/// Names kept from Microsoft: products, not parts of Windows.
pub open spec fn ms_product(n: Seq<char>) -> bool {
    ||| contains(n, "office"@)
    ||| contains(n, "visual studio"@)
    ||| contains(n, "sql server"@)
    ||| contains(n, "teams"@)
    ||| contains(n, ".net framework"@)
    ||| contains(n, "visual c++"@)
    ||| contains(n, "powershell"@)
    ||| contains(n, "azure"@)
    ||| contains(n, "onedrive"@)
    ||| contains(n, "edge"@)
    ||| contains(n, "xbox"@)
    ||| contains(n, "skype"@)
    ||| contains(n, "onenote"@)
    ||| contains(n, "outlook"@)
    ||| contains(n, "excel"@)
    ||| contains(n, "word"@)
    ||| contains(n, "powerpoint"@)
    ||| contains(n, "access"@)
    ||| contains(n, "publisher"@)
}

/// Names of Windows parts.
pub open spec fn windows_part(n: Seq<char>) -> bool {
    ||| contains(n, "windows"@)
    ||| contains(n, "microsoft."@)
    ||| contains(n, "alkalmazásfeloldó"@)
    ||| contains(n, "asynctextservice"@)
    ||| contains(n, "asztali alkalmazás"@)
    ||| contains(n, "a microsoft"@)
    ||| contains(n, "a windows"@)
}

/// A part of Windows rather than a product: a name of at least 30 hex digits and
/// '-' (a package id), or Microsoft software whose lower-cased name names no
/// product but a Windows part, or whose publisher is "platform extensions".
/// (A name made of hex digits and '-' has as many bytes as characters.)
pub open spec fn windows_component(name: Seq<char>, publisher: Seq<char>) -> bool {
    let pl = to_lower(publisher);
    let nl = to_lower(name);
    if name.len() >= 30 && (forall|i: int| 0 <= i < name.len() ==> #[trigger] guid_char(name[i])) {
        true
    } else if !contains(pl, "microsoft"@) {
        false
    } else if ms_product(nl) {
        false
    } else {
        windows_part(nl) || contains(pl, "platform extensions"@)
    }
}

fn all_guid_chars(v: &Vec<char>) -> (r: bool)
    ensures
        r == (forall|i: int| 0 <= i < v@.len() ==> #[trigger] guid_char(v@[i])),
{
    let mut i: usize = 0;
    while i < v.len()
        invariant
            i <= v@.len(),
            forall|k: int| 0 <= k < i ==> #[trigger] guid_char(v@[k]),
        decreases v.len() - i,
    {
        if !(char_is_ascii_hex(v[i]) || v[i] == '-') {
            assert(!guid_char(v@[i as int]));
            return false;
        }
        i = i + 1;
    }
    true
}

fn names_ms_product(n: &str) -> (r: bool)
    ensures
        r == ms_product(n@),
{
    str_contains(n, "office") || str_contains(n, "visual studio") || str_contains(n, "sql server")
        || str_contains(n, "teams") || str_contains(n, ".net framework") || str_contains(n, "visual c++")
        || str_contains(n, "powershell") || str_contains(n, "azure") || str_contains(n, "onedrive")
        || str_contains(n, "edge") || str_contains(n, "xbox") || str_contains(n, "skype")
        || str_contains(n, "onenote") || str_contains(n, "outlook") || str_contains(n, "excel")
        || str_contains(n, "word") || str_contains(n, "powerpoint") || str_contains(n, "access")
        || str_contains(n, "publisher")
}

fn names_windows_part(n: &str) -> (r: bool)
    ensures
        r == windows_part(n@),
{
    str_contains(n, "windows") || str_contains(n, "microsoft.") || str_contains(n, "alkalmazásfeloldó")
        || str_contains(n, "asynctextservice") || str_contains(n, "asztali alkalmazás") || str_contains(
        n,
        "a microsoft",
    ) || str_contains(n, "a windows")
}

pub fn is_windows_component(name: &str, publisher: &str) -> (r: bool)
    ensures
        r == windows_component(name@, publisher@),
{
    let pub_lower = lowercase(publisher);
    let name_lower = lowercase(name);
    let v = chars_of(name);
    if v.len() >= 30 && all_guid_chars(&v) {
        return true;
    }
    if !str_contains(pub_lower.as_str(), "microsoft") {
        return false;
    }
    if names_ms_product(name_lower.as_str()) {
        return false;
    }
    if names_windows_part(name_lower.as_str()) {
        return true;
    }
    str_contains(pub_lower.as_str(), "platform extensions")
}

/// A Windows update: the trimmed, lower-cased name starts with "kb" and a digit,
/// or holds "(kb" and ")", or holds "kb" and one of "update for", "hotfix for",
/// "security update".
pub open spec fn kb_update(name: Seq<char>) -> bool {
    let l = to_lower(trim(name));
    ||| l.len() > 2 && starts_with(l, "kb"@) && is_ascii_digit(l[2])
    ||| contains(l, "(kb"@) && contains(l, ")"@)
    ||| (contains(l, "update for"@) || contains(l, "hotfix for"@) || contains(l, "security update"@))
        && contains(l, "kb"@)
}

pub fn is_kb_update(name: &str) -> (r: bool)
    ensures
        r == kb_update(name@),
{
    let n = trim_str(name);
    let lower = lowercase(n.as_str());
    let lv = chars_of(lower.as_str());
    let kb = chars_of("kb");
    if lv.len() > 2 && chars_starts_with(lv.as_slice(), kb.as_slice()) && char_is_ascii_digit(lv[2]) {
        return true;
    }
    let l = lower.as_str();
    if str_contains(l, "(kb") && str_contains(l, ")") {
        return true;
    }
    if (str_contains(l, "update for") || str_contains(l, "hotfix for") || str_contains(l, "security update"))
        && str_contains(l, "kb") {
        return true;
    }
    false
}

// ---------------------------------------------------------------------------
// The snapshot range
// ---------------------------------------------------------------------------
/// The file name of the newest snapshot (the list's head), or nothing.
pub fn snapshot_head_fingerprint(snapshots: &[SnapshotSummary]) -> (r: String)
    ensures
        snapshots@.len() > 0 ==> r@ == snapshots@[0].file_name@,
        snapshots@.len() == 0 ==> r@.len() == 0,
{
    if snapshots.len() > 0 {
        snapshots[0].file_name.clone()
    } else {
        String::new()
    }
}

/// One end of the snapshot range: a blank field means `default_day`; otherwise
/// the trimmed text must read as a date.
pub open spec fn range_end(s: Seq<char>, default_day: int) -> Option<int> {
    if trim(s).len() == 0 {
        Some(default_day)
    } else {
        match parsed_date(trim(s)) {
            Some(d) => Some(d.days as int),
            None => None,
        }
    }
}

/// The snapshot range typed in the panel, seen on day `today`: from 120 days
/// back and to 60 days back when left blank; refused when an end does not read
/// as a date or the range runs backwards.
pub open spec fn hist_range(from_s: Seq<char>, to_s: Seq<char>, today: int) -> Option<(int, int)> {
    match (range_end(from_s, today - 120), range_end(to_s, today - 60)) {
        (Some(f), Some(t)) => if f > t {
            None
        } else {
            Some((f, t))
        },
        _ => None,
    }
}

fn range_end_exec(s: &str, default_day: i32) -> (r: Option<i32>)
    ensures
        match r {
            Some(d) => range_end(s@, default_day as int) == Some(d as int),
            None => range_end(s@, default_day as int) is None,
        },
{
    let t = trim_str(s);
    if t.as_str().is_empty() {
        return Some(default_day);
    }
    match parse_date(t.as_str()) {
        Some(d) => Some(d.days),
        None => None,
    }
}

pub fn resolve_hist_date_range(from_s: &str, to_s: &str, today: i32) -> (r: Result<(i32, i32), ()>)
    requires
        today - 120 >= first_day(),
    ensures
        match r {
            Ok((f, t)) => hist_range(from_s@, to_s@, today as int) == Some((f as int, t as int)),
            Err(()) => hist_range(from_s@, to_s@, today as int) is None,
        },
{
    let from_d = match range_end_exec(from_s, today - 120) {
        Some(d) => d,
        None => return Err(()),
    };
    let to_d = match range_end_exec(to_s, today - 60) {
        Some(d) => d,
        None => return Err(()),
    };
    if from_d > to_d {
        return Err(());
    }
    Ok((from_d, to_d))
}

// ---------------------------------------------------------------------------
// Rows
// ---------------------------------------------------------------------------
/// A line of the PC software table.
#[derive(Debug, Clone)]
pub struct PcSoftwareRow {
    pub name: String,
    pub publisher: String,
    pub version: String,
    pub last_install: String,
    pub last_updated: String,
    pub last_agent_pull: String,
    pub is_deleted: bool,
    pub deleted_date: String,
}

/// A row as plain values, field by field.
pub type RowView = (Seq<char>, Seq<char>, Seq<char>, Seq<char>, Seq<char>, Seq<char>, bool, Seq<char>);

pub open spec fn row_view(r: PcSoftwareRow) -> RowView {
    (r.name@, r.publisher@, r.version@, r.last_install@, r.last_updated@, r.last_agent_pull@, r.is_deleted, r.deleted_date@)
}

pub open spec fn row_views(s: Seq<PcSoftwareRow>) -> Seq<RowView> {
    s.map_values(|r: PcSoftwareRow| row_view(r))
}

/// The rows `want`, sorted by lower-cased name; rows with equal lower-cased
/// names keep their order in `want`.
pub open spec fn sorted_rows_ok(want: Seq<RowView>, r: Seq<PcSoftwareRow>) -> bool {
    exists|p: Seq<int>|
        #[trigger] rearranged(row_views(r), want, p) && forall|a: int, b: int|
            0 <= a < b < r.len() ==> crate::text::text_lt(to_lower(#[trigger] r[a].name@), to_lower(#[trigger] r[b].name@))
                || (to_lower(r[a].name@) == to_lower(r[b].name@) && p[a] < p[b])
}

/// A row with its lower-cased name and its position before sorting.
pub struct RankedRow {
    pub row: PcSoftwareRow,
    pub lower: String,
    pub pos: usize,
}

pub open spec fn ranked_row_before(a: RankedRow, b: RankedRow) -> bool {
    crate::text::text_lt(a.lower@, b.lower@) || (a.lower@ == b.lower@ && a.pos < b.pos)
}

fn ranked_row_less(a: &RankedRow, b: &RankedRow) -> (r: bool)
    ensures
        r == ranked_row_before(*a, *b),
{
    crate::text::str_lt(a.lower.as_str(), b.lower.as_str()) || (crate::text::str_eq(a.lower.as_str(), b.lower.as_str())
        && a.pos < b.pos)
}

proof fn lemma_ranked_row_strict()
    ensures
        crate::sorting::strict_order(|a: RankedRow, b: RankedRow| ranked_row_before(a, b)),
{
    assert forall|a: RankedRow, b: RankedRow, c: RankedRow| #[trigger] ranked_row_before(a, b) && #[trigger] ranked_row_before(
        b,
        c,
    ) implies ranked_row_before(a, c) by {
        if crate::text::text_lt(a.lower@, b.lower@) && crate::text::text_lt(b.lower@, c.lower@) {
            crate::text::lemma_text_lt_transitive(a.lower@, b.lower@, c.lower@);
        }
    }
    assert forall|a: RankedRow, b: RankedRow| #[trigger] ranked_row_before(a, b) implies !ranked_row_before(b, a) by {
        if crate::text::text_lt(a.lower@, b.lower@) {
            crate::text::lemma_text_lt_asymmetric(a.lower@, b.lower@);
        } else {
            crate::text::lemma_text_lt_irreflexive(a.lower@);
        }
    }
}

fn copy_row(r: &PcSoftwareRow) -> (c: PcSoftwareRow)
    ensures
        c == *r,
{
    PcSoftwareRow {
        name: r.name.clone(),
        publisher: r.publisher.clone(),
        version: r.version.clone(),
        last_install: r.last_install.clone(),
        last_updated: r.last_updated.clone(),
        last_agent_pull: r.last_agent_pull.clone(),
        is_deleted: r.is_deleted,
        deleted_date: r.deleted_date.clone(),
    }
}

/// Rows collected with their lower-cased names, in collection order.
pub open spec fn ranked_ok(rows: Seq<RankedRow>, want: Seq<RowView>) -> bool {
    &&& rows.len() == want.len()
    &&& forall|i: int|
        0 <= i < rows.len() ==> row_view((#[trigger] rows[i]).row) == want[i] && rows[i].pos == i && rows[i].lower@
            == to_lower(rows[i].row.name@)
}

fn push_row(rows: &mut Vec<RankedRow>, row: PcSoftwareRow, Ghost(want): Ghost<Seq<RowView>>)
    requires
        ranked_ok(old(rows)@, want),
    ensures
        ranked_ok(final(rows)@, want.push(row_view(row))),
{
    let lower = lowercase(row.name.as_str());
    let pos = rows.len();
    let ghost before = rows@;
    rows.push(RankedRow { row, lower, pos });
    proof {
        let w2 = want.push(row_view(rows@[pos as int].row));
        assert forall|i: int| 0 <= i < rows@.len() implies row_view((#[trigger] rows@[i]).row) == w2[i] && rows@[i].pos
            == i && rows@[i].lower@ == to_lower(rows@[i].row.name@) by {
            if i < before.len() {
                assert(rows@[i] == before[i]);
            }
        }
    }
}

/// Sorts collected rows by lower-cased name, keeping collection order among equals.
fn sort_rows(rows: Vec<RankedRow>, Ghost(want): Ghost<Seq<RowView>>) -> (r: Vec<PcSoftwareRow>)
    requires
        ranked_ok(rows@, want),
    ensures
        sorted_rows_ok(want, r@),
{
    proof {
        lemma_ranked_row_strict();
    }
    let ghost rv = rows@;
    let (sorted, Ghost(p)) = sort_by_lt(rows, ranked_row_less, Ghost(|a: RankedRow, b: RankedRow| ranked_row_before(a, b)));
    let mut out: Vec<PcSoftwareRow> = Vec::new();
    let mut k: usize = 0;
    while k < sorted.len()
        invariant
            k <= sorted@.len(),
            out@.len() == k,
            forall|i: int| 0 <= i < k ==> #[trigger] out@[i] == sorted@[i].row,
        decreases sorted.len() - k,
    {
        out.push(copy_row(&sorted[k].row));
        k = k + 1;
    }
    proof {
        assert(rearranged(row_views(out@), want, p)) by {
            assert forall|i: int| 0 <= i < out@.len() implies #[trigger] row_views(out@)[i] == want[p[i]] by {
                assert(sorted@[i] == rv[p[i]]);
            }
        }
        assert forall|a: int, b: int| 0 <= a < b < out@.len() implies crate::text::text_lt(
            to_lower(#[trigger] out@[a].name@),
            to_lower(#[trigger] out@[b].name@),
        ) || (to_lower(out@[a].name@) == to_lower(out@[b].name@) && p[a] < p[b]) by {
            assert(!(|x: RankedRow, y: RankedRow| ranked_row_before(x, y))(sorted@[b], sorted@[a]));
            assert(sorted@[a] == rv[p[a]]);
            assert(sorted@[b] == rv[p[b]]);
            if to_lower(out@[a].name@) != to_lower(out@[b].name@) {
                crate::text::lemma_text_lt_total(to_lower(out@[a].name@), to_lower(out@[b].name@));
            } else {
                assert(p[a] != p[b]);
            }
        }
    }
    out
}

/// The texts joined with `sep`.
pub fn join_texts(parts: &Vec<String>, sep: &str) -> (r: String)
    ensures
        r@ == join(texts(parts@), sep@),
{
    let mut v: Vec<char> = Vec::new();
    let sepv = chars_of(sep);
    let mut k: usize = 0;
    while k < parts.len()
        invariant
            k <= parts@.len(),
            sepv@ == sep@,
            v@ == join(texts(parts@).take(k as int), sep@),
        decreases parts.len() - k,
    {
        let ghost before = texts(parts@).take(k as int);
        if k > 0 {
            crate::history_store::append_chars(&mut v, &sepv);
        }
        let part = chars_of(parts[k].as_str());
        crate::history_store::append_chars(&mut v, &part);
        proof {
            assert(texts(parts@).take(k as int + 1) =~= before.push(parts@[k as int]@));
            crate::text::lemma_join_push(before, sep@, parts@[k as int]@);
        }
        k = k + 1;
    }
    assert(texts(parts@).take(parts@.len() as int) =~= texts(parts@));
    string_from_chars(v.as_slice())
}

// ---------------------------------------------------------------------------
// Installed now
// ---------------------------------------------------------------------------
/// The filter text as matched: trimmed and lower-cased.
pub open spec fn filter_key(filter: Seq<char>) -> Seq<char> {
    to_lower(trim(filter))
}

/// The software is installed on the computer and passes the panel's filters.
pub open spec fn live_shown(sw: AggregatedSoftware, pc: u64, fl: Seq<char>, hide_windows: bool, hide_kb: bool) -> bool {
    &&& sw.host_ids@.contains(pc)
    &&& !(hide_windows && windows_component(sw.name@, sw.publisher@))
    &&& !(hide_kb && kb_update(sw.name@))
    &&& (fl.len() == 0 || contains(sw.name_lower@, fl) || contains(sw.publisher_lower@, fl))
}

/// The names of the first `n` versions installed on the computer.
pub open spec fn pc_version_names(vs: Seq<VersionDetail>, pc: u64, n: int) -> Seq<Seq<char>>
    decreases n,
{
    if n <= 0 {
        Seq::empty()
    } else if vs[n - 1].host_ids@.contains(pc) {
        pc_version_names(vs, pc, n - 1).push(vs[n - 1].version_name@)
    } else {
        pc_version_names(vs, pc, n - 1)
    }
}

/// The greatest install date among the first `n` versions installed on the computer.
pub open spec fn pc_last_install(vs: Seq<VersionDetail>, pc: u64, n: int) -> Option<Seq<char>>
    decreases n,
{
    if n <= 0 {
        None
    } else {
        let prev = pc_last_install(vs, pc, n - 1);
        if vs[n - 1].host_ids@.contains(pc) && vs[n - 1].last_install_date is Some {
            let d = vs[n - 1].last_install_date->0@;
            match prev {
                Some(b) => if crate::text::text_lt(b, d) {
                    Some(d)
                } else {
                    Some(b)
                },
                None => Some(d),
            }
        } else {
            prev
        }
    }
}

/// A date text that is not empty and reads as a day on or after `cutoff`.
pub open spec fn recent_date(d: Seq<char>, cutoff: int) -> bool {
    d.len() > 0 && match parsed_date(d) {
        Some(nd) => nd.days >= cutoff,
        None => false,
    }
}

/// The row of an installed software.
pub open spec fn live_row(sw: AggregatedSoftware, pc: u64, fallback: Seq<char>) -> RowView {
    let names = pc_version_names(sw.versions@, pc, sw.versions@.len() as int);
    let joined = join(names, ", "@);
    let pull = match opt_view(sw.last_agent_pull) {
        Some(p) => if p.len() > 0 {
            p
        } else {
            fallback
        },
        None => fallback,
    };
    (
        sw.name@,
        sw.publisher@,
        if joined.len() == 0 {
            sw.latest_version@
        } else {
            joined
        },
        text_or_empty(pc_last_install(sw.versions@, pc, sw.versions@.len() as int)),
        text_or_empty(opt_view(sw.last_updated)),
        pull,
        false,
        Seq::empty(),
    )
}

/// The row passes the time filter: without a cutoff always; with one when its
/// last install or last update is recent.
pub open spec fn live_in_time(row: RowView, cutoff: Option<i32>) -> bool {
    match cutoff {
        Some(c) => recent_date(row.3, c as int) || recent_date(row.4, c as int),
        None => true,
    }
}

/// The rows of the first `n` software entries, in inventory order.
pub open spec fn live_rows(
    all: Seq<AggregatedSoftware>,
    pc: u64,
    fl: Seq<char>,
    hide_windows: bool,
    hide_kb: bool,
    cutoff: Option<i32>,
    fallback: Seq<char>,
    n: int,
) -> Seq<RowView>
    decreases n,
{
    if n <= 0 {
        Seq::empty()
    } else {
        let prev = live_rows(all, pc, fl, hide_windows, hide_kb, cutoff, fallback, n - 1);
        let sw = all[n - 1];
        if live_shown(sw, pc, fl, hide_windows, hide_kb) && live_in_time(live_row(sw, pc, fallback), cutoff) {
            prev.push(live_row(sw, pc, fallback))
        } else {
            prev
        }
    }
}

fn shown_exec(sw: &AggregatedSoftware, pc: u64, fl: &str, hide_windows: bool, hide_kb: bool) -> (r: bool)
    ensures
        r == live_shown(*sw, pc, fl@, hide_windows, hide_kb),
{
    if !sw.host_ids.contains(&pc) {
        return false;
    }
    if hide_windows && is_windows_component(sw.name.as_str(), sw.publisher.as_str()) {
        return false;
    }
    if hide_kb && is_kb_update(sw.name.as_str()) {
        return false;
    }
    if fl.is_empty() {
        return true;
    }
    str_contains(sw.name_lower.as_str(), fl) || str_contains(sw.publisher_lower.as_str(), fl)
}

fn recent_exec(d: &str, cutoff: i32) -> (r: bool)
    ensures
        r == recent_date(d@, cutoff as int),
{
    if d.is_empty() {
        return false;
    }
    match parse_date(d) {
        Some(nd) => nd.days >= cutoff,
        None => false,
    }
}

fn live_row_exec(sw: &AggregatedSoftware, pc: u64, fallback: &str) -> (r: PcSoftwareRow)
    ensures
        row_view(r) == live_row(*sw, pc, fallback@),
{
    let mut names: Vec<String> = Vec::new();
    let mut best: Option<String> = None;
    let mut k: usize = 0;
    while k < sw.versions.len()
        invariant
            k <= sw.versions@.len(),
            texts(names@) == pc_version_names(sw.versions@, pc, k as int),
            opt_view(best) == pc_last_install(sw.versions@, pc, k as int),
        decreases sw.versions.len() - k,
    {
        let v = &sw.versions[k];
        if v.host_ids.contains(&pc) {
            let ghost before = names@;
            names.push(v.version_name.clone());
            assert(texts(names@) =~= texts(before).push(v.version_name@));
            match &v.last_install_date {
                Some(d) => {
                    best = match best {
                        Some(b) => if crate::text::str_lt(b.as_str(), d.as_str()) {
                            Some(d.clone())
                        } else {
                            Some(b)
                        },
                        None => Some(d.clone()),
                    };
                },
                None => {},
            }
        }
        k = k + 1;
    }
    let joined = join_texts(&names, ", ");
    let version = if joined.as_str().is_empty() {
        sw.latest_version.clone()
    } else {
        joined
    };
    let pull = match &sw.last_agent_pull {
        Some(p) => if p.as_str().is_empty() {
            fallback.to_owned()
        } else {
            p.clone()
        },
        None => fallback.to_owned(),
    };
    PcSoftwareRow {
        name: sw.name.clone(),
        publisher: sw.publisher.clone(),
        version,
        last_install: match best {
            Some(b) => b,
            None => String::new(),
        },
        last_updated: match &sw.last_updated {
            Some(u) => u.clone(),
            None => String::new(),
        },
        last_agent_pull: pull,
        is_deleted: false,
        deleted_date: String::new(),
    }
}

/// The software installed on computer `pc` that the panel shows: installed
/// there, not hidden, matching the filter text (trimmed, lower-cased) in its
/// lower-cased name or publisher, and with a cutoff day, last installed or
/// updated on or after it; sorted by lower-cased name.
pub fn gather_software_for_pc(
    all_data: &[AggregatedSoftware],
    computer_id: u64,
    filter: &str,
    hide_windows: bool,
    hide_kb: bool,
    time_filter_cutoff: Option<i32>,
    fallback_agent_date: &str,
) -> (r: Vec<PcSoftwareRow>)
    ensures
        sorted_rows_ok(
            live_rows(
                all_data@,
                computer_id,
                filter_key(filter@),
                hide_windows,
                hide_kb,
                time_filter_cutoff,
                fallback_agent_date@,
                all_data@.len() as int,
            ),
            r@,
        ),
{
    let t = trim_str(filter);
    let fl = lowercase(t.as_str());
    let ghost want_all = live_rows(
        all_data@,
        computer_id,
        fl@,
        hide_windows,
        hide_kb,
        time_filter_cutoff,
        fallback_agent_date@,
        all_data@.len() as int,
    );
    let mut rows: Vec<RankedRow> = Vec::new();
    let ghost mut want: Seq<RowView> = Seq::empty();
    let mut j: usize = 0;
    while j < all_data.len()
        invariant
            j <= all_data@.len(),
            fl@ == filter_key(filter@),
            want == live_rows(all_data@, computer_id, fl@, hide_windows, hide_kb, time_filter_cutoff, fallback_agent_date@, j as int),
            ranked_ok(rows@, want),
        decreases all_data.len() - j,
    {
        let sw = &all_data[j];
        if shown_exec(sw, computer_id, fl.as_str(), hide_windows, hide_kb) {
            let row = live_row_exec(sw, computer_id, fallback_agent_date);
            let keep = match time_filter_cutoff {
                Some(c) => recent_exec(row.last_install.as_str(), c) || recent_exec(row.last_updated.as_str(), c),
                None => true,
            };
            if keep {
                push_row(&mut rows, row, Ghost(want));
                proof {
                    want = want.push(live_row(all_data@[j as int], computer_id, fallback_agent_date@));
                }
            }
        }
        j = j + 1;
    }
    sort_rows(rows, Ghost(want))
}

// ---------------------------------------------------------------------------
// Removed, from the history
// ---------------------------------------------------------------------------
/// The version in a removal's old value "Name (1.2.3)": the text after its last
/// " (" with trailing ')' dropped; empty when there is none.
pub open spec fn removed_version(old_value: Seq<char>) -> Seq<char> {
    match rfind(old_value, " ("@) {
        Some(i) => trim_end_char(old_value.subrange(i + 2, old_value.len() as int), ')'),
        None => Seq::empty(),
    }
}

/// The row of a removal named `name`.
pub open spec fn removed_row(name: Seq<char>, e: PcSoftwareLogEntry) -> RowView {
    (name, Seq::empty(), removed_version(e.old_value@), Seq::empty(), Seq::empty(), Seq::empty(), true, byte_prefix_or_all(e.date@, 10))
}

/// The removal passes the filters: not hidden, its lower-cased name holds the
/// filter text, and with a cutoff day its date (when it reads as one) is not
/// before it.
pub open spec fn removal_passes(
    name: Seq<char>,
    e: PcSoftwareLogEntry,
    fl: Seq<char>,
    hide_windows: bool,
    hide_kb: bool,
    cutoff: Option<i32>,
) -> bool {
    &&& !(hide_windows && windows_component(name, Seq::empty()))
    &&& !(hide_kb && kb_update(name))
    &&& (fl.len() == 0 || contains(to_lower(name), fl))
    &&& match cutoff {
        Some(c) => match parsed_date(e.date@) {
            Some(nd) => nd.days >= c,
            None => true,
        },
        None => true,
    }
}

/// The scan of the first `n` history entries: the lower-cased names met so far
/// among removals of software not installed now, and the rows kept. A name
/// counts as met even when its row is then filtered out.
pub open spec fn removed_scan(
    es: Seq<PcSoftwareLogEntry>,
    current: Seq<String>,
    fl: Seq<char>,
    hide_windows: bool,
    hide_kb: bool,
    cutoff: Option<i32>,
    n: int,
) -> (Set<Seq<char>>, Seq<RowView>)
    decreases n,
{
    if n <= 0 {
        (Set::empty(), Seq::empty())
    } else {
        let (seen, rows) = removed_scan(es, current, fl, hide_windows, hide_kb, cutoff, n - 1);
        let e = es[n - 1];
        let name = trim(e.software_name@);
        let nl = to_lower(name);
        if e.action != PcLogAction::Removed || name.len() == 0 || has_text(current, nl) || seen.contains(nl) {
            (seen, rows)
        } else if removal_passes(name, e, fl, hide_windows, hide_kb, cutoff) {
            (seen.insert(nl), rows.push(removed_row(name, e)))
        } else {
            (seen.insert(nl), rows)
        }
    }
}

fn has_text_exec(v: &Vec<String>, x: &str) -> (r: bool)
    ensures
        r == has_text(v@, x@),
{
    let mut k: usize = 0;
    while k < v.len()
        invariant
            k <= v@.len(),
            forall|i: int| 0 <= i < k ==> #[trigger] v@[i]@ != x@,
        decreases v.len() - k,
    {
        if crate::text::str_eq(v[k].as_str(), x) {
            return true;
        }
        k = k + 1;
    }
    false
}

fn has_text_slice(v: &[String], x: &str) -> (r: bool)
    ensures
        r == has_text(v@, x@),
{
    let mut k: usize = 0;
    while k < v.len()
        invariant
            k <= v@.len(),
            forall|i: int| 0 <= i < k ==> #[trigger] v@[i]@ != x@,
        decreases v.len() - k,
    {
        if crate::text::str_eq(v[k].as_str(), x) {
            return true;
        }
        k = k + 1;
    }
    false
}

fn removed_version_exec(old_value: &str) -> (r: String)
    ensures
        r@ == removed_version(old_value@),
{
    let v = chars_of(old_value);
    let pat = chars_of(" (");
    match chars_rfind(v.as_slice(), pat.as_slice()) {
        Some(i) => {
            proof {
                reveal_strlit(" (");
                assert(" ("@ =~= seq![' ', '(']);
                assert(pat@.len() == 2);
                lemma_rfind_from_bound(v@, pat@, v@.len() - pat@.len());
                assert(rfind(v@, pat@) == Some(i as int));
                assert(i + 2 <= v@.len());
            }
            let n: usize = v.len();
            assert(i + 2 <= n);
            let mut tail: Vec<char> = Vec::new();
            let mut k: usize = i + 2;
            while k < v.len()
                invariant
                    i + 2 <= k <= v@.len(),
                    tail@ == v@.subrange(i + 2, k as int),
                decreases v.len() - k,
            {
                tail.push(v[k]);
                k = k + 1;
                assert(tail@ =~= v@.subrange(i + 2, k as int));
            }
            let t = crate::date_util::chars_trim_end_char(tail.as_slice(), ')');
            string_from_chars(t.as_slice())
        },
        None => String::new(),
    }
}

proof fn lemma_rfind_from_bound(s: Seq<char>, p: Seq<char>, i: int)
    ensures
        match crate::text::rfind_from(s, p, i) {
            Some(k) => 0 <= k <= i,
            None => true,
        },
    decreases i + 1,
{
    if i >= 0 {
        lemma_rfind_from_bound(s, p, i - 1);
    }
}

/// Software the history shows as removed from the computer and not installed
/// now (`current_names` holds the lower-cased names of the rows shown), one row
/// per lower-cased name (its first removal), filtered, sorted by lower-cased name.
pub fn gather_deleted_rows(
    log_entries: &[PcSoftwareLogEntry],
    current_names: &[String],
    filter: &str,
    hide_windows: bool,
    hide_kb: bool,
    time_filter_cutoff: Option<i32>,
) -> (r: Vec<PcSoftwareRow>)
    ensures
        sorted_rows_ok(
            removed_scan(
                log_entries@,
                current_names@,
                filter_key(filter@),
                hide_windows,
                hide_kb,
                time_filter_cutoff,
                log_entries@.len() as int,
            ).1,
            r@,
        ),
{
    let t = trim_str(filter);
    let fl = lowercase(t.as_str());
    let mut seen: Vec<String> = Vec::new();
    let mut rows: Vec<RankedRow> = Vec::new();
    let ghost mut want: Seq<RowView> = Seq::empty();
    let mut j: usize = 0;
    while j < log_entries.len()
        invariant
            j <= log_entries@.len(),
            fl@ == filter_key(filter@),
            removed_scan(log_entries@, current_names@, fl@, hide_windows, hide_kb, time_filter_cutoff, j as int) == (
            text_set(seen@), want),
            ranked_ok(rows@, want),
        decreases log_entries.len() - j,
    {
        let e = &log_entries[j];
        let ghost seen0 = seen@;
        if e.action == PcLogAction::Removed {
            let name = trim_str(e.software_name.as_str());
            if !name.as_str().is_empty() {
                let name_lower = lowercase(name.as_str());
                if !has_text_slice(current_names, name_lower.as_str()) && !has_text_exec(&seen, name_lower.as_str()) {
                    seen.push(name_lower.clone());
                    assert(text_set(seen@) =~= text_set(seen0).insert(name_lower@)) by {
                        assert forall|x: Seq<char>| text_set(seen@).contains(x) implies text_set(seen0).insert(
                            name_lower@,
                        ).contains(x) by {
                            let i = choose|i: int| 0 <= i < seen@.len() && #[trigger] seen@[i]@ == x;
                            if i < seen0.len() {
                                assert(seen0[i]@ == x);
                            }
                        }
                        assert forall|x: Seq<char>| text_set(seen0).insert(name_lower@).contains(x) implies text_set(
                            seen@,
                        ).contains(x) by {
                            if x == name_lower@ {
                                assert(seen@[seen0.len() as int]@ == x);
                            } else {
                                let i = choose|i: int| 0 <= i < seen0.len() && #[trigger] seen0[i]@ == x;
                                assert(seen@[i]@ == x);
                            }
                        }
                    }
                    let mut pass = true;
                    if hide_windows && is_windows_component(name.as_str(), "") {
                        pass = false;
                    }
                    if hide_kb && is_kb_update(name.as_str()) {
                        pass = false;
                    }
                    if !fl.as_str().is_empty() && !str_contains(name_lower.as_str(), fl.as_str()) {
                        pass = false;
                    }
                    match time_filter_cutoff {
                        Some(c) => match parse_date(e.date.as_str()) {
                            Some(nd) => if nd.days < c {
                                pass = false;
                            },
                            None => {},
                        },
                        None => {},
                    }
                    proof {
                        reveal_strlit("");
                        assert(""@ =~= Seq::<char>::empty());
                        crate::text::lemma_trim_idempotent(e.software_name@);
                    }
                    if pass {
                        let dv = chars_of(e.date.as_str());
                        let dp = chars_byte_prefix_or_all(dv.as_slice(), 10);
                        let row = PcSoftwareRow {
                            name: name,
                            publisher: String::new(),
                            version: removed_version_exec(e.old_value.as_str()),
                            last_install: String::new(),
                            last_updated: String::new(),
                            last_agent_pull: String::new(),
                            is_deleted: true,
                            deleted_date: string_from_chars(dp.as_slice()),
                        };
                        push_row(&mut rows, row, Ghost(want));
                        proof {
                            want = want.push(removed_row(trim(e.software_name@), *e));
                        }
                    }
                }
            }
        }
        j = j + 1;
    }
    sort_rows(rows, Ghost(want))
}

// ---------------------------------------------------------------------------
// Installed at a snapshot
// ---------------------------------------------------------------------------
/// The installation is on the computer and passes the panel's filters.
pub open spec fn snap_shown(inst: SnapshotInstallation, pc: u64, fl: Seq<char>, hide_windows: bool, hide_kb: bool) -> bool {
    &&& inst.computer_id == pc
    &&& !(hide_windows && windows_component(inst.software_name@, inst.publisher@))
    &&& !(hide_kb && kb_update(inst.software_name@))
    &&& (fl.len() == 0 || contains(to_lower(inst.software_name@), fl) || contains(to_lower(inst.publisher@), fl))
}

/// The publisher shown: "Unknown" for a blank one.
pub open spec fn shown_publisher(p: Seq<char>) -> Seq<char> {
    if trim(p).len() == 0 {
        "Unknown"@
    } else {
        p
    }
}

pub open spec fn snap_key(inst: SnapshotInstallation) -> (Seq<char>, Seq<char>) {
    (inst.software_name@, shown_publisher(inst.publisher@))
}

/// The (name, shown publisher) pairs of the shown installations among the first
/// `n`, each once, in order of first appearance.
pub open spec fn snap_keys(
    is: Seq<SnapshotInstallation>,
    pc: u64,
    fl: Seq<char>,
    hide_windows: bool,
    hide_kb: bool,
    n: int,
) -> Seq<(Seq<char>, Seq<char>)>
    decreases n,
{
    if n <= 0 {
        Seq::empty()
    } else {
        let prev = snap_keys(is, pc, fl, hide_windows, hide_kb, n - 1);
        if snap_shown(is[n - 1], pc, fl, hide_windows, hide_kb) && !prev.contains(snap_key(is[n - 1])) {
            prev.push(snap_key(is[n - 1]))
        } else {
            prev
        }
    }
}

/// The non-blank version names of the shown installations among the first `n`
/// that have key `k`.
pub open spec fn snap_versions(
    is: Seq<SnapshotInstallation>,
    pc: u64,
    fl: Seq<char>,
    hide_windows: bool,
    hide_kb: bool,
    n: int,
    k: (Seq<char>, Seq<char>),
) -> Set<Seq<char>>
    decreases n,
{
    if n <= 0 {
        Set::empty()
    } else {
        let prev = snap_versions(is, pc, fl, hide_windows, hide_kb, n - 1, k);
        let inst = is[n - 1];
        if snap_shown(inst, pc, fl, hide_windows, hide_kb) && snap_key(inst) == k && trim(inst.version_name@).len() > 0 {
            prev.insert(inst.version_name@)
        } else {
            prev
        }
    }
}

/// The row of key `k`: its versions listed in increasing order, joined with ", ".
pub open spec fn snap_row_ok(row: RowView, k: (Seq<char>, Seq<char>), versions: Set<Seq<char>>) -> bool {
    &&& row.0 == k.0
    &&& row.1 == k.1
    &&& exists|v: Seq<String>| #[trigger] lists_set(v, versions) && row.2 == join(texts(v), ", "@)
    &&& row.3.len() == 0
    &&& row.4.len() == 0
    &&& row.5.len() == 0
    &&& !row.6
    &&& row.7.len() == 0
}

/// The software the panel shows for computer `pc` at a snapshot: one row per
/// (name, shown publisher) of the shown installations, sorted by lower-cased
/// name (equal names in order of first appearance).
pub open spec fn snapshot_rows_ok(
    is: Seq<SnapshotInstallation>,
    pc: u64,
    fl: Seq<char>,
    hide_windows: bool,
    hide_kb: bool,
    r: Seq<PcSoftwareRow>,
) -> bool {
    let keys = snap_keys(is, pc, fl, hide_windows, hide_kb, is.len() as int);
    exists|want: Seq<RowView>|
        {
            &&& #[trigger] sorted_rows_ok(want, r)
            &&& want.len() == keys.len()
            &&& forall|g: int|
                0 <= g < keys.len() ==> snap_row_ok(
                    #[trigger] want[g],
                    keys[g],
                    snap_versions(is, pc, fl, hide_windows, hide_kb, is.len() as int, keys[g]),
                )
        }
}

pub struct SnapGroup {
    pub name: String,
    pub publisher: String,
    pub versions: Vec<String>,
}

pub open spec fn groups_ok(
    is: Seq<SnapshotInstallation>,
    pc: u64,
    fl: Seq<char>,
    hide_windows: bool,
    hide_kb: bool,
    n: int,
    groups: Seq<SnapGroup>,
) -> bool {
    let keys = snap_keys(is, pc, fl, hide_windows, hide_kb, n);
    &&& groups.len() == keys.len()
    &&& forall|g: int|
        0 <= g < groups.len() ==> (#[trigger] groups[g]).name@ == keys[g].0 && groups[g].publisher@ == keys[g].1
            && lists_set(groups[g].versions@, snap_versions(is, pc, fl, hide_windows, hide_kb, n, keys[g]))
}

proof fn lemma_keys_grow(
    is: Seq<SnapshotInstallation>,
    pc: u64,
    fl: Seq<char>,
    hide_windows: bool,
    hide_kb: bool,
    n: int,
    k: (Seq<char>, Seq<char>),
)
    requires
        n > 0,
        snap_keys(is, pc, fl, hide_windows, hide_kb, n - 1).contains(k),
    ensures
        snap_keys(is, pc, fl, hide_windows, hide_kb, n).contains(k),
{
    let prev = snap_keys(is, pc, fl, hide_windows, hide_kb, n - 1);
    let i = choose|i: int| 0 <= i < prev.len() && prev[i] == k;
    if snap_shown(is[n - 1], pc, fl, hide_windows, hide_kb) && !prev.contains(snap_key(is[n - 1])) {
        assert(prev.push(snap_key(is[n - 1]))[i] == k);
    }
}

proof fn lemma_keys_distinct(
    is: Seq<SnapshotInstallation>,
    pc: u64,
    fl: Seq<char>,
    hide_windows: bool,
    hide_kb: bool,
    n: int,
)
    ensures
        snap_keys(is, pc, fl, hide_windows, hide_kb, n).no_duplicates(),
    decreases n,
{
    if n > 0 {
        lemma_keys_distinct(is, pc, fl, hide_windows, hide_kb, n - 1);
        let prev = snap_keys(is, pc, fl, hide_windows, hide_kb, n - 1);
        if snap_shown(is[n - 1], pc, fl, hide_windows, hide_kb) && !prev.contains(snap_key(is[n - 1])) {
            let cur = prev.push(snap_key(is[n - 1]));
            assert forall|a: int, b: int| 0 <= a < cur.len() && 0 <= b < cur.len() && a != b implies cur[a] != cur[b] by {
                if a < prev.len() && b < prev.len() {
                } else if a < prev.len() {
                    assert(prev.contains(cur[a]));
                } else {
                    assert(prev.contains(cur[b]));
                }
            }
        }
    }
}

proof fn lemma_versions_of_new_key(
    is: Seq<SnapshotInstallation>,
    pc: u64,
    fl: Seq<char>,
    hide_windows: bool,
    hide_kb: bool,
    n: int,
    k: (Seq<char>, Seq<char>),
)
    requires
        !snap_keys(is, pc, fl, hide_windows, hide_kb, n).contains(k),
    ensures
        snap_versions(is, pc, fl, hide_windows, hide_kb, n, k) == Set::<Seq<char>>::empty(),
    decreases n,
{
    if n > 0 {
        let prev = snap_keys(is, pc, fl, hide_windows, hide_kb, n - 1);
        if prev.contains(k) {
            lemma_keys_grow(is, pc, fl, hide_windows, hide_kb, n, k);
        }
        lemma_versions_of_new_key(is, pc, fl, hide_windows, hide_kb, n - 1, k);
        let inst = is[n - 1];
        if snap_shown(inst, pc, fl, hide_windows, hide_kb) && snap_key(inst) == k {
            assert(prev.push(k)[prev.len() as int] == k);
        }
    }
}

fn snap_shown_exec(inst: &SnapshotInstallation, pc: u64, fl: &str, hide_windows: bool, hide_kb: bool) -> (r: bool)
    ensures
        r == snap_shown(*inst, pc, fl@, hide_windows, hide_kb),
{
    if inst.computer_id != pc {
        return false;
    }
    if hide_windows && is_windows_component(inst.software_name.as_str(), inst.publisher.as_str()) {
        return false;
    }
    if hide_kb && is_kb_update(inst.software_name.as_str()) {
        return false;
    }
    if fl.is_empty() {
        return true;
    }
    let nl = lowercase(inst.software_name.as_str());
    let pl = lowercase(inst.publisher.as_str());
    str_contains(nl.as_str(), fl) || str_contains(pl.as_str(), fl)
}

fn find_snap_group(groups: &Vec<SnapGroup>, name: &str, publisher: &str) -> (r: Option<usize>)
    ensures
        match r {
            Some(g) => g < groups@.len() && groups@[g as int].name@ == name@ && groups@[g as int].publisher@ == publisher@,
            None => forall|g: int|
                0 <= g < groups@.len() ==> !((#[trigger] groups@[g]).name@ == name@ && groups@[g].publisher@ == publisher@),
        },
{
    let mut g: usize = 0;
    while g < groups.len()
        invariant
            g <= groups@.len(),
            forall|h: int|
                0 <= h < g ==> !((#[trigger] groups@[h]).name@ == name@ && groups@[h].publisher@ == publisher@),
        decreases groups.len() - g,
    {
        if crate::text::str_eq(groups[g].name.as_str(), name) && crate::text::str_eq(groups[g].publisher.as_str(), publisher) {
            return Some(g);
        }
        g = g + 1;
    }
    None
}

/// The software recorded for computer `computer_id` in a snapshot, filtered as
/// in the panel, one row per name and publisher with its versions.
pub fn gather_snapshot_software_for_pc(
    snapshot: &InventorySnapshot,
    computer_id: u64,
    filter: &str,
    hide_windows: bool,
    hide_kb: bool,
) -> (r: Vec<PcSoftwareRow>)
    ensures
        snapshot_rows_ok(snapshot.installations@, computer_id, filter_key(filter@), hide_windows, hide_kb, r@),
{
    let t = trim_str(filter);
    let fl = lowercase(t.as_str());
    let ghost is = snapshot.installations@;
    let ghost f = fl@;
    let mut groups: Vec<SnapGroup> = Vec::new();
    let mut i: usize = 0;
    while i < snapshot.installations.len()
        invariant
            i <= is.len(),
            is == snapshot.installations@,
            f == fl@,
            groups_ok(is, computer_id, f, hide_windows, hide_kb, i as int, groups@),
        decreases snapshot.installations.len() - i,
    {
        let inst = &snapshot.installations[i];
        let ghost n = i as int;
        let ghost keys0 = snap_keys(is, computer_id, f, hide_windows, hide_kb, n);
        if snap_shown_exec(inst, computer_id, fl.as_str(), hide_windows, hide_kb) {
            let publisher = if is_blank(inst.publisher.as_str()) {
                "Unknown".to_owned()
            } else {
                inst.publisher.clone()
            };
            let ghost k = snap_key(is[n]);
            assert(publisher@ == k.1);
            let nb = !is_blank(inst.version_name.as_str());
            match find_snap_group(&groups, inst.software_name.as_str(), publisher.as_str()) {
                Some(g) => {
                    let ghost before = groups@;
                    proof {
                        assert(keys0[g as int] == k);
                        assert(keys0.contains(k));
                        assert(snap_keys(is, computer_id, f, hide_windows, hide_kb, n + 1) == keys0);
                    }
                    let mut grp = groups.remove(g);
                    assert(grp == before[g as int]);
                    let ghost old_versions = grp.versions@;
                    if nb {
                        insert_text(&mut grp.versions, inst.version_name.clone());
                    }
                    groups.insert(g, grp);
                    proof {
                        assert(groups@ =~= before.update(g as int, grp));
                        assert forall|h: int| 0 <= h < groups@.len() implies (#[trigger] groups@[h]).name@ == keys0[h].0
                            && groups@[h].publisher@ == keys0[h].1 && lists_set(
                            groups@[h].versions@,
                            snap_versions(is, computer_id, f, hide_windows, hide_kb, n + 1, keys0[h]),
                        ) by {
                            if h == g as int {
                                assert forall|y: Seq<char>| #[trigger] snap_versions(
                                    is,
                                    computer_id,
                                    f,
                                    hide_windows,
                                    hide_kb,
                                    n + 1,
                                    k,
                                ).contains(y) <==> has_text(grp.versions@, y) by {
                                    assert(has_text(old_versions, y) <==> snap_versions(
                                        is,
                                        computer_id,
                                        f,
                                        hide_windows,
                                        hide_kb,
                                        n,
                                        k,
                                    ).contains(y));
                                }
                            } else {
                                assert(groups@[h] == before[h]);
                                assert(keys0[h] != k) by {
                                    lemma_keys_distinct(is, computer_id, f, hide_windows, hide_kb, n);
                                }
                            }
                        }
                    }
                },
                None => {
                    let mut versions: Vec<String> = Vec::new();
                    if nb {
                        versions.push(inst.version_name.clone());
                    }
                    let grp = SnapGroup { name: inst.software_name.clone(), publisher, versions };
                    proof {
                        assert(!keys0.contains(k)) by {
                            if keys0.contains(k) {
                                let h = choose|h: int| 0 <= h < keys0.len() && keys0[h] == k;
                                assert(groups@[h].name@ == k.0);
                            }
                        }
                        lemma_versions_of_new_key(is, computer_id, f, hide_windows, hide_kb, n, k);
                        assert forall|y: Seq<char>| #[trigger] snap_versions(
                            is,
                            computer_id,
                            f,
                            hide_windows,
                            hide_kb,
                            n + 1,
                            k,
                        ).contains(y) <==> has_text(grp.versions@, y) by {
                            if nb && y == inst.version_name@ {
                                assert(grp.versions@[0]@ == y);
                            }
                        }
                    }
                    let ghost before = groups@;
                    groups.push(grp);
                    proof {
                        let keys1 = snap_keys(is, computer_id, f, hide_windows, hide_kb, n + 1);
                        assert(keys1 == keys0.push(k));
                        assert forall|h: int| 0 <= h < groups@.len() implies (#[trigger] groups@[h]).name@ == keys1[h].0
                            && groups@[h].publisher@ == keys1[h].1 && lists_set(
                            groups@[h].versions@,
                            snap_versions(is, computer_id, f, hide_windows, hide_kb, n + 1, keys1[h]),
                        ) by {
                            if h < before.len() {
                                assert(groups@[h] == before[h]);
                                assert(keys1[h] == keys0[h]);
                                assert(keys0[h] != k) by {
                                    assert(keys0.contains(keys0[h]));
                                }
                            }
                        }
                    }
                },
            }
        } else {
            proof {
                let keys1 = snap_keys(is, computer_id, f, hide_windows, hide_kb, n + 1);
                assert(keys1 == keys0);
                assert forall|h: int| 0 <= h < groups@.len() implies (#[trigger] groups@[h]).name@ == keys1[h].0
                    && groups@[h].publisher@ == keys1[h].1 && lists_set(
                    groups@[h].versions@,
                    snap_versions(is, computer_id, f, hide_windows, hide_kb, n + 1, keys1[h]),
                ) by {
                    assert(snap_versions(is, computer_id, f, hide_windows, hide_kb, n + 1, keys1[h]) == snap_versions(
                        is,
                        computer_id,
                        f,
                        hide_windows,
                        hide_kb,
                        n,
                        keys1[h],
                    ));
                }
            }
        }
        i = i + 1;
    }
    let ghost keys = snap_keys(is, computer_id, f, hide_windows, hide_kb, is.len() as int);
    let mut rows: Vec<RankedRow> = Vec::new();
    let ghost mut want: Seq<RowView> = Seq::empty();
    let mut g: usize = 0;
    while g < groups.len()
        invariant
            g <= groups@.len(),
            groups_ok(is, computer_id, f, hide_windows, hide_kb, is.len() as int, groups@),
            keys == snap_keys(is, computer_id, f, hide_windows, hide_kb, is.len() as int),
            ranked_ok(rows@, want),
            want.len() == g,
            forall|h: int|
                0 <= h < g ==> snap_row_ok(
                    #[trigger] want[h],
                    keys[h],
                    snap_versions(is, computer_id, f, hide_windows, hide_kb, is.len() as int, keys[h]),
                ),
        decreases groups.len() - g,
    {
        let grp = &groups[g];
        let row = PcSoftwareRow {
            name: grp.name.clone(),
            publisher: grp.publisher.clone(),
            version: join_texts(&grp.versions, ", "),
            last_install: String::new(),
            last_updated: String::new(),
            last_agent_pull: String::new(),
            is_deleted: false,
            deleted_date: String::new(),
        };
        let ghost w0 = want;
        push_row(&mut rows, row, Ghost(want));
        proof {
            want = want.push(row_view(row));
            assert(snap_row_ok(
                want[g as int],
                keys[g as int],
                snap_versions(is, computer_id, f, hide_windows, hide_kb, is.len() as int, keys[g as int]),
            ));
            assert forall|h: int| 0 <= h < g + 1 implies snap_row_ok(
                #[trigger] want[h],
                keys[h],
                snap_versions(is, computer_id, f, hide_windows, hide_kb, is.len() as int, keys[h]),
            ) by {
                if h < g {
                    assert(want[h] == w0[h]);
                }
            }
        }
        g = g + 1;
    }
    let r = sort_rows(rows, Ghost(want));
    assert(sorted_rows_ok(want, r@));
    r
}

} // verus!
