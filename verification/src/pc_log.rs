//! A computer's software history as GLPI logs it: which entries concern software,
//! what each one did, and the uninstalls gathered over many computers.
use crate::date_util::{
    day_in_window, event_in_recency_window, first_day, opt_view, parse_datetime,
    parsed_datetime,
};
use crate::inventory::text_or_empty;
use crate::models::{
    FilterState, GlobalAuditRemovalRow, GlpiLogEntry, PcLogAction, PcSoftwareLogEntry, RecentTimeMode,
};
use crate::sorting::{rearranged, sort_by_lt, sorted_by};
use crate::text::{
    char_is_ascii_alnum, chars_of, chars_rfind, contains, i64_to_string, is_ascii_alnum, lowercase,
    rfind, signed_decimal, str_contains, str_lt, string_from_chars, text_lt, to_lower, trim, trim_chars,
    trim_str,
};
use vstd::prelude::*;

verus! {

// ---------------------------------------------------------------------------
// What an entry did
// ---------------------------------------------------------------------------
/// GLPI's `Log::HISTORY_INSTALL_SOFTWARE`.
pub const HISTORY_INSTALL_SOFTWARE: i64 = 4;

/// GLPI's `Log::HISTORY_UNINSTALL_SOFTWARE`.
pub const HISTORY_UNINSTALL_SOFTWARE: i64 = 5;

/// GLPI's `Log::HISTORY_DEL_RELATION`.
pub const HISTORY_DEL_RELATION: i64 = 16;

/// GLPI's `Log::HISTORY_DELETE_SUBITEM`.
pub const HISTORY_DELETE_SUBITEM: i64 = 19;

/// The action of a software history entry: the explicit action codes decide;
/// otherwise which of the old and new values is blank; otherwise the sign of
/// the code.
pub open spec fn history_action(linked_action: int, old_val: Seq<char>, new_val: Seq<char>) -> PcLogAction {
    let o = trim(old_val);
    let n = trim(new_val);
    if linked_action == HISTORY_UNINSTALL_SOFTWARE {
        PcLogAction::Removed
    } else if linked_action == HISTORY_INSTALL_SOFTWARE {
        PcLogAction::Installed
    } else if linked_action == HISTORY_DEL_RELATION || linked_action == HISTORY_DELETE_SUBITEM {
        PcLogAction::Removed
    } else if o.len() > 0 && n.len() > 0 {
        PcLogAction::Updated
    } else if n.len() > 0 {
        PcLogAction::Installed
    } else if o.len() > 0 {
        PcLogAction::Removed
    } else if linked_action > 0 {
        PcLogAction::Installed
    } else {
        PcLogAction::Removed
    }
}

pub fn classify_glpi_software_history(linked_action: i64, old_val: &str, new_val: &str) -> (r: PcLogAction)
    ensures
        r == history_action(linked_action as int, old_val@, new_val@),
{
    let old_t = trim_str(old_val);
    let new_t = trim_str(new_val);
    if linked_action == HISTORY_UNINSTALL_SOFTWARE {
        return PcLogAction::Removed;
    }
    if linked_action == HISTORY_INSTALL_SOFTWARE {
        return PcLogAction::Installed;
    }
    if linked_action == HISTORY_DEL_RELATION || linked_action == HISTORY_DELETE_SUBITEM {
        return PcLogAction::Removed;
    }
    let has_old = !old_t.as_str().is_empty();
    let has_new = !new_t.as_str().is_empty();
    if has_old && has_new {
        return PcLogAction::Updated;
    }
    if has_new && !has_old {
        return PcLogAction::Installed;
    }
    if has_old && !has_new {
        return PcLogAction::Removed;
    }
    if linked_action > 0 {
        PcLogAction::Installed
    } else {
        PcLogAction::Removed
    }
}

/// The software name in a log value such as "Name (1.2.3)": the trimmed text up
/// to its last " (", or all of it.
pub open spec fn software_name_of(value: Seq<char>) -> Seq<char> {
    let t = trim(value);
    match rfind(t, " ("@) {
        Some(i) => t.subrange(0, i),
        None => t,
    }
}

proof fn lemma_rfind_from_bound(s: Seq<char>, p: Seq<char>, i: int)
    ensures
        match crate::text::rfind_from(s, p, i) {
            Some(k) => 0 <= k <= i,
            None => true,
        },
    decreases i + 1,
{
    if i >= 0 {
        lemma_rfind_from_bound(s, p, i - 1);
    }
}

pub fn extract_software_name(value: &str) -> (r: String)
    ensures
        r@ == software_name_of(value@),
{
    let v = chars_of(value);
    let t = trim_chars(v.as_slice());
    let pat = chars_of(" (");
    match chars_rfind(t.as_slice(), pat.as_slice()) {
        Some(i) => {
            proof {
                lemma_rfind_from_bound(t@, pat@, t@.len() - pat@.len());
            }
            let mut out: Vec<char> = Vec::new();
            let mut k: usize = 0;
            while k < i
                invariant
                    k <= i,
                    i <= t@.len(),
                    out@ == t@.subrange(0, k as int),
                decreases i - k,
            {
                out.push(t[k]);
                k = k + 1;
                assert(out@ =~= t@.subrange(0, k as int));
            }
            string_from_chars(out.as_slice())
        },
        None => string_from_chars(t.as_slice()),
    }
}

// ---------------------------------------------------------------------------
// Host names
// ---------------------------------------------------------------------------
pub open spec fn host_char(c: char) -> bool {
    is_ascii_alnum(c) || c == '.' || c == '-' || c == '_'
}

/// A host name safe to hand to `ping`: 1 to 253 characters, all ASCII letters,
/// digits, '.', '-' or '_', not starting with '-' or '.'. (Such a text has as
/// many bytes as characters.)
pub open spec fn safe_hostname(s: Seq<char>) -> bool {
    &&& 0 < s.len() <= 253
    &&& forall|i: int| 0 <= i < s.len() ==> #[trigger] host_char(s[i])
    &&& s[0] != '-'
    &&& s[0] != '.'
}

pub fn is_safe_hostname(s: &str) -> (r: bool)
    ensures
        r == safe_hostname(s@),
{
    let v = chars_of(s);
    if v.len() == 0 || v.len() > 253 {
        return false;
    }
    let mut i: usize = 0;
    while i < v.len()
        invariant
            i <= v@.len(),
            v@ == s@,
            forall|k: int| 0 <= k < i ==> #[trigger] host_char(v@[k]),
        decreases v.len() - i,
    {
        let c = v[i];
        if !(char_is_ascii_alnum(c) || c == '.' || c == '-' || c == '_') {
            assert(!host_char(v@[i as int]));
            return false;
        }
        i = i + 1;
    }
    v[0] != '-' && v[0] != '.'
}

/// The name `ping` is run on: the trimmed host name when it is safe; none otherwise.
pub open spec fn ping_target_of(hostname: Seq<char>) -> Option<Seq<char>> {
    let t = trim(hostname);
    if t.len() > 0 && safe_hostname(t) {
        Some(t)
    } else {
        None
    }
}

pub fn ping_target(hostname: &str) -> (r: Option<String>)
    ensures
        opt_view(r) == ping_target_of(hostname@),
{
    let t = trim_str(hostname);
    if is_safe_hostname(t.as_str()) {
        Some(t)
    } else {
        None
    }
}

// ---------------------------------------------------------------------------
// Software history of one computer
// ---------------------------------------------------------------------------
/// The filter of a history request reaching `days_back` days back from day
/// `today`: the starting filter bar with a rolling window of at least one day.
pub open spec fn rolling_filter_ok(days_back: int, today: int, f: FilterState) -> bool {
    let d = if days_back < 1 {
        1
    } else {
        days_back
    };
    &&& f.recent_time_mode == RecentTimeMode::RollingDays
    &&& f.days@ == signed_decimal(d)
    &&& f.recent_range_to == today
    &&& f.software_name@.len() == 0
    &&& f.publisher@.len() == 0
}

pub fn filter_state_rolling_days(days_back: i64, today: i32) -> (r: FilterState)
    ensures
        rolling_filter_ok(days_back as int, today as int, r),
{
    let mut f = FilterState::default_at(today);
    f.recent_time_mode = RecentTimeMode::RollingDays;
    let d: i64 = if days_back < 1 {
        1
    } else {
        days_back
    };
    f.days = i64_to_string(d);
    f
}

/// The entry concerns software: its link type, lower-cased, names one.
pub open spec fn software_link(e: GlpiLogEntry) -> bool {
    match e.itemtype_link {
        Some(s) => {
            let low = to_lower(s@);
            contains(low, "software"@) || contains(low, "item_softwareversion"@) || contains(
                low,
                "softwareversion"@,
            )
        },
        None => false,
    }
}

/// The entry's date reads as a date and time whose day lies in the window.
pub open spec fn entry_in_window(e: GlpiLogEntry, today: int, f: FilterState) -> bool {
    match e.date_mod {
        Some(d) => match parsed_datetime(d@) {
            Some(dt) => day_in_window(dt.days as int, today, f),
            None => false,
        },
        None => false,
    }
}

/// A history row as plain values: date, action, software name, old and new value.
pub type LogView = (Seq<char>, PcLogAction, Seq<char>, Seq<char>, Seq<char>);

pub open spec fn log_view(e: PcSoftwareLogEntry) -> LogView {
    (e.date@, e.action, e.software_name@, e.old_value@, e.new_value@)
}

pub open spec fn log_views(s: Seq<PcSoftwareLogEntry>) -> Seq<LogView> {
    s.map_values(|e: PcSoftwareLogEntry| log_view(e))
}

/// The row made of a log entry: the software name comes from the new value, or
/// from the old one when the new one is empty.
pub open spec fn log_row(e: GlpiLogEntry) -> LogView {
    let old_val = text_or_empty(opt_view(e.old_value));
    let new_val = text_or_empty(opt_view(e.new_value));
    let code = match e.linked_action {
        Some(c) => c as int,
        None => 0,
    };
    (
        text_or_empty(opt_view(e.date_mod)),
        history_action(code, old_val, new_val),
        software_name_of(if new_val.len() > 0 {
            new_val
        } else {
            old_val
        }),
        old_val,
        new_val,
    )
}

/// The rows of the first `n` entries that concern software and fall in the
/// window, in log order.
pub open spec fn log_rows(es: Seq<GlpiLogEntry>, today: int, f: FilterState, n: int) -> Seq<LogView>
    decreases n,
{
    if n <= 0 {
        Seq::empty()
    } else {
        let prev = log_rows(es, today, f, n - 1);
        if software_link(es[n - 1]) && entry_in_window(es[n - 1], today, f) {
            prev.push(log_row(es[n - 1]))
        } else {
            prev
        }
    }
}

/// The history shown for a computer: the rows of `log_rows`, newest date first,
/// rows with equal dates in log order.
pub open spec fn pc_log_ok(es: Seq<GlpiLogEntry>, today: int, f: FilterState, r: Seq<PcSoftwareLogEntry>) -> bool {
    exists|p: Seq<int>|
        #[trigger] rearranged(log_views(r), log_rows(es, today, f, es.len() as int), p) && forall|a: int, b: int|
            0 <= a < b < r.len() ==> text_lt(#[trigger] r[b].date@, #[trigger] r[a].date@) || (r[a].date@
                == r[b].date@ && p[a] < p[b])
}

fn software_link_exec(e: &GlpiLogEntry) -> (r: bool)
    ensures
        r == software_link(*e),
{
    match &e.itemtype_link {
        Some(s) => {
            let low = lowercase(s.as_str());
            str_contains(low.as_str(), "software") || str_contains(low.as_str(), "item_softwareversion")
                || str_contains(low.as_str(), "softwareversion")
        },
        None => false,
    }
}

fn in_window_exec(e: &GlpiLogEntry, today: i32, filters: &FilterState) -> (r: bool)
    ensures
        r == entry_in_window(*e, today as int, *filters),
{
    match &e.date_mod {
        Some(d) => match parse_datetime(d.as_str()) {
            Some(dt) => event_in_recency_window(dt, today, filters),
            None => false,
        },
        None => false,
    }
}

fn opt_text(o: &Option<String>) -> (r: String)
    ensures
        r@ == text_or_empty(opt_view(*o)),
{
    match o {
        Some(s) => s.clone(),
        None => String::new(),
    }
}

fn make_log_row(e: &GlpiLogEntry) -> (r: PcSoftwareLogEntry)
    ensures
        log_view(r) == log_row(*e),
{
    let code: i64 = match e.linked_action {
        Some(c) => c,
        None => 0,
    };
    let old_val = opt_text(&e.old_value);
    let new_val = opt_text(&e.new_value);
    let action = classify_glpi_software_history(code, old_val.as_str(), new_val.as_str());
    let software_name = if !new_val.as_str().is_empty() {
        extract_software_name(new_val.as_str())
    } else {
        extract_software_name(old_val.as_str())
    };
    PcSoftwareLogEntry { date: opt_text(&e.date_mod), action, software_name, old_value: old_val, new_value: new_val }
}

/// Newest date first; among equal dates, the earlier log position first.
pub open spec fn row_before(a: (PcSoftwareLogEntry, usize), b: (PcSoftwareLogEntry, usize)) -> bool {
    text_lt(b.0.date@, a.0.date@) || (a.0.date@ == b.0.date@ && a.1 < b.1)
}

fn row_less(a: &(PcSoftwareLogEntry, usize), b: &(PcSoftwareLogEntry, usize)) -> (r: bool)
    ensures
        r == row_before(*a, *b),
{
    str_lt(b.0.date.as_str(), a.0.date.as_str()) || (crate::text::str_eq(a.0.date.as_str(), b.0.date.as_str())
        && a.1 < b.1)
}

proof fn lemma_row_before_strict()
    ensures
        crate::sorting::strict_order(|a: (PcSoftwareLogEntry, usize), b: (PcSoftwareLogEntry, usize)| row_before(a, b)),
{
    assert forall|a: (PcSoftwareLogEntry, usize), b: (PcSoftwareLogEntry, usize), c: (PcSoftwareLogEntry, usize)|
        #[trigger] row_before(a, b) && #[trigger] row_before(b, c) implies row_before(a, c) by {
        if text_lt(b.0.date@, a.0.date@) && text_lt(c.0.date@, b.0.date@) {
            crate::text::lemma_text_lt_transitive(c.0.date@, b.0.date@, a.0.date@);
        }
    }
    assert forall|a: (PcSoftwareLogEntry, usize), b: (PcSoftwareLogEntry, usize)| #[trigger] row_before(a, b) implies !row_before(
        b,
        a,
    ) by {
        if text_lt(b.0.date@, a.0.date@) {
            crate::text::lemma_text_lt_asymmetric(b.0.date@, a.0.date@);
        } else {
            crate::text::lemma_text_lt_irreflexive(a.0.date@);
        }
    }
}

fn copy_log_row(e: &PcSoftwareLogEntry) -> (r: PcSoftwareLogEntry)
    ensures
        r == *e,
{
    PcSoftwareLogEntry {
        date: e.date.clone(),
        action: e.action,
        software_name: e.software_name.clone(),
        old_value: e.old_value.clone(),
        new_value: e.new_value.clone(),
    }
}

/// The software history of a computer as seen on day `today`, from its log
/// entries: the entries that concern software and fall in the window, newest first.
pub fn software_history_entries(log_entries: &[GlpiLogEntry], today: i32, filters: &FilterState) -> (r: Vec<
    PcSoftwareLogEntry,
>)
    ensures
        pc_log_ok(log_entries@, today as int, *filters, r@),
{
    let ghost es = log_entries@;
    let mut rows: Vec<(PcSoftwareLogEntry, usize)> = Vec::new();
    let ghost mut kept: Seq<LogView> = Seq::empty();
    let mut j: usize = 0;
    while j < log_entries.len()
        invariant
            j <= es.len(),
            es == log_entries@,
            rows@.len() == kept.len(),
            kept == log_rows(es, today as int, *filters, j as int),
            forall|i: int| 0 <= i < rows@.len() ==> log_view(#[trigger] rows@[i].0) == kept[i],
            forall|i: int| 0 <= i < rows@.len() ==> (#[trigger] rows@[i]).1 == i,
        decreases log_entries.len() - j,
    {
        let e = &log_entries[j];
        if software_link_exec(e) && in_window_exec(e, today, filters) {
            let row = make_log_row(e);
            let pos = rows.len();
            let ghost before = rows@;
            let ghost kb = kept;
            rows.push((row, pos));
            proof {
                kept = kept.push(log_row(es[j as int]));
                assert(rows@.len() == kept.len());
                assert(log_view(rows@[before.len() as int].0) == kept[before.len() as int]);
                assert(rows@[before.len() as int].1 == before.len());
                assert forall|i: int| 0 <= i < rows@.len() implies log_view(#[trigger] rows@[i].0) == kept[i] by {
                    if i < before.len() {
                        assert(rows@[i] == before[i]);
                        assert(kept[i] == kb[i]);
                    }
                }
                assert forall|i: int| 0 <= i < rows@.len() implies (#[trigger] rows@[i]).1 == i by {
                    if i < before.len() {
                        assert(rows@[i] == before[i]);
                    }
                }
            }
        }
        j = j + 1;
    }
    proof {
        lemma_row_before_strict();
    }
    let ghost rv = rows@;
    let (sorted, Ghost(p)) = sort_by_lt(
        rows,
        row_less,
        Ghost(|a: (PcSoftwareLogEntry, usize), b: (PcSoftwareLogEntry, usize)| row_before(a, b)),
    );
    let mut out: Vec<PcSoftwareLogEntry> = Vec::new();
    let mut k: usize = 0;
    while k < sorted.len()
        invariant
            k <= sorted@.len(),
            out@.len() == k,
            forall|i: int| 0 <= i < k ==> #[trigger] out@[i] == sorted@[i].0,
        decreases sorted.len() - k,
    {
        out.push(copy_log_row(&sorted[k].0));
        k = k + 1;
    }
    proof {
        let want = log_rows(es, today as int, *filters, es.len() as int);
        assert(rearranged(log_views(out@), want, p)) by {
            assert forall|i: int| 0 <= i < out@.len() implies #[trigger] log_views(out@)[i] == want[p[i]] by {
                assert(sorted@[i] == rv[p[i]]);
            }
        }
        assert forall|a: int, b: int| 0 <= a < b < out@.len() implies text_lt(
            #[trigger] out@[b].date@,
            #[trigger] out@[a].date@,
        ) || (out@[a].date@ == out@[b].date@ && p[a] < p[b]) by {
            assert(!(|x: (PcSoftwareLogEntry, usize), y: (PcSoftwareLogEntry, usize)| row_before(x, y))(
                sorted@[b],
                sorted@[a],
            ));
            assert(sorted@[a] == rv[p[a]]);
            assert(sorted@[b] == rv[p[b]]);
            if out@[a].date@ != out@[b].date@ {
                crate::text::lemma_text_lt_total(out@[a].date@, out@[b].date@);
            } else {
                assert(p[a] != p[b]);
            }
        }
    }
    out
}

/// The software history of a computer reaching `days_back` days back from day
/// `today`.
pub fn software_history_entries_days_back(log_entries: &[GlpiLogEntry], days_back: i64, today: i32) -> (r: Vec<
    PcSoftwareLogEntry,
>)
    ensures
        exists|f: FilterState| rolling_filter_ok(days_back as int, today as int, f) && #[trigger] pc_log_ok(
            log_entries@,
            today as int,
            f,
            r@,
        ),
{
    let filters = filter_state_rolling_days(days_back, today);
    let r = software_history_entries(log_entries, today, &filters);
    assert(rolling_filter_ok(days_back as int, today as int, filters) && pc_log_ok(log_entries@, today as int, filters, r@));
    r
}

// ---------------------------------------------------------------------------
// Uninstalls over many computers
// ---------------------------------------------------------------------------
/// The uninstall rows of a computer's history, in history order.
pub open spec fn removal_rows(computer_id: u64, es: Seq<PcSoftwareLogEntry>, n: int) -> Seq<(u64, Seq<char>, Seq<char>)>
    decreases n,
{
    if n <= 0 {
        Seq::empty()
    } else {
        let prev = removal_rows(computer_id, es, n - 1);
        if es[n - 1].action == PcLogAction::Removed {
            prev.push((computer_id, es[n - 1].software_name@, es[n - 1].date@))
        } else {
            prev
        }
    }
}

pub open spec fn removal_view(r: GlobalAuditRemovalRow) -> (u64, Seq<char>, Seq<char>) {
    (r.computer_id, r.software_name@, r.removed_at@)
}

pub open spec fn removal_views(s: Seq<GlobalAuditRemovalRow>) -> Seq<(u64, Seq<char>, Seq<char>)> {
    s.map_values(|r: GlobalAuditRemovalRow| removal_view(r))
}

/// Appends the uninstalls of one computer's history to `removals`.
pub fn collect_removals(removals: &mut Vec<GlobalAuditRemovalRow>, computer_id: u64, entries: &[PcSoftwareLogEntry])
    ensures
        removal_views(final(removals)@) == removal_views(old(removals)@) + removal_rows(
            computer_id,
            entries@,
            entries@.len() as int,
        ),
{
    let ghost start = removal_views(removals@);
    let mut j: usize = 0;
    while j < entries.len()
        invariant
            j <= entries@.len(),
            removal_views(removals@) == start + removal_rows(computer_id, entries@, j as int),
        decreases entries.len() - j,
    {
        let e = &entries[j];
        if e.action == PcLogAction::Removed {
            let ghost before = removals@;
            let row = GlobalAuditRemovalRow {
                computer_id,
                software_name: e.software_name.clone(),
                removed_at: e.date.clone(),
            };
            removals.push(row);
            assert(removal_views(removals@) =~= removal_views(before).push(removal_view(row)));
        }
        j = j + 1;
    }
}

/// The texts joined with "; ".
pub open spec fn joined(errors: Seq<Seq<char>>, n: int) -> Seq<char>
    decreases n,
{
    if n <= 0 {
        Seq::empty()
    } else if n == 1 {
        errors[0]
    } else {
        joined(errors, n - 1) + "; "@ + errors[n - 1]
    }
}

pub open spec fn error_texts(v: Seq<String>) -> Seq<Seq<char>> {
    v.map_values(|s: String| s@)
}

/// The outcome of a gathering of uninstalls: an error made of all the request
/// errors when nothing was found and some request failed; otherwise the rows
/// found and the errors met.
pub fn finish_audit_removals(removals: Vec<GlobalAuditRemovalRow>, errors: Vec<String>) -> (r: Result<
    (Vec<GlobalAuditRemovalRow>, Vec<String>),
    String,
>)
    ensures
        removals@.len() == 0 && errors@.len() > 0 ==> r is Err && r->Err_0@ == joined(
            error_texts(errors@),
            errors@.len() as int,
        ),
        !(removals@.len() == 0 && errors@.len() > 0) ==> r is Ok && r->Ok_0.0@ == removals@ && r->Ok_0.1@
            == errors@,
{
    if removals.len() == 0 && errors.len() > 0 {
        let mut msg: Vec<char> = Vec::new();
        let mut k: usize = 0;
        while k < errors.len()
            invariant
                k <= errors@.len(),
                msg@ == joined(error_texts(errors@), k as int),
            decreases errors.len() - k,
        {
            if k > 0 {
                msg.push(';');
                msg.push(' ');
            }
            let part = chars_of(errors[k].as_str());
            crate::history_store::append_chars(&mut msg, &part);
            proof {
                reveal_strlit("; ");
                assert(error_texts(errors@)[k as int] == errors@[k as int]@);
                if k == 0 {
                    assert(msg@ =~= joined(error_texts(errors@), 1));
                } else {
                    assert(msg@ =~= joined(error_texts(errors@), k as int) + "; "@ + errors@[k as int]@);
                }
            }
            k = k + 1;
        }
        return Err(string_from_chars(msg.as_slice()));
    }
    Ok((removals, errors))
}

} // verus!
