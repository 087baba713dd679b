//! Decisions the panels take about their own state: when the PC Software
//! panel's historical snapshot must be resolved again and what it resolves to,
//! and what a deletion of snapshots clears in the History panel.
use crate::history_query::{captured_in_range, latest_where, pick_snapshot_in_date_range};
use crate::models::{PcSoftwareHistCache, SnapshotSummary};
use crate::pc_software::{hist_range, resolve_hist_date_range, snapshot_head_fingerprint};
use crate::date_util::first_day;
use crate::sorted_texts::has_text;
use crate::text::str_eq;
use vstd::prelude::*;

verus! {

// ---------------------------------------------------------------------------
// The PC Software panel's historical snapshot
// ---------------------------------------------------------------------------
/// What the historical snapshot was resolved for: the two range texts, the
/// number of snapshots and the file name of the first one.
pub struct HistCacheKey {
    pub from: String,
    pub to: String,
    pub snapshot_count: usize,
    pub head: String,
}

pub type HistCacheKeyView = (Seq<char>, Seq<char>, usize, Seq<char>);

pub open spec fn key_view(k: HistCacheKey) -> HistCacheKeyView {
    (k.from@, k.to@, k.snapshot_count, k.head@)
}

/// What the panel does with its resolved snapshot this frame.
#[derive(Debug, Clone, Copy, PartialEq, Eq, Structural)]
pub enum HistCacheStep {
    /// The snapshot view is off: drop what was resolved.
    Clear,
    /// Nothing changed since the last resolution.
    Keep,
    /// Resolve again (see `hist_cache_source`).
    Rebuild,
}

/// The key for the current range texts and snapshot list.
pub fn hist_cache_key(from: &str, to: &str, snapshots: &[SnapshotSummary]) -> (r: HistCacheKey)
    ensures
        r.from@ == from@,
        r.to@ == to@,
        r.snapshot_count == snapshots@.len(),
        snapshots@.len() > 0 ==> r.head@ == snapshots@[0].file_name@,
        snapshots@.len() == 0 ==> r.head@.len() == 0,
{
    HistCacheKey {
        from: from.to_string(),
        to: to.to_string(),
        snapshot_count: snapshots.len(),
        head: snapshot_head_fingerprint(snapshots),
    }
}

/// Off: clear. On, not marked dirty, resolved before for the same key and
/// holding a result: keep. Otherwise resolve again.
pub open spec fn hist_step(enabled: bool, dirty: bool, cached: Option<HistCacheKeyView>, key: HistCacheKeyView, has_cache: bool) -> HistCacheStep {
    if !enabled {
        HistCacheStep::Clear
    } else if !dirty && cached == Some(key) && has_cache {
        HistCacheStep::Keep
    } else {
        HistCacheStep::Rebuild
    }
}

pub open spec fn opt_key_view(k: Option<HistCacheKey>) -> Option<HistCacheKeyView> {
    match k {
        Some(k) => Some(key_view(k)),
        None => None,
    }
}

fn same_key(a: &HistCacheKey, b: &HistCacheKey) -> (r: bool)
    ensures
        r == (key_view(*a) == key_view(*b)),
{
    str_eq(a.from.as_str(), b.from.as_str()) && str_eq(a.to.as_str(), b.to.as_str()) && a.snapshot_count
        == b.snapshot_count && str_eq(a.head.as_str(), b.head.as_str())
}

/// Whether the panel clears, keeps or resolves again its historical snapshot.
pub fn hist_cache_step(
    enabled: bool,
    dirty: bool,
    cached_key: &Option<HistCacheKey>,
    key: &HistCacheKey,
    cache: &Option<PcSoftwareHistCache>,
) -> (r: HistCacheStep)
    ensures
        r == hist_step(enabled, dirty, opt_key_view(*cached_key), key_view(*key), cache is Some),
{
    if !enabled {
        return HistCacheStep::Clear;
    }
    if !dirty {
        if let Some(k) = cached_key {
            if same_key(k, key) && cache.is_some() {
                return HistCacheStep::Keep;
            }
        }
    }
    HistCacheStep::Rebuild
}

/// What a resolution yields before any file is read: the snapshot to load, or
/// the cache value that says why there is none.
pub open spec fn hist_source(from: Seq<char>, to: Seq<char>, today: int, snapshots: Seq<SnapshotSummary>) -> Result<
    SnapshotSummary,
    PcSoftwareHistCache,
> {
    match hist_range(from, to, today) {
        None => Err(PcSoftwareHistCache::InvalidDates),
        Some((f, t)) => match latest_where(snapshots, |s: SnapshotSummary| captured_in_range(s, f, t)) {
            Some(s) => Ok(s),
            None => Err(PcSoftwareHistCache::NoSnapshotInRange),
        },
    }
}

/// Resolves the range texts on day `today` and picks the latest snapshot
/// captured in it (see `hist_source`).
pub fn hist_cache_source(from: &str, to: &str, today: i32, snapshots: &[SnapshotSummary]) -> (r: Result<
    SnapshotSummary,
    PcSoftwareHistCache,
>)
    requires
        today - 120 >= first_day(),
    ensures
        r == hist_source(from@, to@, today as int, snapshots@),
{
    match resolve_hist_date_range(from, to, today) {
        Err(()) => Err(PcSoftwareHistCache::InvalidDates),
        Ok((f, t)) => match pick_snapshot_in_date_range(snapshots, f, t) {
            Some(s) => Ok(s),
            None => Err(PcSoftwareHistCache::NoSnapshotInRange),
        },
    }
}

// ---------------------------------------------------------------------------
// Deleting snapshots from the History panel
// ---------------------------------------------------------------------------
/// What a deletion of snapshots clears in the History panel.
#[derive(Debug, Clone, Copy, PartialEq, Eq, Structural)]
pub struct RemovedSnapshotEffects {
    pub clear_compare_a: bool,
    pub clear_compare_b: bool,
    pub clear_diff: bool,
    pub clear_selected: bool,
    pub resolve_again: bool,
}

/// The chosen snapshot `o` is among the deleted files.
pub open spec fn chosen_removed(o: Option<String>, removed: Seq<String>) -> bool {
    match o {
        Some(f) => has_text(removed, f@),
        None => false,
    }
}

fn text_listed(f: &String, removed: &[String]) -> (r: bool)
    ensures
        r == has_text(removed@, f@),
{
    let mut i: usize = 0;
    while i < removed.len()
        invariant
            i <= removed@.len(),
            forall|j: int| 0 <= j < i ==> (#[trigger] removed@[j])@ != f@,
        decreases removed.len() - i,
    {
        if str_eq(removed[i].as_str(), f.as_str()) {
            assert(removed@[i as int]@ == f@);
            return true;
        }
        i = i + 1;
    }
    false
}

fn is_removed(o: &Option<String>, removed: &[String]) -> (r: bool)
    ensures
        r == chosen_removed(*o, removed@),
{
    match o {
        None => false,
        Some(f) => text_listed(f, removed),
    }
}

/// A compared snapshot that was deleted is unset, and the comparison goes with
/// it; a deleted selected snapshot is unset with its rows, and in history mode
/// a snapshot is resolved again for the chosen day.
pub fn removed_snapshot_effects(
    compare_a: &Option<String>,
    compare_b: &Option<String>,
    selected: &Option<String>,
    removed: &[String],
    history_mode: bool,
) -> (r: RemovedSnapshotEffects)
    ensures
        r.clear_compare_a == chosen_removed(*compare_a, removed@),
        r.clear_compare_b == chosen_removed(*compare_b, removed@),
        r.clear_diff == (r.clear_compare_a || r.clear_compare_b),
        r.clear_selected == chosen_removed(*selected, removed@),
        r.resolve_again == (r.clear_selected && history_mode),
{
    let a = is_removed(compare_a, removed);
    let b = is_removed(compare_b, removed);
    let s = is_removed(selected, removed);
    RemovedSnapshotEffects {
        clear_compare_a: a,
        clear_compare_b: b,
        clear_diff: a || b,
        clear_selected: s,
        resolve_again: s && history_mode,
    }
}

} // verus!
