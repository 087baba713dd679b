//! The computers listed under a software row: those that have it installed and,
//! optionally, those the history shows it was removed from; with the host filter.
use crate::date_util::{date_in_recency_window, date_in_window};
use crate::models::{AggregatedSoftware, AuditRemovalGroup, ComputerInfo, FilterState};
use crate::sorting::{rearranged, sort_by_lt};
use crate::text::{is_blank, lowercase, str_eq, str_lt, text_lt, to_lower, trim, trim_str};
use std::collections::HashMap;
use vstd::std_specs::hash::spec_hash_keys_iter;
use vstd::std_specs::iter::IteratorSpec;
use vstd::prelude::*;

verus! {

broadcast use vstd::std_specs::hash::group_hash_axioms;

/// A computer line under a software row: installed (no removal date) or removed
/// according to the history (with the removal date).
#[derive(Debug, Clone)]
pub struct PcTabRow {
    pub id: u64,
    pub removed_at: Option<String>,
}

pub type PcTabView = (u64, Option<Seq<char>>);

pub open spec fn pc_tab_view(r: PcTabRow) -> PcTabView {
    (r.id, crate::date_util::opt_view(r.removed_at))
}

pub open spec fn pc_tab_views(s: Seq<PcTabRow>) -> Seq<PcTabView> {
    s.map_values(|r: PcTabRow| pc_tab_view(r))
}

/// A computer is shown: always, unless the filter asks for recent host
/// inventories; then only a computer whose inventory date (trimmed, not blank)
/// lies in the window of day `today`.
pub open spec fn host_visible(cmap: Map<u64, ComputerInfo>, f: FilterState, today: int, id: u64) -> bool {
    if !(f.recently_updated && f.recent_use_host_inventory) {
        true
    } else if cmap.contains_key(id) && trim(cmap[id].last_inventory@).len() > 0 {
        date_in_window(Some(trim(cmap[id].last_inventory@)), today, f)
    } else {
        false
    }
}

/// The name a computer line is sorted by: the computer's name, or nothing.
pub open spec fn pc_name(cmap: Map<u64, ComputerInfo>, id: u64) -> Seq<char> {
    if cmap.contains_key(id) {
        cmap[id].name@
    } else {
        Seq::empty()
    }
}

/// The installed lines for the first `n` of `keys`, in that order.
pub open spec fn installed_lines(
    keys: Seq<u64>,
    cmap: Map<u64, ComputerInfo>,
    f: FilterState,
    today: int,
    n: int,
) -> Seq<PcTabView>
    decreases n,
{
    if n <= 0 {
        Seq::empty()
    } else if host_visible(cmap, f, today, keys[n - 1]) {
        installed_lines(keys, cmap, f, today, n - 1).push((keys[n - 1], None))
    } else {
        installed_lines(keys, cmap, f, today, n - 1)
    }
}

/// The removal lines of the first `n` items of a history group: items of
/// computers that no longer have the software, and that are shown.
pub open spec fn removed_lines(
    g: AuditRemovalGroup,
    sw: AggregatedSoftware,
    cmap: Map<u64, ComputerInfo>,
    f: FilterState,
    today: int,
    n: int,
) -> Seq<PcTabView>
    decreases n,
{
    if n <= 0 {
        Seq::empty()
    } else {
        let prev = removed_lines(g, sw, cmap, f, today, n - 1);
        let it = g.items@[n - 1];
        if !sw.host_ids@.contains(it.computer_id) && host_visible(cmap, f, today, it.computer_id) {
            prev.push((it.computer_id, Some(it.removed_at@)))
        } else {
            prev
        }
    }
}

pub open spec fn all_removed_lines(
    group: Option<AuditRemovalGroup>,
    sw: AggregatedSoftware,
    cmap: Map<u64, ComputerInfo>,
    f: FilterState,
    today: int,
) -> Seq<PcTabView> {
    match group {
        Some(g) => removed_lines(g, sw, cmap, f, today, g.items@.len() as int),
        None => Seq::empty(),
    }
}

/// The computer lines of a software row on day `today`: for some order `keys`
/// of its computers (the order of the set's walk), the shown installed lines,
/// then the shown removal lines of `group`; sorted by lower-cased computer name,
/// equal names in that order.
pub open spec fn pc_tab_ok(
    sw: AggregatedSoftware,
    cmap: Map<u64, ComputerInfo>,
    f: FilterState,
    today: int,
    group: Option<AuditRemovalGroup>,
    r: Seq<PcTabRow>,
) -> bool {
    exists|keys: Seq<u64>, p: Seq<int>|
        {
            &&& keys.no_duplicates()
            &&& keys.to_set() == sw.host_ids@
            &&& #[trigger] rearranged(
                pc_tab_views(r),
                installed_lines(keys, cmap, f, today, keys.len() as int) + all_removed_lines(group, sw, cmap, f, today),
                p,
            )
            &&& forall|a: int, b: int|
                0 <= a < b < r.len() ==> text_lt(
                    to_lower(pc_name(cmap, (#[trigger] r[a]).id)),
                    to_lower(pc_name(cmap, (#[trigger] r[b]).id)),
                ) || (to_lower(pc_name(cmap, r[a].id)) == to_lower(pc_name(cmap, r[b].id)) && p[a] < p[b])
        }
}

fn visible_exec(cmap: &HashMap<u64, ComputerInfo>, f: &FilterState, today: i32, id: u64) -> (r: bool)
    ensures
        r == host_visible(cmap@, *f, today as int, id),
{
    if !(f.recently_updated && f.recent_use_host_inventory) {
        return true;
    }
    match cmap.get(&id) {
        Some(info) => {
            let s = trim_str(info.last_inventory.as_str());
            if s.as_str().is_empty() {
                return false;
            }
            let d = Some(s);
            date_in_recency_window(&d, today, f)
        },
        None => false,
    }
}

pub struct RankedLine {
    pub line: PcTabRow,
    pub lower: String,
    pub pos: usize,
}

pub open spec fn line_before(a: RankedLine, b: RankedLine) -> bool {
    text_lt(a.lower@, b.lower@) || (a.lower@ == b.lower@ && a.pos < b.pos)
}

fn line_less(a: &RankedLine, b: &RankedLine) -> (r: bool)
    ensures
        r == line_before(*a, *b),
{
    str_lt(a.lower.as_str(), b.lower.as_str()) || (str_eq(a.lower.as_str(), b.lower.as_str()) && a.pos < b.pos)
}

proof fn lemma_line_strict()
    ensures
        crate::sorting::strict_order(|a: RankedLine, b: RankedLine| line_before(a, b)),
{
    assert forall|a: RankedLine, b: RankedLine, c: RankedLine| #[trigger] line_before(a, b) && #[trigger] line_before(
        b,
        c,
    ) implies line_before(a, c) by {
        if text_lt(a.lower@, b.lower@) && text_lt(b.lower@, c.lower@) {
            crate::text::lemma_text_lt_transitive(a.lower@, b.lower@, c.lower@);
        }
    }
    assert forall|a: RankedLine, b: RankedLine| #[trigger] line_before(a, b) implies !line_before(b, a) by {
        if text_lt(a.lower@, b.lower@) {
            crate::text::lemma_text_lt_asymmetric(a.lower@, b.lower@);
        } else {
            crate::text::lemma_text_lt_irreflexive(a.lower@);
        }
    }
}

/// Lines collected with their lower-cased names, in collection order.
pub open spec fn lines_ok(lines: Seq<RankedLine>, want: Seq<PcTabView>, cmap: Map<u64, ComputerInfo>) -> bool {
    &&& lines.len() == want.len()
    &&& forall|i: int|
        0 <= i < lines.len() ==> pc_tab_view((#[trigger] lines[i]).line) == want[i] && lines[i].pos == i
            && lines[i].lower@ == to_lower(pc_name(cmap, lines[i].line.id))
}

fn push_line(lines: &mut Vec<RankedLine>, line: PcTabRow, cmap: &HashMap<u64, ComputerInfo>, Ghost(want): Ghost<Seq<PcTabView>>)
    requires
        lines_ok(old(lines)@, want, cmap@),
    ensures
        lines_ok(final(lines)@, want.push(pc_tab_view(line)), cmap@),
{
    let name = match cmap.get(&line.id) {
        Some(c) => c.name.clone(),
        None => String::new(),
    };
    let lower = lowercase(name.as_str());
    let pos = lines.len();
    let ghost before = lines@;
    lines.push(RankedLine { line, lower, pos });
    proof {
        let w2 = want.push(pc_tab_view(lines@[pos as int].line));
        assert forall|i: int| 0 <= i < lines@.len() implies pc_tab_view((#[trigger] lines@[i]).line) == w2[i]
            && lines@[i].pos == i && lines@[i].lower@ == to_lower(pc_name(cmap@, lines@[i].line.id)) by {
            if i < before.len() {
                assert(lines@[i] == before[i]);
            }
        }
    }
}

/// The computer lines under a software row (see `pc_tab_ok`); `audit_group` is
/// the history group of the software's lower-cased name when removals are shown.
pub fn pcs_tab_rows(
    sw: &AggregatedSoftware,
    computers: &HashMap<u64, ComputerInfo>,
    filters: &FilterState,
    today: i32,
    audit_group: Option<&AuditRemovalGroup>,
) -> (r: Vec<PcTabRow>)
    ensures
        pc_tab_ok(*sw, computers@, *filters, today as int, crate::agents::opt_deref(audit_group), r@),
{
    let ghost cmap = computers@;
    let ghost f = *filters;
    let ghost keys = spec_hash_keys_iter(&sw.host_ids).remaining().unref();
    let mut lines: Vec<RankedLine> = Vec::new();
    let ghost mut want: Seq<PcTabView> = Seq::empty();
    for h in it: sw.host_ids.iter()
        invariant
            cmap == computers@,
            f == *filters,
            it.seq().unref() == keys,
            keys.to_set() == sw.host_ids@,
            want == installed_lines(keys, cmap, f, today as int, it.index() as int),
            lines_ok(lines@, want, cmap),
    {
        let ghost k = it.index() as int;
        assert(keys[k] == *h);
        if visible_exec(computers, filters, today, *h) {
            let line = PcTabRow { id: *h, removed_at: None };
            push_line(&mut lines, line, computers, Ghost(want));
            proof {
                want = want.push((*h, None));
            }
        }
    }
    let ghost installed = want;
    let ghost mut extra: Seq<PcTabView> = Seq::empty();
    match audit_group {
        Some(g) => {
            let mut j: usize = 0;
            while j < g.items.len()
                invariant
                    j <= g.items@.len(),
                    cmap == computers@,
                    f == *filters,
                    extra == removed_lines(*g, *sw, cmap, f, today as int, j as int),
                    lines_ok(lines@, installed + extra, cmap),
                decreases g.items.len() - j,
            {
                let item = &g.items[j];
                if !sw.host_ids.contains(&item.computer_id) && visible_exec(computers, filters, today, item.computer_id) {
                    let line = PcTabRow { id: item.computer_id, removed_at: Some(item.removed_at.clone()) };
                    push_line(&mut lines, line, computers, Ghost(installed + extra));
                    proof {
                        assert((installed + extra).push((item.computer_id, Some(item.removed_at@))) =~= installed + extra.push(
                            (item.computer_id, Some(item.removed_at@)),
                        ));
                        extra = extra.push((item.computer_id, Some(item.removed_at@)));
                    }
                }
                j = j + 1;
            }
        },
        None => {
            assert(installed + extra =~= installed);
        },
    }
    proof {
        lemma_line_strict();
    }
    let ghost all = installed + extra;
    let ghost lv = lines@;
    let (sorted, Ghost(p)) = sort_by_lt(lines, line_less, Ghost(|a: RankedLine, b: RankedLine| line_before(a, b)));
    let mut out: Vec<PcTabRow> = Vec::new();
    let mut k: usize = 0;
    while k < sorted.len()
        invariant
            k <= sorted@.len(),
            out@.len() == k,
            forall|i: int| 0 <= i < k ==> pc_tab_view(#[trigger] out@[i]) == pc_tab_view(sorted@[i].line) && out@[i].id
                == sorted@[i].line.id,
        decreases sorted.len() - k,
    {
        let l = &sorted[k].line;
        let copy = PcTabRow {
            id: l.id,
            removed_at: match &l.removed_at {
                Some(s) => Some(s.clone()),
                None => None,
            },
        };
        out.push(copy);
        k = k + 1;
    }
    proof {
        assert(all == installed_lines(keys, cmap, f, today as int, keys.len() as int) + all_removed_lines(
            crate::agents::opt_deref(audit_group),
            *sw,
            cmap,
            f,
            today as int,
        ));
        assert(rearranged(pc_tab_views(out@), all, p)) by {
            assert forall|i: int| 0 <= i < out@.len() implies #[trigger] pc_tab_views(out@)[i] == all[p[i]] by {
                assert(sorted@[i] == lv[p[i]]);
            }
        }
        assert forall|a: int, b: int| 0 <= a < b < out@.len() implies text_lt(
            to_lower(pc_name(cmap, (#[trigger] out@[a]).id)),
            to_lower(pc_name(cmap, (#[trigger] out@[b]).id)),
        ) || (to_lower(pc_name(cmap, out@[a].id)) == to_lower(pc_name(cmap, out@[b].id)) && p[a] < p[b]) by {
            assert(!(|x: RankedLine, y: RankedLine| line_before(x, y))(sorted@[b], sorted@[a]));
            assert(sorted@[a] == lv[p[a]]);
            assert(sorted@[b] == lv[p[b]]);
            let la = to_lower(pc_name(cmap, out@[a].id));
            let lb = to_lower(pc_name(cmap, out@[b].id));
            if la != lb {
                crate::text::lemma_text_lt_total(la, lb);
            } else {
                assert(p[a] != p[b]);
            }
        }
        assert(keys.no_duplicates());
        assert(pc_tab_ok(*sw, computers@, *filters, today as int, crate::agents::opt_deref(audit_group), out@));
    }
    out
}

/// The history group of a key, when there is one.
pub fn find_audit_group<'a>(groups: &'a [(String, AuditRemovalGroup)], key: &str) -> (r: Option<&'a AuditRemovalGroup>)
    ensures
        match r {
            Some(g) => exists|i: int| 0 <= i < groups@.len() && groups@[i].0@ == key@ && groups@[i].1 == *g,
            None => forall|i: int| 0 <= i < groups@.len() ==> (#[trigger] groups@[i]).0@ != key@,
        },
{
    let mut i: usize = 0;
    while i < groups.len()
        invariant
            i <= groups@.len(),
            forall|j: int| 0 <= j < i ==> (#[trigger] groups@[j]).0@ != key@,
        decreases groups.len() - i,
    {
        if str_eq(groups[i].0.as_str(), key) {
            return Some(&groups[i].1);
        }
        i = i + 1;
    }
    None
}

} // verus!
