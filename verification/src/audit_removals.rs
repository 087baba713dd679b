//! Uninstalls found in GLPI history, grouped by software name for the main table.
use crate::models::{AggregatedSoftware, AuditRemovalGroup, AuditRemovalItem, ComputerInfo, GlobalAuditRemovalRow};
use crate::pc_software::join_texts;
use crate::sorted_texts::{has_text, insert_text, lists_set, strictly_sorted, texts};
use crate::sorting::is_permutation;
use crate::sorting::{rearranged, sort_by_lt};
use crate::text::{
    byte_prefix_or_all, chars_byte_prefix_or_all, chars_of, is_blank, join, lowercase, str_eq, str_lt, string_from_chars,
    text_lt, to_lower, trim, trim_str,
};
use std::collections::HashMap;
use vstd::prelude::*;

verus! {

broadcast use vstd::std_specs::hash::group_hash_axioms;

/// The key a removal is grouped by: its software name trimmed and lower-cased.
pub open spec fn removal_key(r: GlobalAuditRemovalRow) -> Seq<char> {
    to_lower(trim(r.software_name@))
}

/// Row `i` counts: its key is not empty and no earlier row has the same
/// computer and key.
pub open spec fn removal_kept(rows: Seq<GlobalAuditRemovalRow>, i: int) -> bool {
    &&& removal_key(rows[i]).len() > 0
    &&& !exists|j: int|
        0 <= j < i && #[trigger] rows[j].computer_id == rows[i].computer_id && removal_key(rows[j]) == removal_key(
            rows[i],
        )
}

/// The keys of the counted rows among the first `n`, each once, in order of
/// first appearance.
pub open spec fn removal_keys(rows: Seq<GlobalAuditRemovalRow>, n: int) -> Seq<Seq<char>>
    decreases n,
{
    if n <= 0 {
        Seq::empty()
    } else {
        let prev = removal_keys(rows, n - 1);
        if removal_kept(rows, n - 1) && !prev.contains(removal_key(rows[n - 1])) {
            prev.push(removal_key(rows[n - 1]))
        } else {
            prev
        }
    }
}

pub type ItemView = (u64, Seq<char>, Seq<char>);

pub open spec fn item_view(it: AuditRemovalItem) -> ItemView {
    (it.computer_id, it.computer_name@, it.removed_at@)
}

pub open spec fn item_views(s: Seq<AuditRemovalItem>) -> Seq<ItemView> {
    s.map_values(|it: AuditRemovalItem| item_view(it))
}

/// The name of computer `id`, or nothing when it is not known.
pub open spec fn computer_name_of(cmap: Map<u64, ComputerInfo>, id: u64) -> Seq<char> {
    if cmap.contains_key(id) {
        cmap[id].name@
    } else {
        Seq::empty()
    }
}

/// The items of key `k` from the counted rows among the first `n`, in order.
pub open spec fn removal_items(rows: Seq<GlobalAuditRemovalRow>, cmap: Map<u64, ComputerInfo>, k: Seq<char>, n: int) -> Seq<
    ItemView,
>
    decreases n,
{
    if n <= 0 {
        Seq::empty()
    } else {
        let prev = removal_items(rows, cmap, k, n - 1);
        let r = rows[n - 1];
        if removal_kept(rows, n - 1) && removal_key(r) == k {
            prev.push((r.computer_id, computer_name_of(cmap, r.computer_id), r.removed_at@))
        } else {
            prev
        }
    }
}

/// The label of key `k`: the trimmed name of its first counted row that has one.
pub open spec fn removal_label(rows: Seq<GlobalAuditRemovalRow>, k: Seq<char>, n: int) -> Seq<char>
    decreases n,
{
    if n <= 0 {
        Seq::empty()
    } else {
        let prev = removal_label(rows, k, n - 1);
        let r = rows[n - 1];
        if prev.len() == 0 && removal_kept(rows, n - 1) && removal_key(r) == k && trim(r.software_name@).len() > 0 {
            trim(r.software_name@)
        } else {
            prev
        }
    }
}

/// A group's items: `want` sorted by lower-cased computer name, equal names in
/// their order.
pub open spec fn items_sorted_ok(want: Seq<ItemView>, r: Seq<AuditRemovalItem>) -> bool {
    exists|p: Seq<int>|
        #[trigger] rearranged(item_views(r), want, p) && forall|a: int, b: int|
            0 <= a < b < r.len() ==> text_lt(
                to_lower((#[trigger] r[a]).computer_name@),
                to_lower((#[trigger] r[b]).computer_name@),
            ) || (to_lower(r[a].computer_name@) == to_lower(r[b].computer_name@) && p[a] < p[b])
}

/// The grouping of a list of removals: one group per key in order of first
/// appearance, labelled, with its items sorted by computer name.
pub open spec fn grouped_ok(
    rows: Seq<GlobalAuditRemovalRow>,
    cmap: Map<u64, ComputerInfo>,
    r: Seq<(String, AuditRemovalGroup)>,
) -> bool {
    let n = rows.len() as int;
    let keys = removal_keys(rows, n);
    &&& r.len() == keys.len()
    &&& forall|g: int|
        0 <= g < r.len() ==> (#[trigger] r[g]).0@ == keys[g] && r[g].1.display_label@ == removal_label(rows, keys[g], n)
            && items_sorted_ok(removal_items(rows, cmap, keys[g], n), r[g].1.items@)
}

pub struct ScanGroup {
    pub key: String,
    pub label: String,
    pub items: Vec<AuditRemovalItem>,
}

pub open spec fn scan_ok(
    rows: Seq<GlobalAuditRemovalRow>,
    cmap: Map<u64, ComputerInfo>,
    n: int,
    groups: Seq<ScanGroup>,
) -> bool {
    let keys = removal_keys(rows, n);
    &&& groups.len() == keys.len()
    &&& forall|g: int|
        0 <= g < groups.len() ==> (#[trigger] groups[g]).key@ == keys[g] && groups[g].label@ == removal_label(
            rows,
            keys[g],
            n,
        ) && item_views(groups[g].items@) == removal_items(rows, cmap, keys[g], n)
}

/// The (computer, key) pairs met among the first `n` rows with a non-empty key.
pub open spec fn pair_met(rows: Seq<GlobalAuditRemovalRow>, n: int, id: u64, k: Seq<char>) -> bool {
    exists|j: int| 0 <= j < n && #[trigger] rows[j].computer_id == id && removal_key(rows[j]) == k && k.len() > 0
}

proof fn lemma_keys_distinct(rows: Seq<GlobalAuditRemovalRow>, n: int)
    ensures
        removal_keys(rows, n).no_duplicates(),
    decreases n,
{
    if n > 0 {
        lemma_keys_distinct(rows, n - 1);
        let prev = removal_keys(rows, n - 1);
        if removal_kept(rows, n - 1) && !prev.contains(removal_key(rows[n - 1])) {
            let cur = prev.push(removal_key(rows[n - 1]));
            assert forall|a: int, b: int| 0 <= a < cur.len() && 0 <= b < cur.len() && a != b implies cur[a] != cur[b] by {
                if a < prev.len() && b < prev.len() {
                } else if a < prev.len() {
                    assert(prev.contains(cur[a]));
                } else {
                    assert(prev.contains(cur[b]));
                }
            }
        }
    }
}

proof fn lemma_keys_grow(rows: Seq<GlobalAuditRemovalRow>, n: int, k: Seq<char>)
    requires
        n > 0,
        removal_keys(rows, n - 1).contains(k),
    ensures
        removal_keys(rows, n).contains(k),
{
    let prev = removal_keys(rows, n - 1);
    let i = choose|i: int| 0 <= i < prev.len() && prev[i] == k;
    if removal_kept(rows, n - 1) && !prev.contains(removal_key(rows[n - 1])) {
        assert(prev.push(removal_key(rows[n - 1]))[i] == k);
    }
}

proof fn lemma_new_key_empty(rows: Seq<GlobalAuditRemovalRow>, cmap: Map<u64, ComputerInfo>, n: int, k: Seq<char>)
    requires
        !removal_keys(rows, n).contains(k),
    ensures
        removal_items(rows, cmap, k, n) == Seq::<ItemView>::empty(),
        removal_label(rows, k, n) == Seq::<char>::empty(),
    decreases n,
{
    if n > 0 {
        let prev = removal_keys(rows, n - 1);
        if prev.contains(k) {
            lemma_keys_grow(rows, n, k);
        }
        lemma_new_key_empty(rows, cmap, n - 1, k);
        if removal_kept(rows, n - 1) && removal_key(rows[n - 1]) == k {
            assert(prev.push(k)[prev.len() as int] == k);
        }
    }
}

fn find_pair(seen: &Vec<(u64, String)>, id: u64, key: &str) -> (r: bool)
    ensures
        r == exists|i: int| 0 <= i < seen@.len() && (#[trigger] seen@[i]).0 == id && seen@[i].1@ == key@,
{
    let mut i: usize = 0;
    while i < seen.len()
        invariant
            i <= seen@.len(),
            forall|j: int| 0 <= j < i ==> !((#[trigger] seen@[j]).0 == id && seen@[j].1@ == key@),
        decreases seen.len() - i,
    {
        if seen[i].0 == id && str_eq(seen[i].1.as_str(), key) {
            return true;
        }
        i = i + 1;
    }
    false
}

fn find_scan_group(groups: &Vec<ScanGroup>, key: &str) -> (r: Option<usize>)
    ensures
        match r {
            Some(g) => g < groups@.len() && groups@[g as int].key@ == key@,
            None => forall|g: int| 0 <= g < groups@.len() ==> (#[trigger] groups@[g]).key@ != key@,
        },
{
    let mut g: usize = 0;
    while g < groups.len()
        invariant
            g <= groups@.len(),
            forall|h: int| 0 <= h < g ==> (#[trigger] groups@[h]).key@ != key@,
        decreases groups.len() - g,
    {
        if str_eq(groups[g].key.as_str(), key) {
            return Some(g);
        }
        g = g + 1;
    }
    None
}

pub struct RankedItem {
    pub item: AuditRemovalItem,
    pub lower: String,
    pub pos: usize,
}

pub open spec fn item_before(a: RankedItem, b: RankedItem) -> bool {
    text_lt(a.lower@, b.lower@) || (a.lower@ == b.lower@ && a.pos < b.pos)
}

fn item_less(a: &RankedItem, b: &RankedItem) -> (r: bool)
    ensures
        r == item_before(*a, *b),
{
    str_lt(a.lower.as_str(), b.lower.as_str()) || (str_eq(a.lower.as_str(), b.lower.as_str()) && a.pos < b.pos)
}

proof fn lemma_item_strict()
    ensures
        crate::sorting::strict_order(|a: RankedItem, b: RankedItem| item_before(a, b)),
{
    assert forall|a: RankedItem, b: RankedItem, c: RankedItem| #[trigger] item_before(a, b) && #[trigger] item_before(
        b,
        c,
    ) implies item_before(a, c) by {
        if text_lt(a.lower@, b.lower@) && text_lt(b.lower@, c.lower@) {
            crate::text::lemma_text_lt_transitive(a.lower@, b.lower@, c.lower@);
        }
    }
    assert forall|a: RankedItem, b: RankedItem| #[trigger] item_before(a, b) implies !item_before(b, a) by {
        if text_lt(a.lower@, b.lower@) {
            crate::text::lemma_text_lt_asymmetric(a.lower@, b.lower@);
        } else {
            crate::text::lemma_text_lt_irreflexive(a.lower@);
        }
    }
}

fn sort_items(items: Vec<AuditRemovalItem>) -> (r: Vec<AuditRemovalItem>)
    ensures
        items_sorted_ok(item_views(items@), r@),
{
    let ghost orig = items@;
    let mut ranked: Vec<RankedItem> = Vec::new();
    let mut src = items;
    let n = src.len();
    let mut k: usize = 0;
    while k < n
        invariant
            n == orig.len(),
            k <= n,
            src@ == orig.skip(k as int),
            ranked@.len() == k,
            forall|i: int|
                0 <= i < k ==> (#[trigger] ranked@[i]).item == orig[i] && ranked@[i].pos == i && ranked@[i].lower@
                    == to_lower(orig[i].computer_name@),
        decreases n - k,
    {
        let it = src.remove(0);
        proof {
            assert(orig.skip(k as int)[0] == orig[k as int]);
            assert(src@ =~= orig.skip(k + 1));
        }
        let lower = lowercase(it.computer_name.as_str());
        let ghost before = ranked@;
        ranked.push(RankedItem { item: it, lower, pos: k });
        proof {
            assert forall|i: int| 0 <= i < k + 1 implies (#[trigger] ranked@[i]).item == orig[i] && ranked@[i].pos == i
                && ranked@[i].lower@ == to_lower(orig[i].computer_name@) by {
                if i < k {
                    assert(ranked@[i] == before[i]);
                }
            }
        }
        k = k + 1;
    }
    proof {
        lemma_item_strict();
    }
    let ghost rv = ranked@;
    let (sorted, Ghost(p)) = sort_by_lt(ranked, item_less, Ghost(|a: RankedItem, b: RankedItem| item_before(a, b)));
    let mut out: Vec<AuditRemovalItem> = Vec::new();
    let mut rest = sorted;
    let ghost sv = rest@;
    let m = rest.len();
    let mut j: usize = 0;
    while j < m
        invariant
            m == sv.len(),
            j <= m,
            rest@ == sv.skip(j as int),
            out@.len() == j,
            forall|i: int| 0 <= i < j ==> #[trigger] out@[i] == sv[i].item,
        decreases m - j,
    {
        let x = rest.remove(0);
        proof {
            assert(sv.skip(j as int)[0] == sv[j as int]);
            assert(rest@ =~= sv.skip(j + 1));
        }
        out.push(x.item);
        j = j + 1;
    }
    proof {
        let want = item_views(orig);
        assert(rearranged(item_views(out@), want, p)) by {
            assert forall|i: int| 0 <= i < out@.len() implies #[trigger] item_views(out@)[i] == want[p[i]] by {
                assert(sv[i] == rv[p[i]]);
            }
        }
        assert forall|a: int, b: int| 0 <= a < b < out@.len() implies text_lt(
            to_lower((#[trigger] out@[a]).computer_name@),
            to_lower((#[trigger] out@[b]).computer_name@),
        ) || (to_lower(out@[a].computer_name@) == to_lower(out@[b].computer_name@) && p[a] < p[b]) by {
            assert(!(|x: RankedItem, y: RankedItem| item_before(x, y))(sv[b], sv[a]));
            assert(sv[a] == rv[p[a]]);
            assert(sv[b] == rv[p[b]]);
            if to_lower(out@[a].computer_name@) != to_lower(out@[b].computer_name@) {
                crate::text::lemma_text_lt_total(to_lower(out@[a].computer_name@), to_lower(out@[b].computer_name@));
            } else {
                assert(p[a] != p[b]);
            }
        }
    }
    out
}

/// Groups the removals found in GLPI history by software name (see `grouped_ok`).
pub fn merge_audit_removals(rows: &[GlobalAuditRemovalRow], computers: &HashMap<u64, ComputerInfo>) -> (r: Vec<
    (String, AuditRemovalGroup),
>)
    ensures
        grouped_ok(rows@, computers@, r@),
{
    let ghost rs = rows@;
    let ghost cmap = computers@;
    let mut seen: Vec<(u64, String)> = Vec::new();
    let mut groups: Vec<ScanGroup> = Vec::new();
    let mut i: usize = 0;
    while i < rows.len()
        invariant
            i <= rs.len(),
            rs == rows@,
            cmap == computers@,
            scan_ok(rs, cmap, i as int, groups@),
            forall|id: u64, k: Seq<char>|
                #![trigger pair_met(rs, i as int, id, k)]
                pair_met(rs, i as int, id, k) <==> exists|q: int|
                    0 <= q < seen@.len() && (#[trigger] seen@[q]).0 == id && seen@[q].1@ == k,
        decreases rows.len() - i,
    {
        let row = &rows[i];
        let ghost n = i as int;
        let ghost keys0 = removal_keys(rs, n);
        let t = trim_str(row.software_name.as_str());
        let key = lowercase(t.as_str());
        proof {
            assert(key@ == removal_key(rs[n]));
            assert(removal_kept(rs, n) == (key@.len() > 0 && !pair_met(rs, n, row.computer_id, key@))) by {
                if pair_met(rs, n, row.computer_id, key@) {
                    let j = choose|j: int|
                        0 <= j < n && #[trigger] rs[j].computer_id == row.computer_id && removal_key(rs[j]) == key@
                            && key@.len() > 0;
                    assert(rs[j].computer_id == rs[n].computer_id);
                }
                if exists|j: int|
                    0 <= j < n && #[trigger] rs[j].computer_id == rs[n].computer_id && removal_key(rs[j]) == removal_key(
                        rs[n],
                    ) {
                    let j = choose|j: int|
                        0 <= j < n && #[trigger] rs[j].computer_id == rs[n].computer_id && removal_key(rs[j])
                            == removal_key(rs[n]);
                    if key@.len() > 0 {
                        assert(pair_met(rs, n, row.computer_id, key@));
                    }
                }
            }
        }
        let empty = key.as_str().is_empty();
        let met = if empty {
            false
        } else {
            find_pair(&seen, row.computer_id, key.as_str())
        };
        if empty || met {
            proof {
                assert(!removal_kept(rs, n));
                let keys1 = removal_keys(rs, n + 1);
                assert(keys1 == keys0);
                assert forall|g: int| 0 <= g < groups@.len() implies (#[trigger] groups@[g]).key@ == keys1[g]
                    && groups@[g].label@ == removal_label(rs, keys1[g], n + 1) && item_views(groups@[g].items@)
                    == removal_items(rs, cmap, keys1[g], n + 1) by {}
                assert forall|id: u64, k: Seq<char>| #![trigger pair_met(rs, n + 1, id, k)]
                    pair_met(rs, n + 1, id, k) <==> exists|q: int|
                        0 <= q < seen@.len() && (#[trigger] seen@[q]).0 == id && seen@[q].1@ == k by {
                    if pair_met(rs, n + 1, id, k) && !pair_met(rs, n, id, k) {
                        assert(rs[n].computer_id == id && removal_key(rs[n]) == k && k.len() > 0);
                    }
                    if pair_met(rs, n, id, k) {
                        let j = choose|j: int|
                            0 <= j < n && #[trigger] rs[j].computer_id == id && removal_key(rs[j]) == k && k.len() > 0;
                        assert(0 <= j < n + 1);
                    }
                }
            }
        } else {
            let ghost seen0 = seen@;
            seen.push((row.computer_id, key.clone()));
            proof {
                assert forall|id: u64, k: Seq<char>| #![trigger pair_met(rs, n + 1, id, k)]
                    pair_met(rs, n + 1, id, k) <==> exists|q: int|
                        0 <= q < seen@.len() && (#[trigger] seen@[q]).0 == id && seen@[q].1@ == k by {
                    if pair_met(rs, n + 1, id, k) {
                        let j = choose|j: int|
                            0 <= j < n + 1 && #[trigger] rs[j].computer_id == id && removal_key(rs[j]) == k && k.len() > 0;
                        if j < n {
                            assert(pair_met(rs, n, id, k));
                            let q = choose|q: int| 0 <= q < seen0.len() && (#[trigger] seen0[q]).0 == id && seen0[q].1@ == k;
                            assert(seen@[q] == seen0[q]);
                        } else {
                            assert(seen@[seen0.len() as int].0 == id);
                        }
                    }
                    if exists|q: int| 0 <= q < seen@.len() && (#[trigger] seen@[q]).0 == id && seen@[q].1@ == k {
                        let q = choose|q: int| 0 <= q < seen@.len() && (#[trigger] seen@[q]).0 == id && seen@[q].1@ == k;
                        if q < seen0.len() {
                            assert(seen0[q] == seen@[q]);
                            assert(pair_met(rs, n, id, k));
                            let j = choose|j: int|
                                0 <= j < n && #[trigger] rs[j].computer_id == id && removal_key(rs[j]) == k && k.len() > 0;
                            assert(0 <= j < n + 1);
                        } else {
                            assert(rs[n].computer_id == id && removal_key(rs[n]) == k && k.len() > 0);
                        }
                    }
                }
            }
            let computer_name = match computers.get(&row.computer_id) {
                Some(c) => c.name.clone(),
                None => String::new(),
            };
            let item = AuditRemovalItem {
                computer_id: row.computer_id,
                computer_name,
                removed_at: row.removed_at.clone(),
            };
            let ghost iv = (row.computer_id, computer_name_of(cmap, row.computer_id), row.removed_at@);
            assert(item_view(item) == iv);
            let has_name = !t.as_str().is_empty();
            match find_scan_group(&groups, key.as_str()) {
                Some(g) => {
                    let ghost before = groups@;
                    proof {
                        assert(keys0[g as int] == key@);
                        assert(keys0.contains(key@));
                        assert(removal_keys(rs, n + 1) == keys0);
                        lemma_keys_distinct(rs, n);
                    }
                    let mut grp = groups.remove(g);
                    assert(grp == before[g as int]);
                    let ghost old_items = grp.items@;
                    if grp.label.as_str().is_empty() && has_name {
                        grp.label = t.clone();
                    }
                    grp.items.push(item);
                    assert(item_views(grp.items@) =~= item_views(old_items).push(iv));
                    groups.insert(g, grp);
                    proof {
                        assert(groups@ =~= before.update(g as int, grp));
                        assert forall|h: int| 0 <= h < groups@.len() implies (#[trigger] groups@[h]).key@ == keys0[h]
                            && groups@[h].label@ == removal_label(rs, keys0[h], n + 1) && item_views(groups@[h].items@)
                            == removal_items(rs, cmap, keys0[h], n + 1) by {
                            if h != g as int {
                                assert(groups@[h] == before[h]);
                                assert(keys0[h] != key@);
                            }
                        }
                    }
                },
                None => {
                    let mut items: Vec<AuditRemovalItem> = Vec::new();
                    items.push(item);
                    let label = if has_name {
                        t.clone()
                    } else {
                        String::new()
                    };
                    let grp = ScanGroup { key: key.clone(), label, items };
                    proof {
                        assert(!keys0.contains(key@)) by {
                            if keys0.contains(key@) {
                                let h = choose|h: int| 0 <= h < keys0.len() && keys0[h] == key@;
                                assert(groups@[h].key@ == key@);
                            }
                        }
                        lemma_new_key_empty(rs, cmap, n, key@);
                        assert(item_views(grp.items@) =~= seq![iv]);
                    }
                    let ghost before = groups@;
                    groups.push(grp);
                    proof {
                        let keys1 = removal_keys(rs, n + 1);
                        assert(keys1 == keys0.push(key@));
                        assert forall|h: int| 0 <= h < groups@.len() implies (#[trigger] groups@[h]).key@ == keys1[h]
                            && groups@[h].label@ == removal_label(rs, keys1[h], n + 1) && item_views(groups@[h].items@)
                            == removal_items(rs, cmap, keys1[h], n + 1) by {
                            if h < before.len() {
                                assert(groups@[h] == before[h]);
                                assert(keys1[h] == keys0[h]);
                                assert(keys0[h] != key@) by {
                                    assert(keys0.contains(keys0[h]));
                                }
                            }
                        }
                    }
                },
            }
        }
        i = i + 1;
    }
    let ghost keys = removal_keys(rs, rs.len() as int);
    let mut out: Vec<(String, AuditRemovalGroup)> = Vec::new();
    let mut rest = groups;
    let ghost gv = rest@;
    let m = rest.len();
    let mut j: usize = 0;
    while j < m
        invariant
            m == gv.len(),
            j <= m,
            rest@ == gv.skip(j as int),
            scan_ok(rs, cmap, rs.len() as int, gv),
            keys == removal_keys(rs, rs.len() as int),
            out@.len() == j,
            forall|g: int|
                0 <= g < j ==> (#[trigger] out@[g]).0@ == keys[g] && out@[g].1.display_label@ == removal_label(
                    rs,
                    keys[g],
                    rs.len() as int,
                ) && items_sorted_ok(removal_items(rs, cmap, keys[g], rs.len() as int), out@[g].1.items@),
        decreases m - j,
    {
        let grp = rest.remove(0);
        proof {
            assert(gv.skip(j as int)[0] == gv[j as int]);
            assert(rest@ =~= gv.skip(j + 1));
        }
        let sorted = sort_items(grp.items);
        let ghost before = out@;
        out.push((grp.key, AuditRemovalGroup { display_label: grp.label, items: sorted }));
        proof {
            assert forall|g: int| 0 <= g < j + 1 implies (#[trigger] out@[g]).0@ == keys[g] && out@[g].1.display_label@
                == removal_label(rs, keys[g], rs.len() as int) && items_sorted_ok(
                removal_items(rs, cmap, keys[g], rs.len() as int),
                out@[g].1.items@,
            ) by {
                if g < j {
                    assert(out@[g] == before[g]);
                }
            }
        }
        j = j + 1;
    }
    out
}

// ---------------------------------------------------------------------------
// Removals of software that is no longer in the inventory
// ---------------------------------------------------------------------------
/// A history group whose software no longer appears in the inventory, as listed
/// below the main table: its title, how many computers it was removed from, and
/// the distinct removal dates.
pub struct RemovalOnlyRow {
    pub key: String,
    pub title: String,
    pub host_count: usize,
    pub dates: String,
}

/// Some software of the inventory has the lower-cased name `k`.
pub open spec fn in_inventory(all: Seq<AggregatedSoftware>, k: Seq<char>) -> bool {
    exists|i: int| 0 <= i < all.len() && (#[trigger] all[i]).name_lower@ == k
}

/// The days of a group's removals: the first ten bytes of each removal time
/// (the whole text where byte ten is not a character boundary).
pub open spec fn removal_dates(items: Seq<AuditRemovalItem>) -> Set<Seq<char>> {
    Set::new(
        |d: Seq<char>|
            exists|i: int| 0 <= i < items.len() && byte_prefix_or_all((#[trigger] items[i]).removed_at@, 10) == d,
    )
}

/// A group's title: its label, or its key when the label is empty.
pub open spec fn group_title(g: (String, AuditRemovalGroup)) -> Seq<char> {
    if g.1.display_label@.len() == 0 {
        g.0@
    } else {
        g.1.display_label@
    }
}

/// `row` describes group `g`; its dates are the group's removal days in
/// increasing order, joined with ", ".
pub open spec fn row_describes(row: RemovalOnlyRow, g: (String, AuditRemovalGroup)) -> bool {
    &&& row.key@ == g.0@
    &&& row.title@ == group_title(g)
    &&& row.host_count == g.1.items@.len()
    &&& exists|v: Seq<String>| #[trigger] lists_set(v, removal_dates(g.1.items@)) && row.dates@ == join(texts(v), ", "@)
}

/// The positions of the groups among the first `n` whose key names no software
/// of the inventory.
pub open spec fn removal_only_positions(
    groups: Seq<(String, AuditRemovalGroup)>,
    all: Seq<AggregatedSoftware>,
    n: int,
) -> Seq<int>
    decreases n,
{
    if n <= 0 {
        Seq::empty()
    } else if !in_inventory(all, groups[n - 1].0@) {
        removal_only_positions(groups, all, n - 1).push(n - 1)
    } else {
        removal_only_positions(groups, all, n - 1)
    }
}

/// One row per group not in the inventory, sorted by key; equal keys in the
/// groups' order.
pub open spec fn removal_only_ok(
    groups: Seq<(String, AuditRemovalGroup)>,
    all: Seq<AggregatedSoftware>,
    r: Seq<RemovalOnlyRow>,
) -> bool {
    let pos = removal_only_positions(groups, all, groups.len() as int);
    exists|p: Seq<int>|
        {
            &&& #[trigger] is_permutation(p, pos.len() as int)
            &&& r.len() == pos.len()
            &&& forall|i: int| 0 <= i < r.len() ==> row_describes(#[trigger] r[i], groups[pos[p[i]]])
            &&& forall|a: int, b: int|
                0 <= a < b < r.len() ==> text_lt((#[trigger] r[a]).key@, (#[trigger] r[b]).key@) || (r[a].key@
                    == r[b].key@ && p[a] < p[b])
        }
}

fn name_in_inventory(all: &[AggregatedSoftware], k: &str) -> (r: bool)
    ensures
        r == in_inventory(all@, k@),
{
    let mut i: usize = 0;
    while i < all.len()
        invariant
            i <= all@.len(),
            forall|j: int| 0 <= j < i ==> (#[trigger] all@[j]).name_lower@ != k@,
        decreases all.len() - i,
    {
        if str_eq(all[i].name_lower.as_str(), k) {
            return true;
        }
        i = i + 1;
    }
    false
}

fn removal_dates_text(items: &Vec<AuditRemovalItem>) -> (r: String)
    ensures
        exists|v: Seq<String>| #[trigger] lists_set(v, removal_dates(items@)) && r@ == join(texts(v), ", "@),
{
    let mut v: Vec<String> = Vec::new();
    let mut i: usize = 0;
    while i < items.len()
        invariant
            i <= items@.len(),
            strictly_sorted(texts(v@)),
            forall|y: Seq<char>|
                #[trigger] has_text(v@, y) <==> exists|j: int|
                    0 <= j < i && byte_prefix_or_all((#[trigger] items@[j]).removed_at@, 10) == y,
        decreases items.len() - i,
    {
        let chars = chars_of(items[i].removed_at.as_str());
        let day = chars_byte_prefix_or_all(chars.as_slice(), 10);
        let d = string_from_chars(day.as_slice());
        let ghost before = v@;
        insert_text(&mut v, d);
        proof {
            assert forall|y: Seq<char>| #[trigger] has_text(v@, y) <==> exists|j: int|
                0 <= j < i + 1 && byte_prefix_or_all((#[trigger] items@[j]).removed_at@, 10) == y by {
                if has_text(v@, y) && y != d@ {
                    assert(has_text(before, y));
                    let j = choose|j: int| 0 <= j < i && byte_prefix_or_all((#[trigger] items@[j]).removed_at@, 10) == y;
                    assert(0 <= j < i + 1);
                }
                if exists|j: int| 0 <= j < i + 1 && byte_prefix_or_all((#[trigger] items@[j]).removed_at@, 10) == y {
                    let j = choose|j: int|
                        0 <= j < i + 1 && byte_prefix_or_all((#[trigger] items@[j]).removed_at@, 10) == y;
                    if j < i {
                        assert(has_text(before, y));
                    }
                }
            }
        }
        i = i + 1;
    }
    let r = join_texts(&v, ", ");
    proof {
        assert(lists_set(v@, removal_dates(items@))) by {
            assert forall|x: Seq<char>| #[trigger] removal_dates(items@).contains(x) <==> has_text(v@, x) by {}
        }
    }
    r
}

pub struct RankedRow {
    pub row: RemovalOnlyRow,
    pub pos: usize,
}

pub open spec fn row_before(a: RankedRow, b: RankedRow) -> bool {
    text_lt(a.row.key@, b.row.key@) || (a.row.key@ == b.row.key@ && a.pos < b.pos)
}

fn row_less(a: &RankedRow, b: &RankedRow) -> (r: bool)
    ensures
        r == row_before(*a, *b),
{
    str_lt(a.row.key.as_str(), b.row.key.as_str()) || (str_eq(a.row.key.as_str(), b.row.key.as_str()) && a.pos
        < b.pos)
}

proof fn lemma_row_strict()
    ensures
        crate::sorting::strict_order(|a: RankedRow, b: RankedRow| row_before(a, b)),
{
    assert forall|a: RankedRow, b: RankedRow, c: RankedRow| #[trigger] row_before(a, b) && #[trigger] row_before(
        b,
        c,
    ) implies row_before(a, c) by {
        if text_lt(a.row.key@, b.row.key@) && text_lt(b.row.key@, c.row.key@) {
            crate::text::lemma_text_lt_transitive(a.row.key@, b.row.key@, c.row.key@);
        }
    }
    assert forall|a: RankedRow, b: RankedRow| #[trigger] row_before(a, b) implies !row_before(b, a) by {
        if text_lt(a.row.key@, b.row.key@) {
            crate::text::lemma_text_lt_asymmetric(a.row.key@, b.row.key@);
        } else {
            crate::text::lemma_text_lt_irreflexive(a.row.key@);
        }
    }
}

/// The history groups of software that is no longer in the inventory (see
/// `removal_only_ok`).
pub fn removal_only_audit_rows(groups: &[(String, AuditRemovalGroup)], all_data: &[AggregatedSoftware]) -> (r: Vec<
    RemovalOnlyRow,
>)
    ensures
        removal_only_ok(groups@, all_data@, r@),
{
    let ghost gs = groups@;
    let ghost all = all_data@;
    let ghost mut pos: Seq<int> = Seq::empty();
    let mut cand: Vec<RankedRow> = Vec::new();
    let mut i: usize = 0;
    while i < groups.len()
        invariant
            i <= gs.len(),
            gs == groups@,
            all == all_data@,
            pos == removal_only_positions(gs, all, i as int),
            cand@.len() == pos.len(),
            forall|c: int|
                0 <= c < cand@.len() ==> (#[trigger] cand@[c]).pos == c && 0 <= pos[c] < gs.len() && row_describes(
                    cand@[c].row,
                    gs[pos[c]],
                ),
        decreases groups.len() - i,
    {
        let g = &groups[i];
        if !name_in_inventory(all_data, g.0.as_str()) {
            let title = if g.1.display_label.as_str().is_empty() {
                g.0.clone()
            } else {
                g.1.display_label.clone()
            };
            let dates = removal_dates_text(&g.1.items);
            let row = RemovalOnlyRow { key: g.0.clone(), title, host_count: g.1.items.len(), dates };
            assert(row_describes(row, gs[i as int]));
            let ghost before = cand@;
            let n = cand.len();
            cand.push(RankedRow { row, pos: n });
            proof {
                pos = pos.push(i as int);
                assert forall|c: int| 0 <= c < cand@.len() implies (#[trigger] cand@[c]).pos == c && 0 <= pos[c] < gs.len()
                    && row_describes(cand@[c].row, gs[pos[c]]) by {
                    if c < before.len() {
                        assert(cand@[c] == before[c]);
                    }
                }
            }
        }
        i = i + 1;
    }
    proof {
        lemma_row_strict();
    }
    let ghost cv = cand@;
    let (sorted, Ghost(p)) = sort_by_lt(cand, row_less, Ghost(|a: RankedRow, b: RankedRow| row_before(a, b)));
    let mut out: Vec<RemovalOnlyRow> = Vec::new();
    let mut rest = sorted;
    let ghost sv = rest@;
    let m = rest.len();
    let mut j: usize = 0;
    while j < m
        invariant
            m == sv.len(),
            j <= m,
            rest@ == sv.skip(j as int),
            out@.len() == j,
            forall|k: int| 0 <= k < j ==> #[trigger] out@[k] == sv[k].row,
        decreases m - j,
    {
        let x = rest.remove(0);
        proof {
            assert(sv.skip(j as int)[0] == sv[j as int]);
            assert(rest@ =~= sv.skip(j + 1));
        }
        out.push(x.row);
        j = j + 1;
    }
    proof {
        assert forall|k: int| 0 <= k < out@.len() implies row_describes(#[trigger] out@[k], gs[pos[p[k]]]) by {
            assert(sv[k] == cv[p[k]]);
        }
        assert forall|a: int, b: int| 0 <= a < b < out@.len() implies text_lt(
            (#[trigger] out@[a]).key@,
            (#[trigger] out@[b]).key@,
        ) || (out@[a].key@ == out@[b].key@ && p[a] < p[b]) by {
            assert(!(|x: RankedRow, y: RankedRow| row_before(x, y))(sv[b], sv[a]));
            assert(sv[a] == cv[p[a]]);
            assert(sv[b] == cv[p[b]]);
            if out@[a].key@ != out@[b].key@ {
                crate::text::lemma_text_lt_total(out@[a].key@, out@[b].key@);
            } else {
                assert(p[a] != p[b]);
            }
        }
        assert(is_permutation(p, pos.len() as int));
    }
    out
}

} // verus!
