//! The side panel of computers that have any of the selected software, one
//! entry per computer with the selected software found on it.
use crate::history_store::append_chars;
use crate::models::{AggregatedSoftware, ComputerInfo};
use crate::sorting::{rearranged, sort_by_lt};
use crate::sorted_texts::texts;
use crate::text::{chars_of, decimal, lowercase, str_eq, str_lt, string_from_chars, text_lt, to_lower, u64_to_string};
use std::collections::{HashMap, HashSet};
use vstd::std_specs::hash::spec_hash_keys_iter;
use vstd::std_specs::iter::IteratorSpec;
use vstd::prelude::*;

verus! {

broadcast use vstd::std_specs::hash::group_hash_axioms;

/// A computer of the panel: its id, name, contact and the names of the selected
/// software it has.
#[derive(Debug, Clone)]
pub struct PcEntry {
    pub id: u64,
    pub name: String,
    pub contact: String,
    pub software_names: Vec<String>,
}

pub type PcEntryView = (u64, Seq<char>, Seq<char>, Seq<Seq<char>>);

pub open spec fn entry_view(e: PcEntry) -> PcEntryView {
    (e.id, e.name@, e.contact@, texts(e.software_names@))
}

pub open spec fn entry_views(s: Seq<PcEntry>) -> Seq<PcEntryView> {
    s.map_values(|e: PcEntry| entry_view(e))
}

/// Computer `h` has one of the selected software among the first `n` rows.
pub open spec fn has_selected_upto(all: Seq<AggregatedSoftware>, sel: Set<u64>, h: u64, n: int) -> bool {
    exists|i: int| 0 <= i < n && sel.contains(all[i].software_id) && (#[trigger] all[i]).host_ids@.contains(h)
}

/// Computer `h` has one of the selected software.
pub open spec fn has_selected(all: Seq<AggregatedSoftware>, sel: Set<u64>, h: u64) -> bool {
    has_selected_upto(all, sel, h, all.len() as int)
}

/// The names of the selected software among the first `n` rows that computer
/// `h` has, in row order.
pub open spec fn selected_names_on(all: Seq<AggregatedSoftware>, sel: Set<u64>, h: u64, n: int) -> Seq<Seq<char>>
    decreases n,
{
    if n <= 0 {
        Seq::empty()
    } else if sel.contains(all[n - 1].software_id) && all[n - 1].host_ids@.contains(h) {
        selected_names_on(all, sel, h, n - 1).push(all[n - 1].name@)
    } else {
        selected_names_on(all, sel, h, n - 1)
    }
}

/// The name and contact shown for computer `id`: those of the computer list, or
/// `#` and the id with no contact for a computer it does not know.
pub open spec fn pc_label(cmap: Map<u64, ComputerInfo>, id: u64) -> (Seq<char>, Seq<char>) {
    if cmap.contains_key(id) {
        (cmap[id].name@, cmap[id].contact@)
    } else {
        (seq!['#'] + decimal(id as nat), Seq::empty())
    }
}

/// The entry of computer `id`.
pub open spec fn wanted_entry(all: Seq<AggregatedSoftware>, sel: Set<u64>, cmap: Map<u64, ComputerInfo>, id: u64) -> PcEntryView {
    (id, pc_label(cmap, id).0, pc_label(cmap, id).1, selected_names_on(all, sel, id, all.len() as int))
}

pub open spec fn wanted_entries(
    all: Seq<AggregatedSoftware>,
    sel: Set<u64>,
    cmap: Map<u64, ComputerInfo>,
    ids: Seq<u64>,
) -> Seq<PcEntryView> {
    ids.map_values(|id: u64| wanted_entry(all, sel, cmap, id))
}

/// The panel: for some order `ids` of the computers that have a selected
/// software (each once), their entries sorted by lower-cased name, equal names
/// in that order.
pub open spec fn selected_pcs_ok(
    all: Seq<AggregatedSoftware>,
    sel: Set<u64>,
    cmap: Map<u64, ComputerInfo>,
    r: Seq<PcEntry>,
) -> bool {
    exists|ids: Seq<u64>, p: Seq<int>|
        {
            &&& ids.no_duplicates()
            &&& forall|h: u64| #[trigger] ids.contains(h) <==> has_selected(all, sel, h)
            &&& #[trigger] rearranged(entry_views(r), wanted_entries(all, sel, cmap, ids), p)
            &&& forall|a: int, b: int|
                0 <= a < b < r.len() ==> text_lt(to_lower((#[trigger] r[a]).name@), to_lower((#[trigger] r[b]).name@))
                    || (to_lower(r[a].name@) == to_lower(r[b].name@) && p[a] < p[b])
        }
}

fn contains_id(ids: &Vec<u64>, h: u64) -> (r: bool)
    ensures
        r == ids@.contains(h),
{
    let mut i: usize = 0;
    while i < ids.len()
        invariant
            i <= ids@.len(),
            forall|j: int| 0 <= j < i ==> ids@[j] != h,
        decreases ids.len() - i,
    {
        if ids[i] == h {
            assert(ids@[i as int] == h);
            return true;
        }
        i = i + 1;
    }
    false
}

/// The computers that have one of the selected software, each once.
fn selected_hosts(all: &[AggregatedSoftware], selected: &HashSet<u64>) -> (ids: Vec<u64>)
    ensures
        ids@.no_duplicates(),
        forall|h: u64| #[trigger] ids@.contains(h) <==> has_selected(all@, selected@, h),
{
    let ghost av = all@;
    let ghost sel = selected@;
    let mut ids: Vec<u64> = Vec::new();
    let mut k: usize = 0;
    while k < all.len()
        invariant
            k <= av.len(),
            av == all@,
            sel == selected@,
            ids@.no_duplicates(),
            forall|h: u64| #[trigger] ids@.contains(h) <==> has_selected_upto(av, sel, h, k as int),
        decreases all.len() - k,
    {
        let sw = &all[k];
        if selected.contains(&sw.software_id) {
            let ghost keys = spec_hash_keys_iter(&sw.host_ids).remaining().unref();
            let ghost start = ids@;
            for h in it: sw.host_ids.iter()
                invariant
                    k < av.len(),
                    av == all@,
                    sel == selected@,
                    *sw == av[k as int],
                    sel.contains(sw.software_id),
                    it.seq().unref() == keys,
                    keys.to_set() == sw.host_ids@,
                    ids@.no_duplicates(),
                    forall|x: u64| #[trigger] start.contains(x) <==> has_selected_upto(av, sel, x, k as int),
                    forall|x: u64|
                        #[trigger] ids@.contains(x) <==> (start.contains(x) || exists|j: int|
                            0 <= j < it.index() && keys[j] == x),
            {
                let ghost j0 = it.index() as int;
                assert(keys[j0] == *h);
                if !contains_id(&ids, *h) {
                    let ghost before = ids@;
                    ids.push(*h);
                    proof {
                        assert forall|a: int, b: int| 0 <= a < b < ids@.len() implies ids@[a] != ids@[b] by {
                            if b == before.len() {
                                assert(before.contains(before[a]));
                            } else {
                                assert(before[a] != before[b]);
                            }
                        }
                        assert forall|x: u64| #[trigger] ids@.contains(x) <==> (start.contains(x) || exists|j: int|
                            0 <= j < j0 + 1 && keys[j] == x) by {
                            if ids@.contains(x) {
                                let q = choose|q: int| 0 <= q < ids@.len() && ids@[q] == x;
                                if q < before.len() {
                                    assert(before[q] == x);
                                    assert(before.contains(x));
                                    if !start.contains(x) {
                                        let j = choose|j: int| 0 <= j < j0 && keys[j] == x;
                                        assert(0 <= j < j0 + 1 && keys[j] == x);
                                    }
                                } else {
                                    assert(keys[j0] == x);
                                }
                            }
                            if exists|j: int| 0 <= j < j0 + 1 && keys[j] == x {
                                let j = choose|j: int| 0 <= j < j0 + 1 && keys[j] == x;
                                if j < j0 {
                                    assert(exists|j: int| 0 <= j < j0 && keys[j] == x);
                                    assert(before.contains(x));
                                    let q = choose|q: int| 0 <= q < before.len() && before[q] == x;
                                    assert(ids@[q] == x);
                                } else {
                                    assert(ids@[before.len() as int] == x);
                                }
                            }
                            if start.contains(x) {
                                assert(before.contains(x));
                                let q = choose|q: int| 0 <= q < before.len() && before[q] == x;
                                assert(ids@[q] == x);
                            }
                        }
                    }
                } else {
                    proof {
                        assert forall|x: u64| #[trigger] ids@.contains(x) <==> (start.contains(x) || exists|j: int|
                            0 <= j < j0 + 1 && keys[j] == x) by {
                            if exists|j: int| 0 <= j < j0 + 1 && keys[j] == x {
                                let j = choose|j: int| 0 <= j < j0 + 1 && keys[j] == x;
                                if j == j0 {
                                    assert(ids@.contains(x));
                                }
                            }
                        }
                    }
                }
            }
            proof {
                assert forall|x: u64| #[trigger] ids@.contains(x) <==> has_selected_upto(av, sel, x, k + 1) by {
                    if ids@.contains(x) && !start.contains(x) {
                        let j = choose|j: int| 0 <= j < keys.len() && keys[j] == x;
                        assert(keys.to_set().contains(x));
                        assert(av[k as int].host_ids@.contains(x));
                    }
                    if has_selected_upto(av, sel, x, k + 1) && !has_selected_upto(av, sel, x, k as int) {
                        let i = choose|i: int|
                            0 <= i < k + 1 && sel.contains(av[i].software_id) && (#[trigger] av[i]).host_ids@.contains(x);
                        assert(i == k);
                        assert(keys.to_set().contains(x));
                        let j = choose|j: int| 0 <= j < keys.len() && keys[j] == x;
                    }
                    if has_selected_upto(av, sel, x, k as int) {
                        let i = choose|i: int|
                            0 <= i < k && sel.contains(av[i].software_id) && (#[trigger] av[i]).host_ids@.contains(x);
                        assert(0 <= i < k + 1);
                    }
                    if start.contains(x) {
                        assert(has_selected_upto(av, sel, x, k as int));
                    }
                }
            }
        } else {
            proof {
                assert forall|x: u64| #[trigger] ids@.contains(x) <==> has_selected_upto(av, sel, x, k + 1) by {
                    if has_selected_upto(av, sel, x, k + 1) {
                        let i = choose|i: int|
                            0 <= i < k + 1 && sel.contains(av[i].software_id) && (#[trigger] av[i]).host_ids@.contains(x);
                        assert(i != k);
                    }
                    if has_selected_upto(av, sel, x, k as int) {
                        let i = choose|i: int|
                            0 <= i < k && sel.contains(av[i].software_id) && (#[trigger] av[i]).host_ids@.contains(x);
                        assert(0 <= i < k + 1);
                    }
                }
            }
        }
        k = k + 1;
    }
    ids
}

/// The names of the selected software that computer `h` has, in row order.
fn names_on(all: &[AggregatedSoftware], selected: &HashSet<u64>, h: u64) -> (r: Vec<String>)
    ensures
        texts(r@) == selected_names_on(all@, selected@, h, all@.len() as int),
{
    let mut names: Vec<String> = Vec::new();
    let mut k: usize = 0;
    while k < all.len()
        invariant
            k <= all@.len(),
            texts(names@) == selected_names_on(all@, selected@, h, k as int),
        decreases all.len() - k,
    {
        let sw = &all[k];
        if selected.contains(&sw.software_id) && sw.host_ids.contains(&h) {
            let ghost before = names@;
            names.push(sw.name.clone());
            assert(texts(names@) =~= texts(before).push(sw.name@));
        }
        k = k + 1;
    }
    names
}

fn label_of(computers: &HashMap<u64, ComputerInfo>, id: u64) -> (r: (String, String))
    ensures
        (r.0@, r.1@) == pc_label(computers@, id),
{
    match computers.get(&id) {
        Some(info) => (info.name.clone(), info.contact.clone()),
        None => {
            let mut v: Vec<char> = Vec::new();
            v.push('#');
            let d = u64_to_string(id);
            let dv = chars_of(d.as_str());
            append_chars(&mut v, &dv);
            assert(v@ =~= seq!['#'] + decimal(id as nat));
            (string_from_chars(v.as_slice()), String::new())
        },
    }
}

pub struct RankedEntry {
    pub entry: PcEntry,
    pub lower: String,
    pub pos: usize,
}

pub open spec fn entry_before(a: RankedEntry, b: RankedEntry) -> bool {
    text_lt(a.lower@, b.lower@) || (a.lower@ == b.lower@ && a.pos < b.pos)
}

fn entry_less(a: &RankedEntry, b: &RankedEntry) -> (r: bool)
    ensures
        r == entry_before(*a, *b),
{
    str_lt(a.lower.as_str(), b.lower.as_str()) || (str_eq(a.lower.as_str(), b.lower.as_str()) && a.pos < b.pos)
}

proof fn lemma_entry_strict()
    ensures
        crate::sorting::strict_order(|a: RankedEntry, b: RankedEntry| entry_before(a, b)),
{
    assert forall|a: RankedEntry, b: RankedEntry, c: RankedEntry| #[trigger] entry_before(a, b) && #[trigger] entry_before(
        b,
        c,
    ) implies entry_before(a, c) by {
        if text_lt(a.lower@, b.lower@) && text_lt(b.lower@, c.lower@) {
            crate::text::lemma_text_lt_transitive(a.lower@, b.lower@, c.lower@);
        }
    }
    assert forall|a: RankedEntry, b: RankedEntry| #[trigger] entry_before(a, b) implies !entry_before(b, a) by {
        if text_lt(a.lower@, b.lower@) {
            crate::text::lemma_text_lt_asymmetric(a.lower@, b.lower@);
        } else {
            crate::text::lemma_text_lt_irreflexive(a.lower@);
        }
    }
}

/// Every computer that has one of the selected software is listed, exactly
/// once, and no other computer is.
pub proof fn lemma_selected_pcs_lists_each_once(
    all: Seq<AggregatedSoftware>,
    sel: Set<u64>,
    cmap: Map<u64, ComputerInfo>,
    r: Seq<PcEntry>,
    h: u64,
)
    requires
        selected_pcs_ok(all, sel, cmap, r),
    ensures
        has_selected(all, sel, h) <==> exists|i: int| 0 <= i < r.len() && (#[trigger] r[i]).id == h,
        forall|i: int, j: int| 0 <= i < j < r.len() ==> (#[trigger] r[i]).id != (#[trigger] r[j]).id,
{
    let (ids, p) = choose|ids: Seq<u64>, p: Seq<int>|
        {
            &&& ids.no_duplicates()
            &&& forall|h: u64| #[trigger] ids.contains(h) <==> has_selected(all, sel, h)
            &&& #[trigger] rearranged(entry_views(r), wanted_entries(all, sel, cmap, ids), p)
            &&& forall|a: int, b: int|
                0 <= a < b < r.len() ==> text_lt(to_lower((#[trigger] r[a]).name@), to_lower((#[trigger] r[b]).name@))
                    || (to_lower(r[a].name@) == to_lower(r[b].name@) && p[a] < p[b])
        };
    let n = ids.len() as int;
    assert forall|i: int| 0 <= i < r.len() implies (#[trigger] r[i]).id == ids[p[i]] by {
        assert(entry_views(r)[i] == wanted_entries(all, sel, cmap, ids)[p[i]]);
    }
    if has_selected(all, sel, h) {
        assert(ids.contains(h));
        let q = choose|q: int| 0 <= q < n && ids[q] == h;
        crate::sorting::lemma_permutation_onto(p, n, q);
        let i = choose|i: int| 0 <= i < n && p[i] == q;
        assert(r[i].id == h);
    }
    if exists|i: int| 0 <= i < r.len() && (#[trigger] r[i]).id == h {
        let i = choose|i: int| 0 <= i < r.len() && (#[trigger] r[i]).id == h;
        assert(ids[p[i]] == h);
        assert(ids.contains(h));
    }
    assert forall|i: int, j: int| 0 <= i < j < r.len() implies (#[trigger] r[i]).id != (#[trigger] r[j]).id by {
        assert(p[i] != p[j]);
        assert(r[i].id == ids[p[i]] && r[j].id == ids[p[j]]);
    }
}

/// The computers that have any of the selected software (see `selected_pcs_ok`).
pub fn pcs_for_selected(
    all_data: &[AggregatedSoftware],
    selected: &HashSet<u64>,
    computers: &HashMap<u64, ComputerInfo>,
) -> (r: Vec<PcEntry>)
    ensures
        selected_pcs_ok(all_data@, selected@, computers@, r@),
{
    let ghost av = all_data@;
    let ghost sel = selected@;
    let ghost cmap = computers@;
    let ids = selected_hosts(all_data, selected);
    let ghost want = wanted_entries(av, sel, cmap, ids@);
    let mut ranked: Vec<RankedEntry> = Vec::new();
    let mut k: usize = 0;
    while k < ids.len()
        invariant
            k <= ids@.len(),
            av == all_data@,
            sel == selected@,
            cmap == computers@,
            want == wanted_entries(av, sel, cmap, ids@),
            ranked@.len() == k,
            forall|i: int|
                0 <= i < k ==> entry_view((#[trigger] ranked@[i]).entry) == want[i] && ranked@[i].pos == i
                    && ranked@[i].lower@ == to_lower(ranked@[i].entry.name@),
        decreases ids.len() - k,
    {
        let id = ids[k];
        let (name, contact) = label_of(computers, id);
        let software_names = names_on(all_data, selected, id);
        let lower = lowercase(name.as_str());
        let entry = PcEntry { id, name, contact, software_names };
        assert(entry_view(entry) == want[k as int]);
        let ghost before = ranked@;
        ranked.push(RankedEntry { entry, lower, pos: k });
        proof {
            assert forall|i: int| 0 <= i < k + 1 implies entry_view((#[trigger] ranked@[i]).entry) == want[i]
                && ranked@[i].pos == i && ranked@[i].lower@ == to_lower(ranked@[i].entry.name@) by {
                if i < k {
                    assert(ranked@[i] == before[i]);
                }
            }
        }
        k = k + 1;
    }
    proof {
        lemma_entry_strict();
    }
    let ghost rv = ranked@;
    let (sorted, Ghost(p)) = sort_by_lt(ranked, entry_less, Ghost(|a: RankedEntry, b: RankedEntry| entry_before(a, b)));
    let mut out: Vec<PcEntry> = Vec::new();
    let mut rest = sorted;
    let ghost sv = rest@;
    let m = rest.len();
    let mut j: usize = 0;
    while j < m
        invariant
            m == sv.len(),
            j <= m,
            rest@ == sv.skip(j as int),
            out@.len() == j,
            forall|i: int| 0 <= i < j ==> #[trigger] out@[i] == sv[i].entry,
        decreases m - j,
    {
        let x = rest.remove(0);
        proof {
            assert(sv.skip(j as int)[0] == sv[j as int]);
            assert(rest@ =~= sv.skip(j + 1));
        }
        out.push(x.entry);
        j = j + 1;
    }
    proof {
        assert(rearranged(entry_views(out@), want, p)) by {
            assert forall|i: int| 0 <= i < out@.len() implies #[trigger] entry_views(out@)[i] == want[p[i]] by {
                assert(sv[i] == rv[p[i]]);
            }
        }
        assert forall|a: int, b: int| 0 <= a < b < out@.len() implies text_lt(
            to_lower((#[trigger] out@[a]).name@),
            to_lower((#[trigger] out@[b]).name@),
        ) || (to_lower(out@[a].name@) == to_lower(out@[b].name@) && p[a] < p[b]) by {
            assert(!(|x: RankedEntry, y: RankedEntry| entry_before(x, y))(sv[b], sv[a]));
            assert(sv[a] == rv[p[a]]);
            assert(sv[b] == rv[p[b]]);
            if to_lower(out@[a].name@) != to_lower(out@[b].name@) {
                crate::text::lemma_text_lt_total(to_lower(out@[a].name@), to_lower(out@[b].name@));
            } else {
                assert(p[a] != p[b]);
            }
        }
    }
    out
}

} // verus!
