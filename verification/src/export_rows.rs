//! The cells of the exported tables: the software summary, one row per
//! software version, and the computer list.
use crate::agent_list::opt_text;
use crate::date_util::{date_in_recency_window, date_in_window, opt_view};
use crate::models::{AggregatedSoftware, ComputerInfo, FilterState, VersionDetail};
use crate::presentation::{version_is_recent, version_recent};
use crate::sorting::{rearranged, sort_by_lt};
use crate::sorted_texts::texts;
use crate::text::{decimal, lowercase, str_eq, str_lt, text_lt, to_lower, u64_to_string};
use std::collections::HashMap;
use vstd::std_specs::hash::spec_keys_iter;
use vstd::std_specs::iter::IteratorSpec;
use vstd::prelude::*;

verus! {

broadcast use vstd::std_specs::hash::group_hash_axioms;

/// The column titles of the software table.
pub open spec fn software_export_headers_spec() -> Seq<&'static str> {
    seq![
        "Rank",
        "Software ID",
        "Software Name",
        "Publisher",
        "Host Count",
        "Latest Version",
        "Last install (any host)",
        "All-hosts install floor",
        "Last agent pull",
        "Last host inventory",
    ]
}

/// The column titles of the software export.
pub fn software_export_headers() -> (r: Vec<&'static str>)
    ensures
        r@ == software_export_headers_spec(),
        r@ == seq![
            "Rank",
            "Software ID",
            "Software Name",
            "Publisher",
            "Host Count",
            "Latest Version",
            "Last install (any host)",
            "All-hosts install floor",
            "Last agent pull",
            "Last host inventory",
        ],
{
    let mut v: Vec<&'static str> = Vec::new();
    v.push("Rank");
    v.push("Software ID");
    v.push("Software Name");
    v.push("Publisher");
    v.push("Host Count");
    v.push("Latest Version");
    v.push("Last install (any host)");
    v.push("All-hosts install floor");
    v.push("Last agent pull");
    v.push("Last host inventory");
    assert(v@ =~= seq![
        "Rank",
        "Software ID",
        "Software Name",
        "Publisher",
        "Host Count",
        "Latest Version",
        "Last install (any host)",
        "All-hosts install floor",
        "Last agent pull",
        "Last host inventory",
    ]);
    v
}

pub open spec fn or_empty(o: Option<String>) -> Seq<char> {
    match opt_text(o) {
        Some(s) => s,
        None => Seq::empty(),
    }
}

/// The cells of the software table's row at position `i` (rank `i + 1`).
pub open spec fn software_cells(i: int, sw: AggregatedSoftware) -> Seq<Seq<char>> {
    seq![
        decimal((i + 1) as nat),
        decimal(sw.software_id as nat),
        sw.name@,
        sw.publisher@,
        decimal(sw.total_host_count as nat),
        sw.latest_version@,
        or_empty(sw.last_install_date),
        or_empty(sw.all_hosts_install_floor),
        or_empty(sw.last_agent_pull),
        or_empty(sw.last_host_inventory),
    ]
}

fn text_of(o: &Option<String>) -> (r: String)
    ensures
        r@ == or_empty(*o),
{
    match o {
        Some(s) => s.clone(),
        None => String::new(),
    }
}

/// One row of cells per software, in table order.
pub fn software_export_rows(data: &[AggregatedSoftware]) -> (r: Vec<Vec<String>>)
    requires
        data@.len() < u64::MAX,
    ensures
        r@.len() == data@.len(),
        forall|i: int| 0 <= i < data@.len() ==> texts(#[trigger] r@[i]@) == software_cells(i, data@[i]),
{
    let mut out: Vec<Vec<String>> = Vec::new();
    let mut k: usize = 0;
    while k < data.len()
        invariant
            k <= data@.len(),
            data@.len() < u64::MAX,
            out@.len() == k,
            forall|i: int| 0 <= i < k ==> texts(#[trigger] out@[i]@) == software_cells(i, data@[i]),
        decreases data.len() - k,
    {
        let sw = &data[k];
        let mut cells: Vec<String> = Vec::new();
        cells.push(u64_to_string(k as u64 + 1));
        cells.push(u64_to_string(sw.software_id));
        cells.push(sw.name.clone());
        cells.push(sw.publisher.clone());
        cells.push(u64_to_string(sw.total_host_count as u64));
        cells.push(sw.latest_version.clone());
        cells.push(text_of(&sw.last_install_date));
        cells.push(text_of(&sw.all_hosts_install_floor));
        cells.push(text_of(&sw.last_agent_pull));
        cells.push(text_of(&sw.last_host_inventory));
        assert(texts(cells@) =~= software_cells(k as int, data@[k as int]));
        out.push(cells);
        k = k + 1;
    }
    out
}

// ---------------------------------------------------------------------------
// The summary with its "Recently Updated" column
// ---------------------------------------------------------------------------
/// The "Recently Updated" cell: the date when it is recent, otherwise "No".
pub open spec fn recent_text(d: Option<String>, recent: bool) -> Seq<char> {
    if recent {
        or_empty(d)
    } else {
        "No"@
    }
}

fn recent_cell(d: &Option<String>, recent: bool) -> (r: String)
    ensures
        r@ == recent_text(*d, recent),
{
    if recent {
        text_of(d)
    } else {
        "No".to_owned()
    }
}

/// The column titles of the summary sheet: those of the software table and
/// "Recently Updated".
pub fn summary_headers() -> (r: Vec<&'static str>)
    ensures
        r@ == software_export_headers_spec().push("Recently Updated"),
{
    let mut v = software_export_headers();
    v.push("Recently Updated");
    v
}

/// A software is recent on day `today` when its last install lies in the window.
pub open spec fn software_recent(sw: AggregatedSoftware, today: int, f: FilterState) -> bool {
    date_in_window(opt_view(sw.last_install_date), today, f)
}

/// The summary row of software `i`: its table cells and the "Recently Updated" cell.
pub open spec fn summary_cells(i: int, sw: AggregatedSoftware, today: int, f: FilterState) -> Seq<Seq<char>> {
    software_cells(i, sw).push(recent_text(sw.last_install_date, software_recent(sw, today, f)))
}

/// One summary row per software, in table order, on day `today`.
pub fn summary_rows(data: &[AggregatedSoftware], today: i32, filters: &FilterState) -> (r: Vec<Vec<String>>)
    requires
        data@.len() < u64::MAX,
    ensures
        r@.len() == data@.len(),
        forall|i: int|
            0 <= i < data@.len() ==> texts(#[trigger] r@[i]@) == summary_cells(i, data@[i], today as int, *filters),
{
    let rows = software_export_rows(data);
    let mut out: Vec<Vec<String>> = Vec::new();
    let mut rest = rows;
    let ghost rv = rest@;
    let mut k: usize = 0;
    while k < data.len()
        invariant
            k <= data@.len(),
            rv.len() == data@.len(),
            rest@ == rv.skip(k as int),
            forall|i: int| 0 <= i < data@.len() ==> texts(#[trigger] rv[i]@) == software_cells(i, data@[i]),
            out@.len() == k,
            forall|i: int|
                0 <= i < k ==> texts(#[trigger] out@[i]@) == summary_cells(i, data@[i], today as int, *filters),
        decreases data.len() - k,
    {
        let mut cells = rest.remove(0);
        proof {
            assert(rv.skip(k as int)[0] == rv[k as int]);
            assert(rest@ =~= rv.skip(k + 1));
        }
        let sw = &data[k];
        let recent = date_in_recency_window(&sw.last_install_date, today, filters);
        let ghost before = cells@;
        cells.push(recent_cell(&sw.last_install_date, recent));
        assert(texts(cells@) =~= texts(before).push(recent_text(sw.last_install_date, recent)));
        out.push(cells);
        k = k + 1;
    }
    out
}

// ---------------------------------------------------------------------------
// One row per software version (the CSV table and the detailed sheet)
// ---------------------------------------------------------------------------
/// The column titles of the per-version table.
pub fn version_export_headers() -> (r: Vec<&'static str>)
    ensures
        r@ == seq![
            "Rank",
            "Software Name",
            "Publisher",
            "Host Count",
            "Version",
            "Version Host Count",
            "Last Updated",
            "Recently Updated",
        ],
{
    let mut v: Vec<&'static str> = Vec::new();
    v.push("Rank");
    v.push("Software Name");
    v.push("Publisher");
    v.push("Host Count");
    v.push("Version");
    v.push("Version Host Count");
    v.push("Last Updated");
    v.push("Recently Updated");
    assert(v@ =~= seq![
        "Rank",
        "Software Name",
        "Publisher",
        "Host Count",
        "Version",
        "Version Host Count",
        "Last Updated",
        "Recently Updated",
    ]);
    v
}

/// The row of version `v` of software `sw` at position `i` (rank `i + 1`): the
/// software's rank, name, publisher and host count, the version's name, host
/// count and last install date, and its "Recently Updated" cell.
pub open spec fn version_cells(i: int, sw: AggregatedSoftware, v: VersionDetail, today: int, f: FilterState) -> Seq<
    Seq<char>,
> {
    seq![
        decimal((i + 1) as nat),
        sw.name@,
        sw.publisher@,
        decimal(sw.total_host_count as nat),
        v.version_name@,
        decimal(v.host_count as nat),
        or_empty(v.last_install_date),
        recent_text(v.last_install_date, version_recent(v, today, f)),
    ]
}

/// The rows of the first `n` software: for each, one row per version in order.
pub open spec fn version_rows(data: Seq<AggregatedSoftware>, today: int, f: FilterState, n: int) -> Seq<Seq<Seq<char>>>
    decreases n,
{
    if n <= 0 {
        Seq::empty()
    } else {
        version_rows(data, today, f, n - 1) + data[n - 1].versions@.map_values(
            |v: VersionDetail| version_cells(n - 1, data[n - 1], v, today, f),
        )
    }
}

pub open spec fn row_texts(r: Seq<Vec<String>>) -> Seq<Seq<Seq<char>>> {
    r.map_values(|x: Vec<String>| texts(x@))
}

/// One row per software version, software in table order, on day `today`.
pub fn version_export_rows(data: &[AggregatedSoftware], today: i32, filters: &FilterState) -> (r: Vec<Vec<String>>)
    requires
        data@.len() < u64::MAX,
    ensures
        row_texts(r@) == version_rows(data@, today as int, *filters, data@.len() as int),
{
    let mut out: Vec<Vec<String>> = Vec::new();
    let mut k: usize = 0;
    while k < data.len()
        invariant
            k <= data@.len(),
            data@.len() < u64::MAX,
            row_texts(out@) == version_rows(data@, today as int, *filters, k as int),
        decreases data.len() - k,
    {
        let sw = &data[k];
        let ghost base = row_texts(out@);
        let ghost want = sw.versions@.map_values(|v: VersionDetail| version_cells(k as int, *sw, v, today as int, *filters));
        let mut j: usize = 0;
        while j < sw.versions.len()
            invariant
                k < data@.len(),
                data@.len() < u64::MAX,
                *sw == data@[k as int],
                j <= sw.versions@.len(),
                want == sw.versions@.map_values(|v: VersionDetail| version_cells(k as int, *sw, v, today as int, *filters)),
                row_texts(out@) == base + want.take(j as int),
            decreases sw.versions.len() - j,
        {
            let v = &sw.versions[j];
            let mut cells: Vec<String> = Vec::new();
            cells.push(u64_to_string(k as u64 + 1));
            cells.push(sw.name.clone());
            cells.push(sw.publisher.clone());
            cells.push(u64_to_string(sw.total_host_count as u64));
            cells.push(v.version_name.clone());
            cells.push(u64_to_string(v.host_count as u64));
            cells.push(text_of(&v.last_install_date));
            let recent = version_is_recent(v, today, filters);
            cells.push(recent_cell(&v.last_install_date, recent));
            assert(texts(cells@) =~= version_cells(k as int, *sw, *v, today as int, *filters));
            let ghost before = out@;
            out.push(cells);
            proof {
                assert(row_texts(out@) =~= row_texts(before).push(texts(cells@)));
                assert(want.take(j + 1) =~= want.take(j as int).push(want[j as int]));
            }
            j = j + 1;
        }
        proof {
            assert(want.take(sw.versions@.len() as int) =~= want);
        }
        k = k + 1;
    }
    out
}

/// A computer export row: host name, serial number, model.
pub open spec fn computer_cells(c: ComputerInfo) -> (Seq<char>, Seq<char>, Seq<char>) {
    (c.name@, c.serial_number@, c.model@)
}

pub open spec fn cell_views(r: Seq<(String, String, String)>) -> Seq<(Seq<char>, Seq<char>, Seq<char>)> {
    r.map_values(|x: (String, String, String)| (x.0@, x.1@, x.2@))
}

pub open spec fn key_cells(keys: Seq<u64>, cmap: Map<u64, ComputerInfo>) -> Seq<(Seq<char>, Seq<char>, Seq<char>)> {
    keys.map_values(|id: u64| computer_cells(cmap[id]))
}

/// The computer rows, for some order `keys` of the computer ids (the order of
/// the map's walk), sorted by lower-cased host name; rows with equal names in
/// that order.
pub open spec fn computer_rows_ok(cmap: Map<u64, ComputerInfo>, r: Seq<(String, String, String)>) -> bool {
    exists|keys: Seq<u64>, p: Seq<int>|
        {
            &&& keys.no_duplicates()
            &&& keys.to_set() == cmap.dom()
            &&& #[trigger] rearranged(cell_views(r), key_cells(keys, cmap), p)
            &&& forall|a: int, b: int|
                0 <= a < b < r.len() ==> text_lt(to_lower(#[trigger] r[a].0@), to_lower(#[trigger] r[b].0@)) || (
                to_lower(r[a].0@) == to_lower(r[b].0@) && p[a] < p[b])
        }
}

pub struct RankedCells {
    pub cells: (String, String, String),
    pub lower: String,
    pub pos: usize,
}

pub open spec fn cells_before(a: RankedCells, b: RankedCells) -> bool {
    text_lt(a.lower@, b.lower@) || (a.lower@ == b.lower@ && a.pos < b.pos)
}

fn cells_less(a: &RankedCells, b: &RankedCells) -> (r: bool)
    ensures
        r == cells_before(*a, *b),
{
    str_lt(a.lower.as_str(), b.lower.as_str()) || (str_eq(a.lower.as_str(), b.lower.as_str()) && a.pos < b.pos)
}

proof fn lemma_cells_strict()
    ensures
        crate::sorting::strict_order(|a: RankedCells, b: RankedCells| cells_before(a, b)),
{
    assert forall|a: RankedCells, b: RankedCells, c: RankedCells| #[trigger] cells_before(a, b) && #[trigger] cells_before(
        b,
        c,
    ) implies cells_before(a, c) by {
        if text_lt(a.lower@, b.lower@) && text_lt(b.lower@, c.lower@) {
            crate::text::lemma_text_lt_transitive(a.lower@, b.lower@, c.lower@);
        }
    }
    assert forall|a: RankedCells, b: RankedCells| #[trigger] cells_before(a, b) implies !cells_before(b, a) by {
        if text_lt(a.lower@, b.lower@) {
            crate::text::lemma_text_lt_asymmetric(a.lower@, b.lower@);
        } else {
            crate::text::lemma_text_lt_irreflexive(a.lower@);
        }
    }
}

/// Host name, serial number and model of every computer, sorted by host name.
pub fn computer_export_rows(computers: &HashMap<u64, ComputerInfo>) -> (r: Vec<(String, String, String)>)
    ensures
        computer_rows_ok(computers@, r@),
{
    let ghost cmap = computers@;
    let ghost keys = spec_keys_iter(computers).remaining().unref();
    let mut rows: Vec<RankedCells> = Vec::new();
    for id in it: computers.keys()
        invariant
            cmap == computers@,
            it.seq().unref() == keys,
            keys.to_set() == cmap.dom(),
            rows@.len() == it.index(),
            forall|i: int|
                0 <= i < rows@.len() ==> ((#[trigger] rows@[i]).cells.0@, rows@[i].cells.1@, rows@[i].cells.2@)
                    == computer_cells(cmap[keys[i]]) && rows@[i].pos == i && rows@[i].lower@ == to_lower(
                    rows@[i].cells.0@,
                ),
    {
        let ghost k = it.index() as int;
        assert(keys[k] == *id);
        assert(keys.to_set().contains(*id));
        let info = computers.get(id).unwrap();
        let cells = (info.name.clone(), info.serial_number.clone(), info.model.clone());
        let lower = lowercase(info.name.as_str());
        let pos = rows.len();
        let ghost before = rows@;
        rows.push(RankedCells { cells, lower, pos });
        proof {
            assert forall|i: int|
                0 <= i < rows@.len() implies ((#[trigger] rows@[i]).cells.0@, rows@[i].cells.1@, rows@[i].cells.2@)
                == computer_cells(cmap[keys[i]]) && rows@[i].pos == i && rows@[i].lower@ == to_lower(
                rows@[i].cells.0@,
            ) by {
                if i < before.len() {
                    assert(rows@[i] == before[i]);
                }
            }
        }
    }
    proof {
        lemma_cells_strict();
    }
    let ghost rv = rows@;
    let (sorted, Ghost(p)) = sort_by_lt(rows, cells_less, Ghost(|a: RankedCells, b: RankedCells| cells_before(a, b)));
    let mut out: Vec<(String, String, String)> = Vec::new();
    let mut k: usize = 0;
    while k < sorted.len()
        invariant
            k <= sorted@.len(),
            out@.len() == k,
            forall|i: int|
                0 <= i < k ==> (#[trigger] out@[i]).0@ == sorted@[i].cells.0@ && out@[i].1@ == sorted@[i].cells.1@
                    && out@[i].2@ == sorted@[i].cells.2@,
        decreases sorted.len() - k,
    {
        let c = &sorted[k].cells;
        out.push((c.0.clone(), c.1.clone(), c.2.clone()));
        k = k + 1;
    }
    proof {
        let want = key_cells(keys, cmap);
        let outv = cell_views(out@);
        assert(rearranged(outv, want, p)) by {
            assert forall|i: int| 0 <= i < outv.len() implies #[trigger] outv[i] == want[p[i]] by {
                assert(sorted@[i] == rv[p[i]]);
            }
        }
        assert forall|a: int, b: int| 0 <= a < b < out@.len() implies text_lt(
            to_lower(#[trigger] out@[a].0@),
            to_lower(#[trigger] out@[b].0@),
        ) || (to_lower(out@[a].0@) == to_lower(out@[b].0@) && p[a] < p[b]) by {
            assert(!(|x: RankedCells, y: RankedCells| cells_before(x, y))(sorted@[b], sorted@[a]));
            assert(sorted@[a] == rv[p[a]]);
            assert(sorted@[b] == rv[p[b]]);
            if to_lower(out@[a].0@) != to_lower(out@[b].0@) {
                crate::text::lemma_text_lt_total(to_lower(out@[a].0@), to_lower(out@[b].0@));
            } else {
                assert(p[a] != p[b]);
            }
        }
        assert(keys.no_duplicates());
        assert(computer_rows_ok(computers@, out@));
    }
    out
}

} // verus!
