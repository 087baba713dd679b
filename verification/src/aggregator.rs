//! Folding GLPI installation rows into one summary row per software product.
//!
//! Installations are first gathered per software id (in the order in which each
//! software first shows up), and the per-id summaries are then merged by
//! normalized name and publisher, since some GLPI instances store one product
//! under several software ids.
use crate::date_util::{
    best_step, earliest_step, keep_newer, merge_date_best, merge_date_earliest, newer_step, opt_view,
    parse_date, parsed_date,
};
use crate::models::{
    AggregatedSoftware, GlpiComputer, GlpiItemSoftwareVersion, GlpiSoftware, GlpiSoftwareVersion,
    VersionDetail,
};
use crate::text::{
    grouping_key, lemma_trim_idempotent, lowercase, normalize_for_grouping, str_eq, str_lt, text_lt, to_lower, trim,
};
use std::collections::{HashMap, HashSet};
use vstd::prelude::*;

verus! {

broadcast use vstd::std_specs::hash::group_hash_axioms;

// ---------------------------------------------------------------------------
// Looking rows up by id
// ---------------------------------------------------------------------------
/// The software a version belongs to, by the first of the first `n` version rows
/// with that id.
pub open spec fn version_owner_upto(vs: Seq<GlpiSoftwareVersion>, vid: u64, n: int) -> Option<u64>
    decreases n,
{
    if n <= 0 {
        None
    } else {
        let prev = version_owner_upto(vs, vid, n - 1);
        if prev is None && vs[n - 1].id == vid {
            Some(vs[n - 1].softwares_id)
        } else {
            prev
        }
    }
}

/// The position of the last of the first `n` software rows with id `id`.
pub open spec fn software_row_upto(sl: Seq<GlpiSoftware>, id: u64, n: int) -> Option<int>
    decreases n,
{
    if n <= 0 {
        None
    } else if sl[n - 1].id == id {
        Some(n - 1)
    } else {
        software_row_upto(sl, id, n - 1)
    }
}

/// The position of the last of the first `n` version rows with id `vid`.
pub open spec fn version_row_upto(vs: Seq<GlpiSoftwareVersion>, vid: u64, n: int) -> Option<int>
    decreases n,
{
    if n <= 0 {
        None
    } else if vs[n - 1].id == vid {
        Some(n - 1)
    } else {
        version_row_upto(vs, vid, n - 1)
    }
}

/// Folds an optional date text into the newest date kept so far (texts kept as they are).
pub open spec fn newer_opt(best: Option<Seq<char>>, d: Option<String>) -> Option<Seq<char>> {
    match d {
        Some(x) => newer_step(best, x@),
        None => best,
    }
}

/// Folds an optional date text into the newest date kept so far (trimmed; blanks ignored).
pub open spec fn best_opt(best: Option<Seq<char>>, d: Option<String>) -> Option<Seq<char>> {
    match d {
        Some(x) => best_step(best, x@),
        None => best,
    }
}

/// A computer's inventory timestamp: the newer of `date_mod` and `date_creation`.
pub open spec fn inventory_timestamp(c: GlpiComputer) -> Option<Seq<char>> {
    best_opt(best_opt(None, c.date_mod), c.date_creation)
}

/// The inventory timestamp of computer `h`, from the last of the first `n`
/// computer rows with that id that has one.
pub open spec fn host_inventory_upto(cs: Seq<GlpiComputer>, h: u64, n: int) -> Option<Seq<char>>
    decreases n,
{
    if n <= 0 {
        None
    } else if cs[n - 1].id == h && inventory_timestamp(cs[n - 1]) is Some {
        inventory_timestamp(cs[n - 1])
    } else {
        host_inventory_upto(cs, h, n - 1)
    }
}

/// The newest of a computer's `date_mod` and `date_creation`.
pub fn computer_inventory_timestamp(c: &GlpiComputer) -> (r: Option<String>)
    ensures
        opt_view(r) == inventory_timestamp(*c),
{
    let mut best: Option<String> = None;
    match &c.date_mod {
        Some(d) => merge_date_best(&mut best, d.as_str()),
        None => {},
    }
    match &c.date_creation {
        Some(d) => merge_date_best(&mut best, d.as_str()),
        None => {},
    }
    best
}

/// The four tables that an aggregation reads.
pub struct AggInput {
    pub software: Seq<GlpiSoftware>,
    pub versions: Seq<GlpiSoftwareVersion>,
    pub installs: Seq<GlpiItemSoftwareVersion>,
    pub computers: Seq<GlpiComputer>,
}

pub open spec fn agg_input(
    software: Seq<GlpiSoftware>,
    versions: Seq<GlpiSoftwareVersion>,
    installs: Seq<GlpiItemSoftwareVersion>,
    computers: Seq<GlpiComputer>,
) -> AggInput {
    AggInput { software, versions, installs, computers }
}

/// The software an installation counts for: its version's software, provided a
/// software row with that id exists.
pub open spec fn installed_software(i: AggInput, x: GlpiItemSoftwareVersion) -> Option<u64> {
    match version_owner_upto(i.versions, x.softwareversions_id, i.versions.len() as int) {
        Some(s) => if software_row_upto(i.software, s, i.software.len() as int) is Some {
            Some(s)
        } else {
            None
        },
        None => None,
    }
}

pub open spec fn host_inventory(i: AggInput, h: u64) -> Option<Seq<char>> {
    host_inventory_upto(i.computers, h, i.computers.len() as int)
}

// ---------------------------------------------------------------------------
// What one software id gathers from the first `n` installations
// ---------------------------------------------------------------------------
/// Installation `x` counts for software `s`.
pub open spec fn counts_for(i: AggInput, x: GlpiItemSoftwareVersion, s: u64) -> bool {
    installed_software(i, x) == Some(s)
}

/// The software ids that count, in the order in which they first show up.
pub open spec fn software_order(i: AggInput, n: int) -> Seq<u64>
    decreases n,
{
    if n <= 0 {
        Seq::empty()
    } else {
        let prev = software_order(i, n - 1);
        match installed_software(i, i.installs[n - 1]) {
            Some(s) => if prev.contains(s) {
                prev
            } else {
                prev.push(s)
            },
            None => prev,
        }
    }
}

/// The computers with software `s`.
pub open spec fn sw_hosts(i: AggInput, s: u64, n: int) -> Set<u64>
    decreases n,
{
    if n <= 0 {
        Set::empty()
    } else if counts_for(i, i.installs[n - 1], s) {
        sw_hosts(i, s, n - 1).insert(i.installs[n - 1].items_id)
    } else {
        sw_hosts(i, s, n - 1)
    }
}

/// The version ids installed for software `s`.
pub open spec fn sw_versions(i: AggInput, s: u64, n: int) -> Set<u64>
    decreases n,
{
    if n <= 0 {
        Set::empty()
    } else if counts_for(i, i.installs[n - 1], s) {
        sw_versions(i, s, n - 1).insert(i.installs[n - 1].softwareversions_id)
    } else {
        sw_versions(i, s, n - 1)
    }
}

/// The computers with version `v` of software `s`.
pub open spec fn version_hosts(i: AggInput, s: u64, v: u64, n: int) -> Set<u64>
    decreases n,
{
    if n <= 0 {
        Set::empty()
    } else if counts_for(i, i.installs[n - 1], s) && i.installs[n - 1].softwareversions_id == v {
        version_hosts(i, s, v, n - 1).insert(i.installs[n - 1].items_id)
    } else {
        version_hosts(i, s, v, n - 1)
    }
}

/// The newest install or modification date of version `v` of software `s`.
pub open spec fn version_date(i: AggInput, s: u64, v: u64, n: int) -> Option<Seq<char>>
    decreases n,
{
    if n <= 0 {
        None
    } else {
        let prev = version_date(i, s, v, n - 1);
        let x = i.installs[n - 1];
        if counts_for(i, x, s) && x.softwareversions_id == v {
            newer_opt(newer_opt(prev, x.date_install), x.date_mod)
        } else {
            prev
        }
    }
}

/// The newest install date of software `s`.
pub open spec fn sw_install_date(i: AggInput, s: u64, n: int) -> Option<Seq<char>>
    decreases n,
{
    if n <= 0 {
        None
    } else {
        let prev = sw_install_date(i, s, n - 1);
        let x = i.installs[n - 1];
        if counts_for(i, x, s) {
            newer_opt(prev, x.date_install)
        } else {
            prev
        }
    }
}

/// The newest install or modification date of software `s`.
pub open spec fn sw_any_date(i: AggInput, s: u64, n: int) -> Option<Seq<char>>
    decreases n,
{
    if n <= 0 {
        None
    } else {
        let prev = sw_any_date(i, s, n - 1);
        let x = i.installs[n - 1];
        if counts_for(i, x, s) {
            newer_opt(newer_opt(prev, x.date_install), x.date_mod)
        } else {
            prev
        }
    }
}

/// The newest modification date (an agent's pull) of software `s`.
pub open spec fn sw_mod_date(i: AggInput, s: u64, n: int) -> Option<Seq<char>>
    decreases n,
{
    if n <= 0 {
        None
    } else {
        let prev = sw_mod_date(i, s, n - 1);
        let x = i.installs[n - 1];
        if counts_for(i, x, s) {
            newer_opt(prev, x.date_mod)
        } else {
            prev
        }
    }
}

/// The newest inventory timestamp among the computers with software `s`.
pub open spec fn sw_host_inventory(i: AggInput, s: u64, n: int) -> Option<Seq<char>>
    decreases n,
{
    if n <= 0 {
        None
    } else {
        let prev = sw_host_inventory(i, s, n - 1);
        let x = i.installs[n - 1];
        if counts_for(i, x, s) {
            match host_inventory(i, x.items_id) {
                Some(t) => best_step(prev, t),
                None => prev,
            }
        } else {
            prev
        }
    }
}

/// The computers with an installation of `s` that carries an install date.
pub open spec fn install_dated_hosts(i: AggInput, s: u64, n: int) -> Set<u64>
    decreases n,
{
    if n <= 0 {
        Set::empty()
    } else if counts_for(i, i.installs[n - 1], s) && i.installs[n - 1].date_install is Some {
        install_dated_hosts(i, s, n - 1).insert(i.installs[n - 1].items_id)
    } else {
        install_dated_hosts(i, s, n - 1)
    }
}

/// The newest non-blank install date of `s` on computer `h`.
pub open spec fn host_install_best(i: AggInput, s: u64, h: u64, n: int) -> Option<Seq<char>>
    decreases n,
{
    if n <= 0 {
        None
    } else {
        let prev = host_install_best(i, s, h, n - 1);
        let x = i.installs[n - 1];
        if counts_for(i, x, s) && x.items_id == h {
            best_opt(prev, x.date_install)
        } else {
            prev
        }
    }
}

/// The computers with an installation of `s` that carries a modification date.
pub open spec fn mod_dated_hosts(i: AggInput, s: u64, n: int) -> Set<u64>
    decreases n,
{
    if n <= 0 {
        Set::empty()
    } else if counts_for(i, i.installs[n - 1], s) && i.installs[n - 1].date_mod is Some {
        mod_dated_hosts(i, s, n - 1).insert(i.installs[n - 1].items_id)
    } else {
        mod_dated_hosts(i, s, n - 1)
    }
}

/// The newest non-blank modification date of `s` on computer `h`.
pub open spec fn host_mod_best(i: AggInput, s: u64, h: u64, n: int) -> Option<Seq<char>>
    decreases n,
{
    if n <= 0 {
        None
    } else {
        let prev = host_mod_best(i, s, h, n - 1);
        let x = i.installs[n - 1];
        if counts_for(i, x, s) && x.items_id == h {
            best_opt(prev, x.date_mod)
        } else {
            prev
        }
    }
}

// ---------------------------------------------------------------------------
// Lookup tables
// ---------------------------------------------------------------------------
/// Version id to software id, the first version row with each id winning.
pub(crate) fn owner_table(vs: &[GlpiSoftwareVersion]) -> (m: HashMap<u64, u64>)
    ensures
        forall|vid: u64|
            match version_owner_upto(vs@, vid, vs@.len() as int) {
                Some(s) => #[trigger] m@.contains_key(vid) && m@[vid] == s,
                None => !m@.contains_key(vid),
            },
{
    let mut m: HashMap<u64, u64> = HashMap::new();
    let mut k: usize = 0;
    while k < vs.len()
        invariant
            k <= vs@.len(),
            forall|vid: u64|
                match version_owner_upto(vs@, vid, k as int) {
                    Some(s) => #[trigger] m@.contains_key(vid) && m@[vid] == s,
                    None => !m@.contains_key(vid),
                },
        decreases vs.len() - k,
    {
        if !m.contains_key(&vs[k].id) {
            m.insert(vs[k].id, vs[k].softwares_id);
        }
        k = k + 1;
    }
    m
}

/// Software id to the position of its last software row.
pub(crate) fn software_table(sl: &[GlpiSoftware]) -> (m: HashMap<u64, usize>)
    ensures
        forall|id: u64|
            match software_row_upto(sl@, id, sl@.len() as int) {
                Some(r) => #[trigger] m@.contains_key(id) && m@[id] == r,
                None => !m@.contains_key(id),
            },
{
    let mut m: HashMap<u64, usize> = HashMap::new();
    let mut k: usize = 0;
    while k < sl.len()
        invariant
            k <= sl@.len(),
            forall|id: u64|
                match software_row_upto(sl@, id, k as int) {
                    Some(r) => #[trigger] m@.contains_key(id) && m@[id] == r,
                    None => !m@.contains_key(id),
                },
        decreases sl.len() - k,
    {
        m.insert(sl[k].id, k);
        k = k + 1;
    }
    m
}

/// Version id to the position of its last version row.
pub(crate) fn version_table(vs: &[GlpiSoftwareVersion]) -> (m: HashMap<u64, usize>)
    ensures
        forall|vid: u64|
            match version_row_upto(vs@, vid, vs@.len() as int) {
                Some(r) => #[trigger] m@.contains_key(vid) && m@[vid] == r,
                None => !m@.contains_key(vid),
            },
{
    let mut m: HashMap<u64, usize> = HashMap::new();
    let mut k: usize = 0;
    while k < vs.len()
        invariant
            k <= vs@.len(),
            forall|vid: u64|
                match version_row_upto(vs@, vid, k as int) {
                    Some(r) => #[trigger] m@.contains_key(vid) && m@[vid] == r,
                    None => !m@.contains_key(vid),
                },
        decreases vs.len() - k,
    {
        m.insert(vs[k].id, k);
        k = k + 1;
    }
    m
}

/// Computer id to its inventory timestamp.
fn inventory_table(cs: &[GlpiComputer]) -> (m: HashMap<u64, String>)
    ensures
        forall|h: u64|
            match host_inventory_upto(cs@, h, cs@.len() as int) {
                Some(t) => #[trigger] m@.contains_key(h) && m@[h]@ == t,
                None => !m@.contains_key(h),
            },
{
    let mut m: HashMap<u64, String> = HashMap::new();
    let mut k: usize = 0;
    while k < cs.len()
        invariant
            k <= cs@.len(),
            forall|h: u64|
                match host_inventory_upto(cs@, h, k as int) {
                    Some(t) => #[trigger] m@.contains_key(h) && m@[h]@ == t,
                    None => !m@.contains_key(h),
                },
        decreases cs.len() - k,
    {
        match computer_inventory_timestamp(&cs[k]) {
            Some(t) => {
                m.insert(cs[k].id, t);
            },
            None => {},
        }
        k = k + 1;
    }
    m
}

// ---------------------------------------------------------------------------
// Gathering per software id
// ---------------------------------------------------------------------------
pub open spec fn distinct_ids(v: Seq<u64>) -> bool {
    forall|a: int, b: int| 0 <= a < b < v.len() ==> #[trigger] v[a] != #[trigger] v[b]
}

/// `v` lists the set `s`, each element once.
pub open spec fn lists_ids(v: Seq<u64>, s: Set<u64>) -> bool {
    &&& distinct_ids(v)
    &&& forall|x: u64| #[trigger] s.contains(x) <==> v.contains(x)
}

pub open spec fn dated_hosts(i: AggInput, s: u64, n: int, by_install: bool) -> Set<u64> {
    if by_install {
        install_dated_hosts(i, s, n)
    } else {
        mod_dated_hosts(i, s, n)
    }
}

pub open spec fn host_best(i: AggInput, s: u64, h: u64, n: int, by_install: bool) -> Option<Seq<char>> {
    if by_install {
        host_install_best(i, s, h, n)
    } else {
        host_mod_best(i, s, h, n)
    }
}

/// The keys of a per-computer date table are distinct.
pub open spec fn table_keys_distinct(v: Seq<(u64, Option<String>)>) -> bool {
    forall|a: int, b: int| 0 <= a < b < v.len() ==> #[trigger] v[a].0 != #[trigger] v[b].0
}

pub open spec fn table_has(v: Seq<(u64, Option<String>)>, h: u64) -> bool {
    exists|k: int| 0 <= k < v.len() && #[trigger] v[k].0 == h
}

/// A per-computer date table of software `s` after `n` installations.
spec fn best_table_ok(i: AggInput, s: u64, n: int, by_install: bool, v: Seq<(u64, Option<String>)>) -> bool {
    &&& table_keys_distinct(v)
    &&& forall|h: u64| #[trigger] dated_hosts(i, s, n, by_install).contains(h) <==> table_has(v, h)
    &&& forall|k: int| 0 <= k < v.len() ==> opt_view(#[trigger] v[k].1) == host_best(i, s, v[k].0, n, by_install)
}

/// What one version of one software id gathers.
struct VersionAcc {
    vid: u64,
    hosts: Vec<u64>,
    date: Option<String>,
}

spec fn versions_ok(i: AggInput, s: u64, n: int, vers: Seq<VersionAcc>) -> bool {
    &&& forall|a: int, b: int| 0 <= a < b < vers.len() ==> #[trigger] vers[a].vid != #[trigger] vers[b].vid
    &&& forall|v: u64| #[trigger] sw_versions(i, s, n).contains(v) <==> exists|k: int|
        0 <= k < vers.len() && #[trigger] vers[k].vid == v
    &&& forall|k: int|
        0 <= k < vers.len() ==> lists_ids(#[trigger] vers[k].hosts@, version_hosts(i, s, vers[k].vid, n))
            && opt_view(vers[k].date) == version_date(i, s, vers[k].vid, n)
}

/// What one software id gathers.
struct SoftwareAcc {
    sw: u64,
    hosts: Vec<u64>,
    versions: Vec<VersionAcc>,
    install_date: Option<String>,
    any_date: Option<String>,
    mod_date: Option<String>,
    host_inventory: Option<String>,
    install_best: Vec<(u64, Option<String>)>,
    mod_best: Vec<(u64, Option<String>)>,
}

spec fn acc_ok(i: AggInput, n: int, a: SoftwareAcc) -> bool {
    &&& lists_ids(a.hosts@, sw_hosts(i, a.sw, n))
    &&& versions_ok(i, a.sw, n, a.versions@)
    &&& opt_view(a.install_date) == sw_install_date(i, a.sw, n)
    &&& opt_view(a.any_date) == sw_any_date(i, a.sw, n)
    &&& opt_view(a.mod_date) == sw_mod_date(i, a.sw, n)
    &&& opt_view(a.host_inventory) == sw_host_inventory(i, a.sw, n)
    &&& best_table_ok(i, a.sw, n, true, a.install_best@)
    &&& best_table_ok(i, a.sw, n, false, a.mod_best@)
}

fn add_id(v: &mut Vec<u64>, x: u64)
    ensures
        final(v)@ == (if old(v)@.contains(x) {
            old(v)@
        } else {
            old(v)@.push(x)
        }),
{
    match crate::history_query::find_id(v, x) {
        Some(_) => {},
        None => v.push(x),
    }
}

proof fn lemma_add_id(v: Seq<u64>, s: Set<u64>, x: u64)
    requires
        lists_ids(v, s),
    ensures
        lists_ids(
            if v.contains(x) {
                v
            } else {
                v.push(x)
            },
            s.insert(x),
        ),
{
    if !v.contains(x) {
        let w = v.push(x);
        assert forall|y: u64| #[trigger] s.insert(x).contains(y) <==> w.contains(y) by {
            if w.contains(y) {
                let k = choose|k: int| 0 <= k < w.len() && w[k] == y;
                if k < v.len() {
                    assert(v[k] == y);
                }
            }
            if v.contains(y) {
                let k = choose|k: int| 0 <= k < v.len() && v[k] == y;
                assert(w[k] == y);
            }
            if y == x {
                assert(w[v.len() as int] == x);
            }
        }
        assert forall|a: int, b: int| 0 <= a < b < w.len() implies #[trigger] w[a] != #[trigger] w[b] by {
            if b == v.len() {
                assert(w[a] == v[a]);
            } else {
                assert(w[a] == v[a] && w[b] == v[b]);
            }
        }
    }
}

/// Folds date `d` into computer `h`'s entry of a per-computer date table,
/// adding the entry (empty) first when there is none. Returns the entry's position.
fn bump_best(t: &mut Vec<(u64, Option<String>)>, h: u64, d: &str) -> (k: usize)
    ensures
        k <= old(t)@.len(),
        k < old(t)@.len() ==> old(t)@[k as int].0 == h && final(t)@.len() == old(t)@.len(),
        k == old(t)@.len() ==> !table_has(old(t)@, h) && final(t)@.len() == old(t)@.len() + 1,
        final(t)@[k as int].0 == h,
        opt_view(final(t)@[k as int].1) == best_step(
            if k < old(t)@.len() {
                opt_view(old(t)@[k as int].1)
            } else {
                None
            },
            d@,
        ),
        forall|j: int| 0 <= j < old(t)@.len() && j != k ==> final(t)@[j] == old(t)@[j],
{
    let mut k: usize = 0;
    while k < t.len()
        invariant
            k <= t@.len(),
            t@ == old(t)@,
            forall|j: int| 0 <= j < k ==> t@[j].0 != h,
        decreases t.len() - k,
    {
        if t[k].0 == h {
            let ghost before = t@;
            let (key, mut val) = t.remove(k);
            merge_date_best(&mut val, d);
            t.insert(k, (key, val));
            assert forall|j: int| 0 <= j < before.len() && j != k implies t@[j] == before[j] by {
                if j < k {
                } else {
                }
            }
            return k;
        }
        k = k + 1;
    }
    let mut val: Option<String> = None;
    merge_date_best(&mut val, d);
    t.push((h, val));
    k
}

pub open spec fn with_id(v: Seq<u64>, x: u64) -> Seq<u64> {
    if v.contains(x) {
        v
    } else {
        v.push(x)
    }
}

/// Records installation of version `vid` on computer `h` with the given dates,
/// adding the version first when it is new. Returns the version's position.
fn touch_version(
    vers: &mut Vec<VersionAcc>,
    vid: u64,
    h: u64,
    di: &Option<String>,
    dm: &Option<String>,
) -> (k: usize)
    ensures
        k <= old(vers)@.len(),
        k < old(vers)@.len() ==> old(vers)@[k as int].vid == vid && final(vers)@.len() == old(vers)@.len(),
        k == old(vers)@.len() ==> (forall|j: int| 0 <= j < old(vers)@.len() ==> #[trigger] old(vers)@[j].vid != vid)
            && final(vers)@.len() == old(vers)@.len() + 1,
        final(vers)@[k as int].vid == vid,
        final(vers)@[k as int].hosts@ == with_id(
            if k < old(vers)@.len() {
                old(vers)@[k as int].hosts@
            } else {
                Seq::<u64>::empty()
            },
            h,
        ),
        opt_view(final(vers)@[k as int].date) == newer_opt(
            newer_opt(
                if k < old(vers)@.len() {
                    opt_view(old(vers)@[k as int].date)
                } else {
                    None
                },
                *di,
            ),
            *dm,
        ),
        forall|j: int| 0 <= j < old(vers)@.len() && j != k ==> final(vers)@[j] == old(vers)@[j],
{
    let mut k: usize = 0;
    while k < vers.len()
        invariant
            k <= vers@.len(),
            vers@ == old(vers)@,
            forall|j: int| 0 <= j < k ==> #[trigger] vers@[j].vid != vid,
        decreases vers.len() - k,
    {
        if vers[k].vid == vid {
            let ghost before = vers@;
            let mut e = vers.remove(k);
            add_id(&mut e.hosts, h);
            match di {
                Some(d) => keep_newer(&mut e.date, d.as_str()),
                None => {},
            }
            match dm {
                Some(d) => keep_newer(&mut e.date, d.as_str()),
                None => {},
            }
            vers.insert(k, e);
            assert forall|j: int| 0 <= j < before.len() && j != k implies vers@[j] == before[j] by {
                if j < k {
                } else {
                }
            }
            return k;
        }
        k = k + 1;
    }
    let mut e = VersionAcc { vid, hosts: Vec::new(), date: None };
    add_id(&mut e.hosts, h);
    match di {
        Some(d) => keep_newer(&mut e.date, d.as_str()),
        None => {},
    }
    match dm {
        Some(d) => keep_newer(&mut e.date, d.as_str()),
        None => {},
    }
    vers.push(e);
    k
}

proof fn lemma_best_none(i: AggInput, s: u64, h: u64, n: int, by_install: bool)
    requires
        0 <= n <= i.installs.len(),
        !dated_hosts(i, s, n, by_install).contains(h),
    ensures
        host_best(i, s, h, n, by_install) is None,
    decreases n,
{
    if n > 0 {
        lemma_best_none(i, s, h, n - 1, by_install);
    }
}

proof fn lemma_version_fresh(i: AggInput, s: u64, v: u64, n: int)
    requires
        0 <= n <= i.installs.len(),
        !sw_versions(i, s, n).contains(v),
    ensures
        version_hosts(i, s, v, n) == Set::<u64>::empty(),
        version_date(i, s, v, n) is None,
    decreases n,
{
    if n > 0 {
        lemma_version_fresh(i, s, v, n - 1);
    }
}

/// Folding installation `n` into a per-computer date table of its software.
proof fn lemma_table_step(
    i: AggInput,
    s: u64,
    n: int,
    by_install: bool,
    t0: Seq<(u64, Option<String>)>,
    t1: Seq<(u64, Option<String>)>,
    k: int,
)
    requires
        0 <= n < i.installs.len(),
        counts_for(i, i.installs[n], s),
        best_table_ok(i, s, n, by_install, t0),
        ({
            let x = i.installs[n];
            let d = if by_install {
                x.date_install
            } else {
                x.date_mod
            };
            &&& d is None ==> t1 == t0
            &&& d is Some ==> {
                &&& 0 <= k <= t0.len()
                &&& k < t0.len() ==> t0[k].0 == x.items_id && t1.len() == t0.len()
                &&& k == t0.len() ==> !table_has(t0, x.items_id) && t1.len() == t0.len() + 1
                &&& t1[k].0 == x.items_id
                &&& opt_view(t1[k].1) == best_step(
                    if k < t0.len() {
                        opt_view(t0[k].1)
                    } else {
                        None
                    },
                    d.unwrap()@,
                )
                &&& forall|j: int| 0 <= j < t0.len() && j != k ==> t1[j] == t0[j]
            }
        }),
    ensures
        best_table_ok(i, s, n + 1, by_install, t1),
{
    let x = i.installs[n];
    let h = x.items_id;
    let d = if by_install {
        x.date_install
    } else {
        x.date_mod
    };
    if d is None {
        assert forall|k2: int| 0 <= k2 < t1.len() implies opt_view(#[trigger] t1[k2].1) == host_best(
            i,
            s,
            t1[k2].0,
            n + 1,
            by_install,
        ) by {
            assert(opt_view(t0[k2].1) == host_best(i, s, t0[k2].0, n, by_install));
        }
        assert forall|h2: u64| #[trigger] dated_hosts(i, s, n + 1, by_install).contains(h2) <==> table_has(t1, h2) by {
            assert(dated_hosts(i, s, n, by_install).contains(h2) <==> table_has(t0, h2));
        }
    } else {
        if k == t0.len() {
            if dated_hosts(i, s, n, by_install).contains(h) {
                assert(table_has(t0, h));
            }
            lemma_best_none(i, s, h, n, by_install);
        }
        assert forall|a: int, b: int| 0 <= a < b < t1.len() implies #[trigger] t1[a].0 != #[trigger] t1[b].0 by {
            if a != k && b != k {
                assert(t1[a] == t0[a] && t1[b] == t0[b]);
            } else if a == k {
                assert(t1[b] == t0[b]);
                if k == t0.len() {
                    assert(false);
                } else {
                    assert(t0[a].0 != t0[b].0);
                }
            } else {
                assert(t1[a] == t0[a]);
                if k == t0.len() {
                    assert(!(0 <= a < t0.len() && t0[a].0 == h));
                } else {
                    assert(t0[a].0 != t0[b].0);
                }
            }
        }
        assert forall|k2: int| 0 <= k2 < t1.len() implies opt_view(#[trigger] t1[k2].1) == host_best(
            i,
            s,
            t1[k2].0,
            n + 1,
            by_install,
        ) by {
            if k2 != k {
                assert(t1[k2] == t0[k2]);
                assert(opt_view(t0[k2].1) == host_best(i, s, t0[k2].0, n, by_install));
                if k < t0.len() {
                    assert(t0[k2].0 != t0[k].0);
                } else {
                    assert(!(0 <= k2 < t0.len() && t0[k2].0 == h));
                }
            } else if k < t0.len() {
                assert(opt_view(t0[k2].1) == host_best(i, s, t0[k2].0, n, by_install));
            }
        }
        assert forall|h2: u64| #[trigger] dated_hosts(i, s, n + 1, by_install).contains(h2) <==> table_has(t1, h2) by {
            assert(dated_hosts(i, s, n, by_install).contains(h2) <==> table_has(t0, h2));
            if table_has(t1, h2) {
                let k2 = choose|k2: int| 0 <= k2 < t1.len() && #[trigger] t1[k2].0 == h2;
                if k2 != k {
                    assert(t1[k2] == t0[k2]);
                }
            }
            if table_has(t0, h2) {
                let k2 = choose|k2: int| 0 <= k2 < t0.len() && #[trigger] t0[k2].0 == h2;
                if k2 != k {
                    assert(t1[k2] == t0[k2]);
                } else {
                    assert(t1[k].0 == h2);
                }
            }
            if h2 == h {
                assert(t1[k].0 == h2);
            }
        }
    }
}

/// Folding installation `n` into the version list of its software.
proof fn lemma_versions_step(i: AggInput, s: u64, n: int, v0: Seq<VersionAcc>, v1: Seq<VersionAcc>, k: int)
    requires
        0 <= n < i.installs.len(),
        counts_for(i, i.installs[n], s),
        versions_ok(i, s, n, v0),
        ({
            let x = i.installs[n];
            &&& 0 <= k <= v0.len()
            &&& k < v0.len() ==> v0[k].vid == x.softwareversions_id && v1.len() == v0.len()
            &&& k == v0.len() ==> (forall|j: int| 0 <= j < v0.len() ==> #[trigger] v0[j].vid != x.softwareversions_id)
                && v1.len() == v0.len() + 1
            &&& v1[k].vid == x.softwareversions_id
            &&& v1[k].hosts@ == with_id(
                if k < v0.len() {
                    v0[k].hosts@
                } else {
                    Seq::<u64>::empty()
                },
                x.items_id,
            )
            &&& opt_view(v1[k].date) == newer_opt(
                newer_opt(
                    if k < v0.len() {
                        opt_view(v0[k].date)
                    } else {
                        None
                    },
                    x.date_install,
                ),
                x.date_mod,
            )
            &&& forall|j: int| 0 <= j < v0.len() && j != k ==> v1[j] == v0[j]
        }),
    ensures
        versions_ok(i, s, n + 1, v1),
{
    let x = i.installs[n];
    let vid = x.softwareversions_id;
    if k == v0.len() {
        if sw_versions(i, s, n).contains(vid) {
            let k2 = choose|k2: int| 0 <= k2 < v0.len() && #[trigger] v0[k2].vid == vid;
        }
        lemma_version_fresh(i, s, vid, n);
        lemma_add_id(Seq::<u64>::empty(), Set::<u64>::empty(), x.items_id);
        assert(Set::<u64>::empty().insert(x.items_id) == version_hosts(i, s, vid, n + 1));
    } else {
        assert(lists_ids(v0[k].hosts@, version_hosts(i, s, vid, n)));
        lemma_add_id(v0[k].hosts@, version_hosts(i, s, vid, n), x.items_id);
    }
    assert forall|a: int, b: int| 0 <= a < b < v1.len() implies #[trigger] v1[a].vid != #[trigger] v1[b].vid by {
        if a != k && b != k {
            assert(v1[a] == v0[a] && v1[b] == v0[b]);
        } else if a == k {
            assert(v1[b] == v0[b]);
            if k < v0.len() {
                assert(v0[a].vid != v0[b].vid);
            }
        } else {
            assert(v1[a] == v0[a]);
            if k < v0.len() {
                assert(v0[a].vid != v0[b].vid);
            }
        }
    }
    assert forall|k2: int| 0 <= k2 < v1.len() implies lists_ids(#[trigger] v1[k2].hosts@, version_hosts(i, s, v1[k2].vid, n + 1))
        && opt_view(v1[k2].date) == version_date(i, s, v1[k2].vid, n + 1) by {
        if k2 != k {
            assert(v1[k2] == v0[k2]);
            assert(lists_ids(v0[k2].hosts@, version_hosts(i, s, v0[k2].vid, n)));
            if k < v0.len() {
                assert(v0[k2].vid != v0[k].vid);
            }
        } else {
            assert(version_hosts(i, s, vid, n + 1) == version_hosts(i, s, vid, n).insert(x.items_id));
            assert(version_date(i, s, vid, n + 1) == newer_opt(
                newer_opt(version_date(i, s, vid, n), x.date_install),
                x.date_mod,
            ));
            if k < v0.len() {
                assert(opt_view(v0[k].date) == version_date(i, s, vid, n));
            }
        }
    }
    assert forall|v: u64| #[trigger] sw_versions(i, s, n + 1).contains(v) <==> exists|k2: int|
        0 <= k2 < v1.len() && #[trigger] v1[k2].vid == v by {
        if sw_versions(i, s, n).contains(v) {
            let k2 = choose|k2: int| 0 <= k2 < v0.len() && #[trigger] v0[k2].vid == v;
            if k2 != k {
                assert(v1[k2] == v0[k2]);
            } else {
                assert(v1[k].vid == v);
            }
        }
        if v == vid {
            assert(v1[k].vid == v);
        }
        if exists|k2: int| 0 <= k2 < v1.len() && #[trigger] v1[k2].vid == v {
            let k2 = choose|k2: int| 0 <= k2 < v1.len() && #[trigger] v1[k2].vid == v;
            if k2 != k {
                assert(v1[k2] == v0[k2]);
            }
        }
    }
    assert(forall|a: int, b: int| 0 <= a < b < v1.len() ==> #[trigger] v1[a].vid != #[trigger] v1[b].vid);
    assert(forall|k2: int| 0 <= k2 < v1.len() ==> lists_ids(#[trigger] v1[k2].hosts@, version_hosts(i, s, v1[k2].vid, n + 1))
        && opt_view(v1[k2].date) == version_date(i, s, v1[k2].vid, n + 1));
    assert(forall|v: u64| #[trigger] sw_versions(i, s, n + 1).contains(v) <==> exists|k2: int|
        0 <= k2 < v1.len() && #[trigger] v1[k2].vid == v);
    assert(versions_ok(i, s, n + 1, v1));

}

/// An installation of another software leaves a summary as it is.
proof fn lemma_acc_untouched(i: AggInput, n: int, a: SoftwareAcc)
    requires
        0 <= n < i.installs.len(),
        acc_ok(i, n, a),
        !counts_for(i, i.installs[n], a.sw),
    ensures
        acc_ok(i, n + 1, a),
{
    let s = a.sw;
    assert(sw_hosts(i, s, n + 1) == sw_hosts(i, s, n));
    assert(sw_versions(i, s, n + 1) == sw_versions(i, s, n));
    assert forall|k: int| 0 <= k < a.versions@.len() implies lists_ids(
        #[trigger] a.versions@[k].hosts@,
        version_hosts(i, s, a.versions@[k].vid, n + 1),
    ) && opt_view(a.versions@[k].date) == version_date(i, s, a.versions@[k].vid, n + 1) by {
        assert(version_hosts(i, s, a.versions@[k].vid, n + 1) == version_hosts(i, s, a.versions@[k].vid, n));
        assert(version_date(i, s, a.versions@[k].vid, n + 1) == version_date(i, s, a.versions@[k].vid, n));
        assert(lists_ids(a.versions@[k].hosts@, version_hosts(i, s, a.versions@[k].vid, n)));
        assert(opt_view(a.versions@[k].date) == version_date(i, s, a.versions@[k].vid, n));
    }
    assert(versions_ok(i, s, n + 1, a.versions@));
    assert(install_dated_hosts(i, s, n + 1) == install_dated_hosts(i, s, n));
    assert(mod_dated_hosts(i, s, n + 1) == mod_dated_hosts(i, s, n));
    assert forall|k: int| 0 <= k < a.install_best@.len() implies opt_view(#[trigger] a.install_best@[k].1)
        == host_best(i, s, a.install_best@[k].0, n + 1, true) by {
        assert(host_install_best(i, s, a.install_best@[k].0, n + 1) == host_install_best(i, s, a.install_best@[k].0, n));
        assert(opt_view(a.install_best@[k].1) == host_best(i, s, a.install_best@[k].0, n, true));
    }
    assert forall|k: int| 0 <= k < a.mod_best@.len() implies opt_view(#[trigger] a.mod_best@[k].1)
        == host_best(i, s, a.mod_best@[k].0, n + 1, false) by {
        assert(host_mod_best(i, s, a.mod_best@[k].0, n + 1) == host_mod_best(i, s, a.mod_best@[k].0, n));
        assert(opt_view(a.mod_best@[k].1) == host_best(i, s, a.mod_best@[k].0, n, false));
    }
    assert forall|h: u64| #[trigger] dated_hosts(i, s, n + 1, true).contains(h) <==> table_has(a.install_best@, h) by {
        assert(dated_hosts(i, s, n, true).contains(h) <==> table_has(a.install_best@, h));
    }
    assert forall|h: u64| #[trigger] dated_hosts(i, s, n + 1, false).contains(h) <==> table_has(a.mod_best@, h) by {
        assert(dated_hosts(i, s, n, false).contains(h) <==> table_has(a.mod_best@, h));
    }
    assert(best_table_ok(i, s, n + 1, true, a.install_best@));
    assert(best_table_ok(i, s, n + 1, false, a.mod_best@));
}

/// Before its first installation, a software has gathered nothing.
proof fn lemma_fresh(i: AggInput, s: u64, n: int)
    requires
        0 <= n <= i.installs.len(),
        !software_order(i, n).contains(s),
    ensures
        sw_hosts(i, s, n) == Set::<u64>::empty(),
        sw_versions(i, s, n) == Set::<u64>::empty(),
        sw_install_date(i, s, n) is None,
        sw_any_date(i, s, n) is None,
        sw_mod_date(i, s, n) is None,
        sw_host_inventory(i, s, n) is None,
        install_dated_hosts(i, s, n) == Set::<u64>::empty(),
        mod_dated_hosts(i, s, n) == Set::<u64>::empty(),
    decreases n,
{
    if n > 0 {
        let prev = software_order(i, n - 1);
        assert forall|k: int| 0 <= k < prev.len() implies software_order(i, n).contains(#[trigger] prev[k]) by {
            match installed_software(i, i.installs[n - 1]) {
                Some(s2) => if !prev.contains(s2) {
                    assert(prev.push(s2)[k] == prev[k]);
                },
                None => {},
            }
        }
        if prev.contains(s) {
            let k = choose|k: int| 0 <= k < prev.len() && prev[k] == s;
            assert(software_order(i, n).contains(prev[k]));
        }
        if counts_for(i, i.installs[n - 1], s) {
            assert(prev.push(s)[prev.len() as int] == s);
        }
        lemma_fresh(i, s, n - 1);
    }
}

fn empty_acc(sw: u64, Ghost(i): Ghost<AggInput>, Ghost(n): Ghost<int>) -> (a: SoftwareAcc)
    requires
        0 <= n <= i.installs.len(),
        !software_order(i, n).contains(sw),
    ensures
        a.sw == sw,
        acc_ok(i, n, a),
{
    let a = SoftwareAcc {
        sw,
        hosts: Vec::new(),
        versions: Vec::new(),
        install_date: None,
        any_date: None,
        mod_date: None,
        host_inventory: None,
        install_best: Vec::new(),
        mod_best: Vec::new(),
    };
    proof {
        lemma_fresh(i, sw, n);
        assert(a.hosts@ =~= Seq::<u64>::empty());
    }
    a
}

/// Folds installation `n` into the summary of its software.
#[verifier::rlimit(40)]
fn add_installation(
    acc: &mut SoftwareAcc,
    x: &GlpiItemSoftwareVersion,
    inv: Option<&String>,
    Ghost(i): Ghost<AggInput>,
    Ghost(n): Ghost<int>,
)
    requires
        0 <= n < i.installs.len(),
        i.installs[n] == *x,
        acc_ok(i, n, *old(acc)),
        counts_for(i, *x, old(acc).sw),
        match inv {
            Some(t) => host_inventory(i, x.items_id) == Some(t@),
            None => host_inventory(i, x.items_id) is None,
        },
    ensures
        final(acc).sw == old(acc).sw,
        acc_ok(i, n + 1, *final(acc)),
{
    let ghost a0 = *acc;
    let s = acc.sw;
    add_id(&mut acc.hosts, x.items_id);
    proof {
        lemma_add_id(a0.hosts@, sw_hosts(i, s, n), x.items_id);
    }
    let ghost t0 = acc.install_best@;
    let ki = match &x.date_install {
        Some(d) => bump_best(&mut acc.install_best, x.items_id, d.as_str()),
        None => 0,
    };
    proof {
        lemma_table_step(i, s, n, true, t0, acc.install_best@, ki as int);
    }
    let ghost m0 = acc.mod_best@;
    let km = match &x.date_mod {
        Some(d) => bump_best(&mut acc.mod_best, x.items_id, d.as_str()),
        None => 0,
    };
    proof {
        lemma_table_step(i, s, n, false, m0, acc.mod_best@, km as int);
    }
    let ghost v0 = acc.versions@;
    let kv = touch_version(&mut acc.versions, x.softwareversions_id, x.items_id, &x.date_install, &x.date_mod);
    proof {
        lemma_versions_step(i, s, n, v0, acc.versions@, kv as int);
    }
    match inv {
        Some(t) => merge_date_best(&mut acc.host_inventory, t.as_str()),
        None => {},
    }
    match &x.date_install {
        Some(d) => {
            keep_newer(&mut acc.any_date, d.as_str());
            keep_newer(&mut acc.install_date, d.as_str());
        },
        None => {},
    }
    match &x.date_mod {
        Some(d) => {
            keep_newer(&mut acc.mod_date, d.as_str());
            keep_newer(&mut acc.any_date, d.as_str());
        },
        None => {},
    }
}

proof fn lemma_order_distinct(i: AggInput, n: int)
    requires
        0 <= n <= i.installs.len(),
    ensures
        distinct_ids(software_order(i, n)),
    decreases n,
{
    if n > 0 {
        lemma_order_distinct(i, n - 1);
        let prev = software_order(i, n - 1);
        match installed_software(i, i.installs[n - 1]) {
            Some(s) => if !prev.contains(s) {
                let o = prev.push(s);
                assert forall|a: int, b: int| 0 <= a < b < o.len() implies #[trigger] o[a] != #[trigger] o[b] by {
                    if b == prev.len() {
                        assert(o[a] == prev[a]);
                    } else {
                        assert(o[a] == prev[a] && o[b] == prev[b]);
                    }
                }
            },
            None => {},
        }
    }
}

/// Every installation folded into the summary of its software; the summaries
/// come in the order in which each software first shows up.
#[verifier::rlimit(60)]
fn gather_by_software(
    sl: &[GlpiSoftware],
    vs: &[GlpiSoftwareVersion],
    is: &[GlpiItemSoftwareVersion],
    cs: &[GlpiComputer],
) -> (accs: Vec<SoftwareAcc>)
    ensures
        ({
            let i = agg_input(sl@, vs@, is@, cs@);
            let order = software_order(i, is@.len() as int);
            &&& accs@.len() == order.len()
            &&& forall|g: int| 0 <= g < accs@.len() ==> #[trigger] accs@[g].sw == order[g] && acc_ok(
                i,
                is@.len() as int,
                accs@[g],
            )
        }),
{
    let ghost i = agg_input(sl@, vs@, is@, cs@);
    let owners = owner_table(vs);
    let rows = software_table(sl);
    let inv = inventory_table(cs);
    let mut slot: HashMap<u64, usize> = HashMap::new();
    let mut accs: Vec<SoftwareAcc> = Vec::new();
    let mut n: usize = 0;
    while n < is.len()
        invariant
            i == agg_input(sl@, vs@, is@, cs@),
            n <= is@.len(),
            forall|vid: u64|
                match version_owner_upto(vs@, vid, vs@.len() as int) {
                    Some(s) => #[trigger] owners@.contains_key(vid) && owners@[vid] == s,
                    None => !owners@.contains_key(vid),
                },
            forall|id: u64|
                match software_row_upto(sl@, id, sl@.len() as int) {
                    Some(r) => #[trigger] rows@.contains_key(id) && rows@[id] == r,
                    None => !rows@.contains_key(id),
                },
            forall|h: u64|
                match host_inventory_upto(cs@, h, cs@.len() as int) {
                    Some(t) => #[trigger] inv@.contains_key(h) && inv@[h]@ == t,
                    None => !inv@.contains_key(h),
                },
            accs@.len() == software_order(i, n as int).len(),
            forall|g: int| 0 <= g < accs@.len() ==> #[trigger] accs@[g].sw == software_order(i, n as int)[g],
            forall|g: int| 0 <= g < accs@.len() ==> acc_ok(i, n as int, #[trigger] accs@[g]),
            forall|s: u64| #[trigger] slot@.contains_key(s) <==> software_order(i, n as int).contains(s),
            forall|s: u64| #[trigger] slot@.contains_key(s) ==> slot@[s] < accs@.len() && accs@[slot@[s] as int].sw == s,
        decreases is.len() - n,
    {
        let x = &is[n];
        let ghost order = software_order(i, n as int);
        proof {
            lemma_order_distinct(i, n as int);
        }
        let counted: Option<u64> = match owners.get(&x.softwareversions_id) {
            Some(s) => if rows.contains_key(s) {
                Some(*s)
            } else {
                None
            },
            None => None,
        };
        assert(counted == installed_software(i, *x));
        let hinv = inv.get(&x.items_id);
        match counted {
            None => {
                proof {
                    assert(software_order(i, n + 1) == order);
                    assert forall|g: int| 0 <= g < accs@.len() implies acc_ok(i, n + 1, #[trigger] accs@[g]) by {
                        lemma_acc_untouched(i, n as int, accs@[g]);
                    }
                }
            },
            Some(s) => {
                match slot.get(&s) {
                    Some(g) => {
                        let g = *g;
                        let ghost before = accs@;
                        let mut a = accs.remove(g);
                        add_installation(&mut a, x, hinv, Ghost(i), Ghost(n as int));
                        accs.insert(g, a);
                        proof {
                            assert(order.contains(s));
                            assert(software_order(i, n + 1) == order);
                            assert forall|h: int| 0 <= h < accs@.len() implies acc_ok(i, n + 1, #[trigger] accs@[h]) by {
                                if h != g {
                                    assert(accs@[h] == before[h]);
                                    assert(before[h].sw == order[h]);
                                    assert(order[h] != order[g as int]);
                                    lemma_acc_untouched(i, n as int, before[h]);
                                }
                            }
                            assert forall|h: int| 0 <= h < accs@.len() implies #[trigger] accs@[h].sw == software_order(i, n + 1)[h] by {
                                if h != g {
                                    assert(accs@[h] == before[h]);
                                }
                            }
                        }
                    },
                    None => {
                        let mut a = empty_acc(s, Ghost(i), Ghost(n as int));
                        add_installation(&mut a, x, hinv, Ghost(i), Ghost(n as int));
                        let ghost before = accs@;
                        slot.insert(s, accs.len());
                        accs.push(a);
                        proof {
                            assert(software_order(i, n + 1) == order.push(s));
                            assert forall|h: int| 0 <= h < accs@.len() implies acc_ok(i, n + 1, #[trigger] accs@[h]) by {
                                if h < before.len() {
                                    assert(accs@[h] == before[h]);
                                    assert(before[h].sw == order[h]);
                                    lemma_acc_untouched(i, n as int, before[h]);
                                }
                            }
                            assert forall|h: int| 0 <= h < accs@.len() implies #[trigger] accs@[h].sw == software_order(i, n + 1)[h] by {
                                if h < before.len() {
                                    assert(accs@[h] == before[h]);
                                }
                            }
                            assert forall|t: u64| #[trigger] slot@.contains_key(t) <==> software_order(i, n + 1).contains(t) by {
                                if order.contains(t) {
                                    let k = choose|k: int| 0 <= k < order.len() && order[k] == t;
                                    assert(order.push(s)[k] == t);
                                }
                                if order.push(s).contains(t) && t != s {
                                    let k = choose|k: int| 0 <= k < order.len() + 1 && order.push(s)[k] == t;
                                    assert(order[k] == t);
                                }
                                if t == s {
                                    assert(order.push(s)[order.len() as int] == s);
                                }
                            }
                            assert forall|t: u64| #[trigger] slot@.contains_key(t) implies slot@[t] < accs@.len() && accs@[slot@[t] as int].sw == t by {
                                if t != s {
                                    assert(accs@[slot@[t] as int] == before[slot@[t] as int]);
                                }
                            }
                        }
                    },
                }
            },
        }
        n = n + 1;
    }
    accs
}

// ---------------------------------------------------------------------------
// Merging the per-id summaries by normalized name and publisher
// ---------------------------------------------------------------------------
pub open spec fn full(i: AggInput) -> int {
    i.installs.len() as int
}

/// The software row of a counted software id (its last row).
pub open spec fn software_of(i: AggInput, s: u64) -> GlpiSoftware {
    i.software[software_row_upto(i.software, s, i.software.len() as int).unwrap()]
}

/// The publisher shown for a manufacturer field: "Unknown" for an empty, "0" or
/// "&nbsp;" field.
pub open spec fn publisher_label(m: Seq<char>) -> Seq<char> {
    if m.len() == 0 || m == seq!['0'] || m == "&nbsp;"@ {
        "Unknown"@
    } else {
        m
    }
}

/// The key under which a software id is merged: normalized name and publisher.
pub open spec fn group_key(i: AggInput, s: u64) -> (Seq<char>, Seq<char>) {
    (
        grouping_key(software_of(i, s).name@),
        grouping_key(publisher_label(software_of(i, s).manufacturers_id@)),
    )
}

/// The counted software ids with key `k`, among the first `m` in order of appearance.
pub open spec fn group_members(i: AggInput, k: (Seq<char>, Seq<char>), m: int) -> Seq<u64>
    decreases m,
{
    if m <= 0 {
        Seq::empty()
    } else {
        let o = software_order(i, full(i));
        let prev = group_members(i, k, m - 1);
        if group_key(i, o[m - 1]) == k {
            prev.push(o[m - 1])
        } else {
            prev
        }
    }
}

/// The keys of the first `m` counted software ids, each once, in order of appearance.
pub open spec fn group_keys(i: AggInput, m: int) -> Seq<(Seq<char>, Seq<char>)>
    decreases m,
{
    if m <= 0 {
        Seq::empty()
    } else {
        let o = software_order(i, full(i));
        let prev = group_keys(i, m - 1);
        let k = group_key(i, o[m - 1]);
        if prev.contains(k) {
            prev
        } else {
            prev.push(k)
        }
    }
}

pub open spec fn members_hosts(i: AggInput, ms: Seq<u64>) -> Set<u64>
    decreases ms.len(),
{
    if ms.len() == 0 {
        Set::empty()
    } else {
        members_hosts(i, ms.drop_last()).union(sw_hosts(i, ms.last(), full(i)))
    }
}

/// The smallest of the members' ids.
pub open spec fn members_min(ms: Seq<u64>) -> u64
    decreases ms.len(),
{
    if ms.len() <= 1 {
        ms[0]
    } else {
        let p = members_min(ms.drop_last());
        if ms.last() < p {
            ms.last()
        } else {
            p
        }
    }
}

/// Folds a member's newest date into the group's: a newer incoming date replaces it.
pub open spec fn merge_newer(best: Option<Seq<char>>, incoming: Option<Seq<char>>) -> Option<Seq<char>> {
    match incoming {
        Some(x) => newer_step(best, x),
        None => best,
    }
}

/// One of a software's four newest dates: install (0), install or change (1),
/// change (2), host inventory (3).
pub open spec fn sw_date(i: AggInput, s: u64, which: int) -> Option<Seq<char>> {
    if which == 0 {
        sw_install_date(i, s, full(i))
    } else if which == 1 {
        sw_any_date(i, s, full(i))
    } else if which == 2 {
        sw_mod_date(i, s, full(i))
    } else {
        sw_host_inventory(i, s, full(i))
    }
}

pub open spec fn members_date(i: AggInput, ms: Seq<u64>, which: int) -> Option<Seq<char>>
    decreases ms.len(),
{
    if ms.len() == 0 {
        None
    } else {
        merge_newer(members_date(i, ms.drop_last(), which), sw_date(i, ms.last(), which))
    }
}

pub open spec fn members_vids(i: AggInput, ms: Seq<u64>) -> Set<u64>
    decreases ms.len(),
{
    if ms.len() == 0 {
        Set::empty()
    } else {
        members_vids(i, ms.drop_last()).union(sw_versions(i, ms.last(), full(i)))
    }
}

pub open spec fn members_ver_hosts(i: AggInput, ms: Seq<u64>, v: u64) -> Set<u64>
    decreases ms.len(),
{
    if ms.len() == 0 {
        Set::empty()
    } else {
        members_ver_hosts(i, ms.drop_last(), v).union(version_hosts(i, ms.last(), v, full(i)))
    }
}

pub open spec fn members_ver_date(i: AggInput, ms: Seq<u64>, v: u64) -> Option<Seq<char>>
    decreases ms.len(),
{
    if ms.len() == 0 {
        None
    } else if sw_versions(i, ms.last(), full(i)).contains(v) {
        merge_newer(members_ver_date(i, ms.drop_last(), v), version_date(i, ms.last(), v, full(i)))
    } else {
        members_ver_date(i, ms.drop_last(), v)
    }
}

/// The merged per-computer table has an entry for `h`: the first member's table
/// is taken whole, later members add the entries that hold a date.
pub open spec fn members_table_has(i: AggInput, ms: Seq<u64>, h: u64, by_install: bool) -> bool
    decreases ms.len(),
{
    if ms.len() == 0 {
        false
    } else if ms.len() == 1 {
        dated_hosts(i, ms[0], full(i), by_install).contains(h)
    } else {
        members_table_has(i, ms.drop_last(), h, by_install) || (dated_hosts(
            i,
            ms.last(),
            full(i),
            by_install,
        ).contains(h) && host_best(i, ms.last(), h, full(i), by_install) is Some)
    }
}

/// The merged per-computer table's value for `h`.
pub open spec fn members_table_val(i: AggInput, ms: Seq<u64>, h: u64, by_install: bool) -> Option<Seq<char>>
    decreases ms.len(),
{
    if ms.len() == 0 {
        None
    } else if ms.len() == 1 {
        host_best(i, ms[0], h, full(i), by_install)
    } else {
        let prev = members_table_val(i, ms.drop_last(), h, by_install);
        match host_best(i, ms.last(), h, full(i), by_install) {
            Some(inc) => if dated_hosts(i, ms.last(), full(i), by_install).contains(h) {
                best_step(prev, inc)
            } else {
                prev
            },
            None => prev,
        }
    }
}

/// What one group of software ids gathers.
struct GroupAcc {
    key_name: String,
    key_publisher: String,
    software_id: u64,
    name: String,
    publisher: String,
    hosts: Vec<u64>,
    versions: Vec<VersionAcc>,
    install_date: Option<String>,
    any_date: Option<String>,
    mod_date: Option<String>,
    host_inventory: Option<String>,
    install_best: Vec<(u64, Option<String>)>,
    mod_best: Vec<(u64, Option<String>)>,
}

spec fn group_versions_ok(i: AggInput, ms: Seq<u64>, vers: Seq<VersionAcc>) -> bool {
    &&& forall|a: int, b: int| 0 <= a < b < vers.len() ==> #[trigger] vers[a].vid != #[trigger] vers[b].vid
    &&& forall|v: u64| #[trigger] members_vids(i, ms).contains(v) <==> exists|k: int|
        0 <= k < vers.len() && #[trigger] vers[k].vid == v
    &&& forall|k: int|
        0 <= k < vers.len() ==> lists_ids(#[trigger] vers[k].hosts@, members_ver_hosts(i, ms, vers[k].vid))
            && opt_view(vers[k].date) == members_ver_date(i, ms, vers[k].vid)
}

spec fn group_table_ok(i: AggInput, ms: Seq<u64>, by_install: bool, t: Seq<(u64, Option<String>)>) -> bool {
    &&& table_keys_distinct(t)
    &&& forall|h: u64| #[trigger] members_table_has(i, ms, h, by_install) <==> table_has(t, h)
    &&& forall|k: int| 0 <= k < t.len() ==> opt_view(#[trigger] t[k].1) == members_table_val(i, ms, t[k].0, by_install)
}

spec fn group_ok(i: AggInput, ms: Seq<u64>, g: GroupAcc) -> bool {
    &&& ms.len() > 0
    &&& (g.key_name@, g.key_publisher@) == group_key(i, ms[0])
    &&& g.software_id == members_min(ms)
    &&& g.name@ == software_of(i, ms[0]).name@
    &&& g.publisher@ == publisher_label(software_of(i, ms[0]).manufacturers_id@)
    &&& lists_ids(g.hosts@, members_hosts(i, ms))
    &&& group_versions_ok(i, ms, g.versions@)
    &&& opt_view(g.install_date) == members_date(i, ms, 0)
    &&& opt_view(g.any_date) == members_date(i, ms, 1)
    &&& opt_view(g.mod_date) == members_date(i, ms, 2)
    &&& opt_view(g.host_inventory) == members_date(i, ms, 3)
    &&& group_table_ok(i, ms, true, g.install_best@)
    &&& group_table_ok(i, ms, false, g.mod_best@)
}

/// Adds every id of `src` that `dst` lacks, in order.
fn union_ids(dst: &mut Vec<u64>, src: &Vec<u64>)
    requires
        distinct_ids(old(dst)@),
    ensures
        distinct_ids(final(dst)@),
        forall|x: u64| #[trigger] final(dst)@.contains(x) <==> old(dst)@.contains(x) || src@.contains(x),
{
    let mut j: usize = 0;
    while j < src.len()
        invariant
            j <= src@.len(),
            distinct_ids(dst@),
            forall|x: u64| #[trigger] dst@.contains(x) <==> old(dst)@.contains(x) || src@.take(j as int).contains(x),
        decreases src.len() - j,
    {
        let ghost d0 = dst@;
        add_id(dst, src[j]);
        proof {
            let s0 = Set::new(|x: u64| d0.contains(x));
            lemma_add_id(d0, s0, src@[j as int]);
            let t0 = src@.take(j as int);
            let t1 = src@.take(j + 1);
            let y = src@[j as int];
            assert(t1 =~= t0.push(y));
            assert forall|x: u64| #[trigger] dst@.contains(x) <==> old(dst)@.contains(x) || t1.contains(x) by {
                assert(s0.insert(y).contains(x) <==> dst@.contains(x));
                if t1.contains(x) {
                    let k = choose|k: int| 0 <= k < t1.len() && #[trigger] t1[k] == x;
                    if k < j {
                        assert(t0[k] == x);
                    }
                }
                if t0.contains(x) {
                    let k = choose|k: int| 0 <= k < t0.len() && #[trigger] t0[k] == x;
                    assert(t1[k] == x);
                }
                if x == y {
                    assert(t1[j as int] == x);
                }
            }
        }
        j = j + 1;
    }
    assert(src@.take(src@.len() as int) =~= src@);
}

fn merge_newer_into(cur: &mut Option<String>, incoming: &Option<String>)
    ensures
        opt_view(*final(cur)) == merge_newer(opt_view(*old(cur)), opt_view(*incoming)),
{
    match incoming {
        Some(d) => keep_newer(cur, d.as_str()),
        None => {},
    }
}

proof fn lemma_members_table_none(i: AggInput, ms: Seq<u64>, h: u64, by_install: bool)
    requires
        !members_table_has(i, ms, h, by_install),
    ensures
        members_table_val(i, ms, h, by_install) is None,
    decreases ms.len(),
{
    if ms.len() == 1 {
        lemma_best_none(i, ms[0], h, full(i), by_install);
    } else if ms.len() > 1 {
        lemma_members_table_none(i, ms.drop_last(), h, by_install);
    }
}

proof fn lemma_members_version_none(i: AggInput, ms: Seq<u64>, v: u64)
    requires
        !members_vids(i, ms).contains(v),
    ensures
        members_ver_hosts(i, ms, v) == Set::<u64>::empty(),
        members_ver_date(i, ms, v) is None,
    decreases ms.len(),
{
    if ms.len() > 0 {
        lemma_members_version_none(i, ms.drop_last(), v);
        lemma_version_fresh(i, ms.last(), v, full(i));
    }
}

spec fn vid_among(inc: Seq<VersionAcc>, j: int, v: u64) -> bool {
    exists|t: int| 0 <= t < j && #[trigger] inc[t].vid == v
}

/// The versions of a group while member `s`'s versions are being merged in:
/// those of the first `j` of `inc` are merged.
spec fn versions_merging(i: AggInput, ms: Seq<u64>, s: u64, inc: Seq<VersionAcc>, j: int, vers: Seq<VersionAcc>) -> bool {
    &&& forall|a: int, b: int| 0 <= a < b < vers.len() ==> #[trigger] vers[a].vid != #[trigger] vers[b].vid
    &&& forall|v: u64|
        (exists|k: int| 0 <= k < vers.len() && #[trigger] vers[k].vid == v) <==> (#[trigger] members_vids(i, ms).contains(v)
            || vid_among(inc, j, v))
    &&& forall|k: int|
        0 <= k < vers.len() ==> {
            let v = #[trigger] vers[k].vid;
            &&& lists_ids(
                vers[k].hosts@,
                if vid_among(inc, j, v) {
                    members_ver_hosts(i, ms, v).union(version_hosts(i, s, v, full(i)))
                } else {
                    members_ver_hosts(i, ms, v)
                },
            )
            &&& opt_view(vers[k].date) == if vid_among(inc, j, v) {
                merge_newer(members_ver_date(i, ms, v), version_date(i, s, v, full(i)))
            } else {
                members_ver_date(i, ms, v)
            }
        }
}

fn find_version(vers: &Vec<VersionAcc>, vid: u64) -> (r: Option<usize>)
    ensures
        match r {
            Some(k) => k < vers@.len() && vers@[k as int].vid == vid,
            None => forall|t: int| 0 <= t < vers@.len() ==> #[trigger] vers@[t].vid != vid,
        },
{
    let mut k: usize = 0;
    while k < vers.len()
        invariant
            k <= vers@.len(),
            forall|t: int| 0 <= t < k ==> #[trigger] vers@[t].vid != vid,
        decreases vers.len() - k,
    {
        if vers[k].vid == vid {
            return Some(k);
        }
        k = k + 1;
    }
    None
}

#[verifier::rlimit(80)]
fn merge_versions_into(
    vers: &mut Vec<VersionAcc>,
    inc: Vec<VersionAcc>,
    Ghost(i): Ghost<AggInput>,
    Ghost(ms): Ghost<Seq<u64>>,
    Ghost(s): Ghost<u64>,
)
    requires
        group_versions_ok(i, ms, old(vers)@),
        versions_ok(i, s, full(i), inc@),
    ensures
        group_versions_ok(i, ms.push(s), final(vers)@),
{
    let ghost inc0 = inc@;
    let mut rest = inc;
    let count = rest.len();
    let mut j: usize = 0;
    proof {
        assert forall|v: u64|
            (exists|k: int| 0 <= k < vers@.len() && #[trigger] vers@[k].vid == v) <==> (#[trigger] members_vids(i, ms).contains(v)
                || vid_among(inc0, 0, v)) by {}
        assert(versions_merging(i, ms, s, inc0, 0, vers@));
    }
    while j < count
        invariant
            count == inc0.len(),
            j <= count,
            rest@ == inc0.skip(j as int),
            versions_ok(i, s, full(i), inc0),
            versions_merging(i, ms, s, inc0, j as int, vers@),
        decreases count - j,
    {
        let w = rest.remove(0);
        proof {
            assert(inc0.skip(j as int)[0] == inc0[j as int]);
            assert(rest@ =~= inc0.skip(j + 1));
        }
        let ghost vid = w.vid;
        let ghost v0 = vers@;
        proof {
            assert(lists_ids(inc0[j as int].hosts@, version_hosts(i, s, vid, full(i))));
            assert(!vid_among(inc0, j as int, vid)) by {
                if vid_among(inc0, j as int, vid) {
                    let t = choose|t: int| 0 <= t < j && #[trigger] inc0[t].vid == vid;
                    assert(inc0[t].vid != inc0[j as int].vid);
                }
            }
            assert forall|v: u64| #[trigger] vid_among(inc0, j + 1, v) <==> vid_among(inc0, j as int, v) || v == vid by {
                if vid_among(inc0, j + 1, v) {
                    let t = choose|t: int| 0 <= t < j + 1 && #[trigger] inc0[t].vid == v;
                    if t < j {
                        assert(vid_among(inc0, j as int, v));
                    }
                }
                if vid_among(inc0, j as int, v) {
                    let t = choose|t: int| 0 <= t < j && #[trigger] inc0[t].vid == v;
                    assert(vid_among(inc0, j + 1, v));
                }
                if v == vid {
                    assert(inc0[j as int].vid == v);
                }
            }
        }
        let found = find_version(&vers, w.vid);
        if let Some(k) = found {
            let mut e = vers.remove(k);
            union_ids(&mut e.hosts, &w.hosts);
            merge_newer_into(&mut e.date, &w.date);
            vers.insert(k, e);
            proof {
                assert(vers@[k as int].vid == vid);
                assert(lists_ids(v0[k as int].hosts@, members_ver_hosts(i, ms, vid)));
                assert(members_ver_hosts(i, ms, vid).union(version_hosts(i, s, vid, full(i))) =~= Set::new(
                    |x: u64| vers@[k as int].hosts@.contains(x),
                ));
                assert forall|t: int| 0 <= t < vers@.len() && t != k implies vers@[t] == v0[t] by {
                    if t < k {
                    } else {
                    }
                }
                assert forall|t: int| 0 <= t < vers@.len() implies {
                    let v = #[trigger] vers@[t].vid;
                    &&& lists_ids(
                        vers@[t].hosts@,
                        if vid_among(inc0, j + 1, v) {
                            members_ver_hosts(i, ms, v).union(version_hosts(i, s, v, full(i)))
                        } else {
                            members_ver_hosts(i, ms, v)
                        },
                    )
                    &&& opt_view(vers@[t].date) == if vid_among(inc0, j + 1, v) {
                        merge_newer(members_ver_date(i, ms, v), version_date(i, s, v, full(i)))
                    } else {
                        members_ver_date(i, ms, v)
                    }
                } by {
                    if t != k {
                        assert(v0[t].vid != v0[k as int].vid);
                        assert(vid_among(inc0, j + 1, v0[t].vid) == vid_among(inc0, j as int, v0[t].vid));
                    } else {
                        assert(vid_among(inc0, j + 1, vid));
                    }
                }
                assert forall|v: u64|
                    (exists|t: int| 0 <= t < vers@.len() && #[trigger] vers@[t].vid == v) <==> (#[trigger] members_vids(i, ms).contains(v)
                        || vid_among(inc0, j + 1, v)) by {
                    assert((exists|t: int| 0 <= t < v0.len() && #[trigger] v0[t].vid == v) <==> (members_vids(i, ms).contains(v)
                        || vid_among(inc0, j as int, v)));
                    assert(vid_among(inc0, j + 1, v) <==> vid_among(inc0, j as int, v) || v == vid);
                    if exists|t: int| 0 <= t < vers@.len() && #[trigger] vers@[t].vid == v {
                        let t = choose|t: int| 0 <= t < vers@.len() && #[trigger] vers@[t].vid == v;
                        if t != k {
                            assert(vers@[t] == v0[t]);
                        }
                        assert(v0[t].vid == v);
                    }
                    if exists|t: int| 0 <= t < v0.len() && #[trigger] v0[t].vid == v {
                        let t = choose|t: int| 0 <= t < v0.len() && #[trigger] v0[t].vid == v;
                        if t != k {
                            assert(vers@[t] == v0[t]);
                        }
                        assert(vers@[t].vid == v);
                    }
                    if v == vid {
                        assert(vers@[k as int].vid == v);
                    }
                }
                assert forall|a: int, b: int| 0 <= a < b < vers@.len() implies #[trigger] vers@[a].vid != #[trigger] vers@[b].vid by {
                    assert(v0[a].vid != v0[b].vid);
                }
                assert(versions_merging(i, ms, s, inc0, j + 1, vers@));
            }
        } else {
            proof {
                assert(!members_vids(i, ms).contains(vid)) by {
                    if members_vids(i, ms).contains(vid) {
                        let t = choose|t: int| 0 <= t < v0.len() && #[trigger] v0[t].vid == vid;
                    }
                }
                lemma_members_version_none(i, ms, vid);
                assert(Set::<u64>::empty().union(version_hosts(i, s, vid, full(i))) =~= version_hosts(i, s, vid, full(i)));
            }
            vers.push(w);
            proof {
                assert forall|t: int| 0 <= t < vers@.len() implies {
                    let v = #[trigger] vers@[t].vid;
                    &&& lists_ids(
                        vers@[t].hosts@,
                        if vid_among(inc0, j + 1, v) {
                            members_ver_hosts(i, ms, v).union(version_hosts(i, s, v, full(i)))
                        } else {
                            members_ver_hosts(i, ms, v)
                        },
                    )
                    &&& opt_view(vers@[t].date) == if vid_among(inc0, j + 1, v) {
                        merge_newer(members_ver_date(i, ms, v), version_date(i, s, v, full(i)))
                    } else {
                        members_ver_date(i, ms, v)
                    }
                } by {
                    if t < v0.len() {
                        assert(vers@[t] == v0[t]);
                        assert(v0[t].vid != vid);
                        assert(vid_among(inc0, j + 1, v0[t].vid) == vid_among(inc0, j as int, v0[t].vid));
                    } else {
                        assert(vid_among(inc0, j + 1, vid));
                        assert(opt_view(inc0[j as int].date) == version_date(i, s, vid, full(i)));
                    }
                }
                assert forall|v: u64|
                    (exists|t: int| 0 <= t < vers@.len() && #[trigger] vers@[t].vid == v) <==> (#[trigger] members_vids(i, ms).contains(v)
                        || vid_among(inc0, j + 1, v)) by {
                    if exists|t: int| 0 <= t < vers@.len() && #[trigger] vers@[t].vid == v {
                        let t = choose|t: int| 0 <= t < vers@.len() && #[trigger] vers@[t].vid == v;
                        if t < v0.len() {
                            assert(v0[t].vid == v);
                        }
                    }
                    if exists|t: int| 0 <= t < v0.len() && #[trigger] v0[t].vid == v {
                        let t = choose|t: int| 0 <= t < v0.len() && #[trigger] v0[t].vid == v;
                        assert(vers@[t].vid == v);
                    }
                    if v == vid {
                        assert(vers@[v0.len() as int].vid == v);
                    }
                }
                assert forall|a: int, b: int| 0 <= a < b < vers@.len() implies #[trigger] vers@[a].vid != #[trigger] vers@[b].vid by {
                    if b == v0.len() {
                        assert(vers@[a] == v0[a]);
                    } else {
                        assert(v0[a].vid != v0[b].vid);
                    }
                }
                assert(versions_merging(i, ms, s, inc0, j + 1, vers@));
            }
        }
        j = j + 1;
    }
    proof {
        let ms2 = ms.push(s);
        assert(ms2.drop_last() =~= ms);
        assert forall|v: u64| #[trigger] vid_among(inc0, inc0.len() as int, v) <==> sw_versions(i, s, full(i)).contains(v) by {
            if vid_among(inc0, inc0.len() as int, v) {
                let t = choose|t: int| 0 <= t < inc0.len() && #[trigger] inc0[t].vid == v;
            }
        }
        assert forall|v: u64| #[trigger] members_vids(i, ms2).contains(v) <==> exists|k: int|
            0 <= k < vers@.len() && #[trigger] vers@[k].vid == v by {
            assert(members_vids(i, ms2) == members_vids(i, ms).union(sw_versions(i, s, full(i))));
            assert(members_vids(i, ms).contains(v) || vid_among(inc0, inc0.len() as int, v) <==> exists|k: int|
                0 <= k < vers@.len() && #[trigger] vers@[k].vid == v);
        }
        assert forall|k: int|
            0 <= k < vers@.len() implies lists_ids(#[trigger] vers@[k].hosts@, members_ver_hosts(i, ms2, vers@[k].vid))
                && opt_view(vers@[k].date) == members_ver_date(i, ms2, vers@[k].vid) by {
            let v = vers@[k].vid;
            assert(members_ver_hosts(i, ms2, v) == members_ver_hosts(i, ms, v).union(version_hosts(i, s, v, full(i))));
            if !vid_among(inc0, inc0.len() as int, v) {
                lemma_version_fresh(i, s, v, full(i));
                assert(members_ver_hosts(i, ms, v).union(version_hosts(i, s, v, full(i))) =~= members_ver_hosts(i, ms, v));
            }
        }
        assert(group_versions_ok(i, ms2, vers@));
    }
}

spec fn key_among(inc: Seq<(u64, Option<String>)>, j: int, h: u64) -> bool {
    exists|t: int| 0 <= t < j && #[trigger] inc[t].0 == h && inc[t].1 is Some
}

/// A group's per-computer table while member `s`'s table is being merged in.
spec fn table_merging(
    i: AggInput,
    ms: Seq<u64>,
    s: u64,
    by_install: bool,
    inc: Seq<(u64, Option<String>)>,
    j: int,
    t: Seq<(u64, Option<String>)>,
) -> bool {
    &&& table_keys_distinct(t)
    &&& forall|h: u64| #[trigger] table_has(t, h) <==> members_table_has(i, ms, h, by_install) || key_among(inc, j, h)
    &&& forall|k: int|
        0 <= k < t.len() ==> opt_view(#[trigger] t[k].1) == if key_among(inc, j, t[k].0) {
            best_step(members_table_val(i, ms, t[k].0, by_install), host_best(i, s, t[k].0, full(i), by_install).unwrap())
        } else {
            members_table_val(i, ms, t[k].0, by_install)
        }
}

#[verifier::rlimit(80)]
fn merge_table_into(
    t: &mut Vec<(u64, Option<String>)>,
    inc: &Vec<(u64, Option<String>)>,
    Ghost(i): Ghost<AggInput>,
    Ghost(ms): Ghost<Seq<u64>>,
    Ghost(s): Ghost<u64>,
    Ghost(by_install): Ghost<bool>,
)
    requires
        ms.len() > 0,
        group_table_ok(i, ms, by_install, old(t)@),
        best_table_ok(i, s, full(i), by_install, inc@),
    ensures
        group_table_ok(i, ms.push(s), by_install, final(t)@),
{
    let mut j: usize = 0;
    proof {
        assert forall|k: int| 0 <= k < t@.len() implies opt_view(#[trigger] t@[k].1) == if key_among(inc@, 0, t@[k].0) {
            best_step(members_table_val(i, ms, t@[k].0, by_install), host_best(i, s, t@[k].0, full(i), by_install).unwrap())
        } else {
            members_table_val(i, ms, t@[k].0, by_install)
        } by {}
    }
    while j < inc.len()
        invariant
            j <= inc@.len(),
            ms.len() > 0,
            best_table_ok(i, s, full(i), by_install, inc@),
            table_merging(i, ms, s, by_install, inc@, j as int, t@),
        decreases inc.len() - j,
    {
        let h = inc[j].0;
        let ghost t0 = t@;
        proof {
            assert forall|x: u64| #[trigger] key_among(inc@, j + 1, x) <==> key_among(inc@, j as int, x) || (x == h
                && inc@[j as int].1 is Some) by {
                if key_among(inc@, j + 1, x) {
                    let u = choose|u: int| 0 <= u < j + 1 && #[trigger] inc@[u].0 == x && inc@[u].1 is Some;
                    if u < j {
                        assert(key_among(inc@, j as int, x));
                    }
                }
                if key_among(inc@, j as int, x) {
                    let u = choose|u: int| 0 <= u < j && #[trigger] inc@[u].0 == x && inc@[u].1 is Some;
                    assert(key_among(inc@, j + 1, x));
                }
                if x == h && inc@[j as int].1 is Some {
                    assert(inc@[j as int].0 == x);
                }
            }
            assert(!key_among(inc@, j as int, h)) by {
                if key_among(inc@, j as int, h) {
                    let u = choose|u: int| 0 <= u < j && #[trigger] inc@[u].0 == h && inc@[u].1 is Some;
                    assert(inc@[u].0 != inc@[j as int].0);
                }
            }
            assert(opt_view(inc@[j as int].1) == host_best(i, s, h, full(i), by_install));
        }
        match &inc[j].1 {
            Some(d) => {
                let k = bump_best(t, h, d.as_str());
                proof {
                    if k == t0.len() {
                        lemma_members_table_none(i, ms, h, by_install);
                    }
                    assert forall|a: int, b: int| 0 <= a < b < t@.len() implies #[trigger] t@[a].0 != #[trigger] t@[b].0 by {
                        if a != k && b != k {
                            assert(t@[a] == t0[a] && t@[b] == t0[b]);
                        } else if a == k {
                            assert(t@[b] == t0[b]);
                            if k < t0.len() {
                                assert(t0[a].0 != t0[b].0);
                            }
                        } else {
                            assert(t@[a] == t0[a]);
                            if k < t0.len() {
                                assert(t0[a].0 != t0[b].0);
                            } else {
                                assert(!(0 <= a < t0.len() && t0[a].0 == h));
                            }
                        }
                    }
                    assert forall|x: u64| #[trigger] table_has(t@, x) <==> members_table_has(i, ms, x, by_install)
                        || key_among(inc@, j + 1, x) by {
                        if table_has(t@, x) {
                            let u = choose|u: int| 0 <= u < t@.len() && #[trigger] t@[u].0 == x;
                            if u != k {
                                assert(t@[u] == t0[u]);
                            }
                        }
                        if table_has(t0, x) {
                            let u = choose|u: int| 0 <= u < t0.len() && #[trigger] t0[u].0 == x;
                            if u != k {
                                assert(t@[u] == t0[u]);
                            } else {
                                assert(t@[k as int].0 == x);
                            }
                        }
                        if x == h {
                            assert(t@[k as int].0 == x);
                        }
                    }
                    assert forall|u: int| 0 <= u < t@.len() implies opt_view(#[trigger] t@[u].1) == if key_among(
                        inc@,
                        j + 1,
                        t@[u].0,
                    ) {
                        best_step(members_table_val(i, ms, t@[u].0, by_install), host_best(i, s, t@[u].0, full(i), by_install).unwrap())
                    } else {
                        members_table_val(i, ms, t@[u].0, by_install)
                    } by {
                        if u != k {
                            assert(t@[u] == t0[u]);
                            if k < t0.len() {
                                assert(t0[u].0 != t0[k as int].0);
                            } else {
                                assert(!(0 <= u < t0.len() && t0[u].0 == h));
                            }
                        }
                    }
                }
            },
            None => {
                proof {
                    assert forall|x: u64| #[trigger] table_has(t@, x) <==> members_table_has(i, ms, x, by_install)
                        || key_among(inc@, j + 1, x) by {}
                    assert forall|u: int| 0 <= u < t@.len() implies opt_view(#[trigger] t@[u].1) == if key_among(
                        inc@,
                        j + 1,
                        t@[u].0,
                    ) {
                        best_step(members_table_val(i, ms, t@[u].0, by_install), host_best(i, s, t@[u].0, full(i), by_install).unwrap())
                    } else {
                        members_table_val(i, ms, t@[u].0, by_install)
                    } by {}
                }
            },
        }
        j = j + 1;
    }
    proof {
        let ms2 = ms.push(s);
        assert(ms2.drop_last() =~= ms);
        assert forall|x: u64| #[trigger] key_among(inc@, inc@.len() as int, x) <==> (dated_hosts(i, s, full(i), by_install).contains(x)
            && host_best(i, s, x, full(i), by_install) is Some) by {
            if key_among(inc@, inc@.len() as int, x) {
                let u = choose|u: int| 0 <= u < inc@.len() && #[trigger] inc@[u].0 == x && inc@[u].1 is Some;
                assert(opt_view(inc@[u].1) == host_best(i, s, x, full(i), by_install));
                assert(table_has(inc@, x));
            }
            if dated_hosts(i, s, full(i), by_install).contains(x) && host_best(i, s, x, full(i), by_install) is Some {
                assert(table_has(inc@, x));
                let u = choose|u: int| 0 <= u < inc@.len() && #[trigger] inc@[u].0 == x;
                assert(opt_view(inc@[u].1) == host_best(i, s, x, full(i), by_install));
            }
        }
        assert forall|x: u64| #[trigger] members_table_has(i, ms2, x, by_install) <==> table_has(t@, x) by {}
        assert forall|k: int| 0 <= k < t@.len() implies opt_view(#[trigger] t@[k].1) == members_table_val(i, ms2, t@[k].0, by_install) by {
            let x = t@[k].0;
            if !key_among(inc@, inc@.len() as int, x) {
                if host_best(i, s, x, full(i), by_install) is Some {
                    assert(!dated_hosts(i, s, full(i), by_install).contains(x));
                    lemma_best_none(i, s, x, full(i), by_install);
                }
            }
        }
    }
}

/// The publisher shown for a manufacturer field.
pub fn publisher_label_text(m: &str) -> (r: String)
    ensures
        r@ == publisher_label(m@),
{
    proof {
        reveal_strlit("0");
        assert("0"@ =~= seq!['0']);
    }
    if m.is_empty() || str_eq(m, "0") || str_eq(m, "&nbsp;") {
        "Unknown".to_owned()
    } else {
        m.to_owned()
    }
}

/// A group made of one software id.
fn new_group(a: SoftwareAcc, row: &GlpiSoftware, Ghost(i): Ghost<AggInput>) -> (g: GroupAcc)
    requires
        acc_ok(i, full(i), a),
        *row == software_of(i, a.sw),
    ensures
        group_ok(i, seq![a.sw], g),
{
    let publisher = publisher_label_text(row.manufacturers_id.as_str());
    let key_name = normalize_for_grouping(row.name.as_str());
    let key_publisher = normalize_for_grouping(publisher.as_str());
    let g = GroupAcc {
        key_name,
        key_publisher,
        software_id: a.sw,
        name: row.name.clone(),
        publisher,
        hosts: a.hosts,
        versions: a.versions,
        install_date: a.install_date,
        any_date: a.any_date,
        mod_date: a.mod_date,
        host_inventory: a.host_inventory,
        install_best: a.install_best,
        mod_best: a.mod_best,
    };
    proof {
        let s = a.sw;
        let ms = seq![s];
        assert(ms.drop_last() =~= Seq::<u64>::empty());
        assert(ms.last() == s);
        assert(members_hosts(i, Seq::<u64>::empty()) == Set::<u64>::empty());
        assert(members_vids(i, Seq::<u64>::empty()) == Set::<u64>::empty());
        assert(members_hosts(i, ms) =~= sw_hosts(i, s, full(i)));
        assert(members_vids(i, ms) =~= sw_versions(i, s, full(i)));
        assert forall|k: int|
            0 <= k < g.versions@.len() implies lists_ids(#[trigger] g.versions@[k].hosts@, members_ver_hosts(i, ms, g.versions@[k].vid))
                && opt_view(g.versions@[k].date) == members_ver_date(i, ms, g.versions@[k].vid) by {
            let v = g.versions@[k].vid;
            assert(g.versions@[k] == a.versions@[k]);
            assert(lists_ids(a.versions@[k].hosts@, version_hosts(i, s, v, full(i))));
            assert(opt_view(a.versions@[k].date) == version_date(i, s, v, full(i)));
            assert(members_ver_hosts(i, Seq::<u64>::empty(), v) == Set::<u64>::empty());
            assert(members_ver_date(i, Seq::<u64>::empty(), v) is None);
            assert(members_ver_hosts(i, ms, v) =~= version_hosts(i, s, v, full(i)));
            assert(sw_versions(i, s, full(i)).contains(v));
        }
        assert(group_versions_ok(i, ms, g.versions@));
        assert(members_date(i, Seq::<u64>::empty(), 0) is None);
        assert(members_date(i, Seq::<u64>::empty(), 1) is None);
        assert(members_date(i, Seq::<u64>::empty(), 2) is None);
        assert(members_date(i, Seq::<u64>::empty(), 3) is None);
        assert(opt_view(g.install_date) == members_date(i, ms, 0));
        assert(opt_view(g.any_date) == members_date(i, ms, 1));
        assert(opt_view(g.mod_date) == members_date(i, ms, 2));
        assert(opt_view(g.host_inventory) == members_date(i, ms, 3));
        assert(members_min(ms) == s);
        assert(group_table_ok(i, ms, true, g.install_best@));
        assert(group_table_ok(i, ms, false, g.mod_best@));
    }
    g
}

/// Merges the summary of one more software id into a group.
#[verifier::rlimit(40)]
fn merge_into(g: &mut GroupAcc, a: SoftwareAcc, Ghost(i): Ghost<AggInput>, Ghost(ms): Ghost<Seq<u64>>)
    requires
        group_ok(i, ms, *old(g)),
        acc_ok(i, full(i), a),
    ensures
        group_ok(i, ms.push(a.sw), *final(g)),
        final(g).key_name@ == old(g).key_name@,
        final(g).key_publisher@ == old(g).key_publisher@,
{
    let ghost s = a.sw;
    let ghost ms2 = ms.push(s);
    proof {
        assert(ms2.drop_last() =~= ms);
        assert(ms2[0] == ms[0]);
    }
    if a.sw < g.software_id {
        g.software_id = a.sw;
    }
    union_ids(&mut g.hosts, &a.hosts);
    merge_newer_into(&mut g.install_date, &a.install_date);
    merge_newer_into(&mut g.any_date, &a.any_date);
    merge_newer_into(&mut g.mod_date, &a.mod_date);
    merge_newer_into(&mut g.host_inventory, &a.host_inventory);
    merge_table_into(&mut g.install_best, &a.install_best, Ghost(i), Ghost(ms), Ghost(s), Ghost(true));
    merge_table_into(&mut g.mod_best, &a.mod_best, Ghost(i), Ghost(ms), Ghost(s), Ghost(false));
    merge_versions_into(&mut g.versions, a.versions, Ghost(i), Ghost(ms), Ghost(s));
    proof {
        assert forall|x: u64| #[trigger] members_hosts(i, ms2).contains(x) <==> g.hosts@.contains(x) by {
            assert(members_hosts(i, ms).contains(x) <==> old(g).hosts@.contains(x));
            assert(sw_hosts(i, s, full(i)).contains(x) <==> a.hosts@.contains(x));
        }
    }
}

pub(crate) proof fn lemma_row_bound(sl: Seq<GlpiSoftware>, id: u64, n: int)
    ensures
        match software_row_upto(sl, id, n) {
            Some(r) => 0 <= r < n && sl[r].id == id,
            None => true,
        },
    decreases n,
{
    if n > 0 {
        lemma_row_bound(sl, id, n - 1);
    }
}

proof fn lemma_keys_distinct(i: AggInput, m: int)
    requires
        0 <= m,
    ensures
        forall|a: int, b: int| 0 <= a < b < group_keys(i, m).len() ==> #[trigger] group_keys(i, m)[a] != #[trigger] group_keys(i, m)[b],
    decreases m,
{
    if m > 0 {
        lemma_keys_distinct(i, m - 1);
        let prev = group_keys(i, m - 1);
        let k = group_key(i, software_order(i, full(i))[m - 1]);
        if !prev.contains(k) {
            let ks = prev.push(k);
            assert forall|a: int, b: int| 0 <= a < b < ks.len() implies #[trigger] ks[a] != #[trigger] ks[b] by {
                if b == prev.len() {
                    assert(ks[a] == prev[a]);
                } else {
                    assert(ks[a] == prev[a] && ks[b] == prev[b]);
                }
            }
        }
    }
}

proof fn lemma_members_empty(i: AggInput, k: (Seq<char>, Seq<char>), m: int)
    requires
        0 <= m,
        !group_keys(i, m).contains(k),
    ensures
        group_members(i, k, m) == Seq::<u64>::empty(),
    decreases m,
{
    if m > 0 {
        let prev = group_keys(i, m - 1);
        let k2 = group_key(i, software_order(i, full(i))[m - 1]);
        if prev.contains(k) {
            let t = choose|t: int| 0 <= t < prev.len() && prev[t] == k;
            if !prev.contains(k2) {
                assert(prev.push(k2)[t] == k);
            }
        }
        if k2 == k {
            if !prev.contains(k2) {
                assert(prev.push(k2)[prev.len() as int] == k);
            }
        }
        lemma_members_empty(i, k, m - 1);
    }
}

proof fn lemma_order_rows(i: AggInput, n: int)
    requires
        0 <= n,
    ensures
        forall|k: int|
            0 <= k < software_order(i, n).len() ==> software_row_upto(
                i.software,
                #[trigger] software_order(i, n)[k],
                i.software.len() as int,
            ) is Some,
    decreases n,
{
    if n > 0 {
        lemma_order_rows(i, n - 1);
        let prev = software_order(i, n - 1);
        match installed_software(i, i.installs[n - 1]) {
            Some(s) => if !prev.contains(s) {
                assert forall|k: int| 0 <= k < prev.push(s).len() implies software_row_upto(
                    i.software,
                    #[trigger] prev.push(s)[k],
                    i.software.len() as int,
                ) is Some by {
                    if k < prev.len() {
                        assert(prev.push(s)[k] == prev[k]);
                    }
                }
            },
            None => {},
        }
    }
}

fn find_group(groups: &Vec<GroupAcc>, key_name: &str, key_publisher: &str) -> (r: Option<usize>)
    ensures
        match r {
            Some(g) => g < groups@.len() && groups@[g as int].key_name@ == key_name@
                && groups@[g as int].key_publisher@ == key_publisher@,
            None => forall|g: int|
                0 <= g < groups@.len() ==> (#[trigger] groups@[g].key_name@, groups@[g].key_publisher@) != (
                    key_name@,
                    key_publisher@,
                ),
        },
{
    let mut g: usize = 0;
    while g < groups.len()
        invariant
            g <= groups@.len(),
            forall|h: int|
                0 <= h < g ==> (#[trigger] groups@[h].key_name@, groups@[h].key_publisher@) != (
                    key_name@,
                    key_publisher@,
                ),
        decreases groups.len() - g,
    {
        if str_eq(groups[g].key_name.as_str(), key_name) && str_eq(groups[g].key_publisher.as_str(), key_publisher) {
            return Some(g);
        }
        g = g + 1;
    }
    None
}


spec fn groups_ok(i: AggInput, m: int, groups: Seq<GroupAcc>) -> bool {
    &&& groups.len() == group_keys(i, m).len()
    &&& forall|g: int|
        0 <= g < groups.len() ==> (#[trigger] groups[g].key_name@, groups[g].key_publisher@) == group_keys(i, m)[g]
            && group_ok(i, group_members(i, group_keys(i, m)[g], m), groups[g])
}

proof fn lemma_groups_merge(i: AggInput, m: int, before: Seq<GroupAcc>, g: int, merged: GroupAcc)
    requires
        0 <= m < software_order(i, full(i)).len(),
        groups_ok(i, m, before),
        0 <= g < before.len(),
        group_keys(i, m)[g] == group_key(i, software_order(i, full(i))[m]),
        (merged.key_name@, merged.key_publisher@) == group_keys(i, m)[g],
        group_ok(i, group_members(i, group_keys(i, m)[g], m).push(software_order(i, full(i))[m]), merged),
    ensures
        groups_ok(i, m + 1, before.update(g, merged)),
{
    let keys = group_keys(i, m);
    let key = keys[g];
    lemma_keys_distinct(i, m);
    assert(keys.contains(key));
    assert(group_keys(i, m + 1) == keys);
    let after = before.update(g, merged);
    assert forall|h: int| 0 <= h < after.len() implies (#[trigger] after[h].key_name@, after[h].key_publisher@)
        == group_keys(i, m + 1)[h] && group_ok(i, group_members(i, group_keys(i, m + 1)[h], m + 1), after[h]) by {
        if h != g {
            assert(after[h] == before[h]);
            assert(keys[h] != keys[g]);
            assert(group_members(i, keys[h], m + 1) == group_members(i, keys[h], m));
        } else {
            assert(group_members(i, key, m + 1) == group_members(i, key, m).push(software_order(i, full(i))[m]));
        }
    }
}

proof fn lemma_groups_new(i: AggInput, m: int, before: Seq<GroupAcc>, grp: GroupAcc)
    requires
        0 <= m < software_order(i, full(i)).len(),
        groups_ok(i, m, before),
        (grp.key_name@, grp.key_publisher@) == group_key(i, software_order(i, full(i))[m]),
        !group_keys(i, m).contains(group_key(i, software_order(i, full(i))[m])),
        group_ok(i, seq![software_order(i, full(i))[m]], grp),
    ensures
        groups_ok(i, m + 1, before.push(grp)),
{
    let keys = group_keys(i, m);
    let s = software_order(i, full(i))[m];
    let key = group_key(i, s);
    lemma_members_empty(i, key, m);
    assert(group_members(i, key, m + 1) =~= seq![s]);
    assert(group_keys(i, m + 1) == keys.push(key));
    let after = before.push(grp);
    assert forall|h: int| 0 <= h < after.len() implies (#[trigger] after[h].key_name@, after[h].key_publisher@)
        == group_keys(i, m + 1)[h] && group_ok(i, group_members(i, group_keys(i, m + 1)[h], m + 1), after[h]) by {
        if h < before.len() {
            assert(after[h] == before[h]);
            assert(keys[h] != key);
            assert(group_members(i, keys[h], m + 1) == group_members(i, keys[h], m));
        }
    }
}

/// The per-id summaries merged by key, groups in order of their first member.
#[verifier::rlimit(100)]
fn merge_groups(accs: Vec<SoftwareAcc>, sl: &[GlpiSoftware], Ghost(i): Ghost<AggInput>) -> (groups: Vec<GroupAcc>)
    requires
        i.software == sl@,
        accs@.len() == software_order(i, full(i)).len(),
        forall|g: int| 0 <= g < accs@.len() ==> #[trigger] accs@[g].sw == software_order(i, full(i))[g] && acc_ok(
            i,
            full(i),
            accs@[g],
        ),
    ensures
        groups_ok(i, software_order(i, full(i)).len() as int, groups@),
{
    let ghost order = software_order(i, full(i));
    let ghost accs0 = accs@;
    let rows = software_table(sl);
    proof {
        lemma_order_rows(i, full(i));
    }
    let mut rest = accs;
    let count = rest.len();
    let mut groups: Vec<GroupAcc> = Vec::new();
    let mut m: usize = 0;
    while m < count
        invariant
            i.software == sl@,
            count == accs0.len() == order.len(),
            order == software_order(i, full(i)),
            m <= count,
            rest@ == accs0.skip(m as int),
            forall|g: int| 0 <= g < accs0.len() ==> #[trigger] accs0[g].sw == order[g] && acc_ok(i, full(i), accs0[g]),
            forall|k: int|
                0 <= k < order.len() ==> software_row_upto(i.software, #[trigger] order[k], i.software.len() as int) is Some,
            forall|id: u64|
                match software_row_upto(sl@, id, sl@.len() as int) {
                    Some(r) => #[trigger] rows@.contains_key(id) && rows@[id] == r,
                    None => !rows@.contains_key(id),
                },
            groups_ok(i, m as int, groups@),
        decreases count - m,
    {
        let a = rest.remove(0);
        proof {
            assert(accs0.skip(m as int)[0] == accs0[m as int]);
            assert(rest@ =~= accs0.skip(m + 1));
            lemma_keys_distinct(i, m as int);
        }
        let ghost s = a.sw;
        let ghost key = group_key(i, s);
        let ghost keys = group_keys(i, m as int);
        proof {
            lemma_row_bound(sl@, s, sl@.len() as int);
        }
        let r = match rows.get(&a.sw) {
            Some(r) => *r,
            None => {
                proof {
                    assert(software_row_upto(i.software, order[m as int], i.software.len() as int) is Some);
                }
                0
            },
        };
        let row = &sl[r];
        let publisher = publisher_label_text(row.manufacturers_id.as_str());
        let key_name = normalize_for_grouping(row.name.as_str());
        let key_publisher = normalize_for_grouping(publisher.as_str());
        assert((key_name@, key_publisher@) == key);
        match find_group(&groups, key_name.as_str(), key_publisher.as_str()) {
            Some(g) => {
                let ghost before = groups@;
                let ghost ms = group_members(i, key, m as int);
                let mut grp = groups.remove(g);
                proof {
                    assert(grp == before[g as int]);
                    assert(keys[g as int] == key);
                }
                merge_into(&mut grp, a, Ghost(i), Ghost(ms));
                let ghost merged = grp;
                groups.insert(g, grp);
                proof {
                    assert(groups@ =~= before.update(g as int, merged));
                    lemma_groups_merge(i, m as int, before, g as int, merged);
                }
            },
            None => {
                let ghost before = groups@;
                proof {
                    assert(!keys.contains(key)) by {
                        if keys.contains(key) {
                            let t = choose|t: int| 0 <= t < keys.len() && keys[t] == key;
                            assert((before[t].key_name@, before[t].key_publisher@) == keys[t]);
                        }
                    }
                }
                let grp = new_group(a, row, Ghost(i));
                proof {
                    lemma_groups_new(i, m as int, before, grp);
                }
                groups.push(grp);
            },
        }
        m = m + 1;
    }
    groups
}

// ---------------------------------------------------------------------------
// Turning a group into its row
// ---------------------------------------------------------------------------
/// The name of version `v`: from its last version row, else "Unknown".
pub open spec fn version_label(i: AggInput, v: u64) -> Seq<char> {
    match version_row_upto(i.versions, v, i.versions.len() as int) {
        Some(r) => i.versions[r].name@,
        None => "Unknown"@,
    }
}

/// `parse_date(a) <= parse_date(b)`, where an unparsable date ranks lowest.
pub open spec fn date_rank_le(a: Seq<char>, b: Seq<char>) -> bool {
    match (parsed_date(a), parsed_date(b)) {
        (None, _) => true,
        (Some(_), None) => false,
        (Some(x), Some(y)) => x.days <= y.days,
    }
}

/// Versions are listed by host count (largest first), then by name.
pub open spec fn version_before(a: VersionDetail, b: VersionDetail) -> bool {
    a.host_count > b.host_count || (a.host_count == b.host_count && text_lt(a.version_name@, b.version_name@))
}

pub open spec fn version_detail_ok(i: AggInput, ms: Seq<u64>, vd: VersionDetail) -> bool {
    &&& vd.host_ids@ == members_ver_hosts(i, ms, vd.version_id)
    &&& vd.host_count == vd.host_ids@.len()
    &&& vd.version_name@ == version_label(i, vd.version_id)
    &&& opt_view(vd.last_install_date) == members_ver_date(i, ms, vd.version_id)
}

/// The version list of a group: one entry per version id, ordered by
/// `version_before`.
pub open spec fn versions_listed(i: AggInput, ms: Seq<u64>, vds: Seq<VersionDetail>) -> bool {
    &&& forall|a: int, b: int| 0 <= a < b < vds.len() ==> #[trigger] vds[a].version_id != #[trigger] vds[b].version_id
    &&& forall|v: u64| #[trigger] members_vids(i, ms).contains(v) <==> exists|k: int|
        0 <= k < vds.len() && #[trigger] vds[k].version_id == v
    &&& forall|k: int| 0 <= k < vds.len() ==> version_detail_ok(i, ms, #[trigger] vds[k])
    &&& forall|a: int, b: int| 0 <= a < b < vds.len() ==> !version_before(#[trigger] vds[b], #[trigger] vds[a])
}

pub open spec fn dated(vd: VersionDetail) -> bool {
    vd.last_install_date is Some
}

pub open spec fn date_text(vd: VersionDetail) -> Seq<char> {
    vd.last_install_date.unwrap()@
}

/// `latest_version`: the last of the versions with the greatest parsed install
/// date; with no dated version, the first version's name, or "" with none.
pub open spec fn latest_version_ok(vds: Seq<VersionDetail>, lv: Seq<char>) -> bool {
    if exists|k: int| 0 <= k < vds.len() && dated(#[trigger] vds[k]) {
        exists|w: int|
            #![trigger vds[w]]
            0 <= w < vds.len() && dated(vds[w]) && lv == vds[w].version_name@ && forall|k: int|
                0 <= k < vds.len() && dated(#[trigger] vds[k]) ==> date_rank_le(date_text(vds[k]), date_text(vds[w])) && (k
                    > w ==> !date_rank_le(date_text(vds[w]), date_text(vds[k])))
    } else {
        lv == if vds.len() > 0 {
            vds[0].version_name@
        } else {
            Seq::<char>::empty()
        }
    }
}

pub open spec fn map_date(m: Map<u64, Option<String>>, h: u64) -> Option<Seq<char>> {
    if m.contains_key(h) {
        opt_view(m[h])
    } else {
        None
    }
}

/// A computer's install evidence: its newest install date, else its newest
/// modification date.
pub open spec fn evidence(e: AggregatedSoftware, h: u64) -> Option<Seq<char>> {
    let a = map_date(e.host_install_best_per_host@, h);
    if a is Some {
        a
    } else {
        map_date(e.host_mod_best_per_host@, h)
    }
}

/// `all_hosts_install_floor`: none when a computer lacks install evidence (or there
/// is no computer), else one computer's evidence; the earliest by calendar date
/// when every computer's evidence parses as a date.
pub open spec fn floor_ok(e: AggregatedSoftware) -> bool {
    &&& (e.all_hosts_install_floor is None) <==> (e.host_ids@.len() == 0 || exists|h: u64|
        #[trigger] e.host_ids@.contains(h) && evidence(e, h) is None)
    &&& match e.all_hosts_install_floor {
        Some(d) => {
            &&& exists|h: u64| #[trigger] e.host_ids@.contains(h) && evidence(e, h) == Some(d@)
            &&& (forall|h: u64| #[trigger] e.host_ids@.contains(h) ==> parsed_date(evidence(e, h).unwrap()) is Some)
                ==> forall|h: u64| #[trigger] e.host_ids@.contains(h) ==> parsed_date(d@).unwrap().days <= parsed_date(
                evidence(e, h).unwrap(),
            ).unwrap().days
        },
        None => true,
    }
}

/// One row of the aggregation, for the software ids `ms` (in order of appearance).
pub open spec fn summary_ok(i: AggInput, ms: Seq<u64>, e: AggregatedSoftware) -> bool {
    &&& ms.len() > 0
    &&& e.software_id == members_min(ms)
    &&& e.name@ == software_of(i, ms[0]).name@
    &&& e.publisher@ == publisher_label(software_of(i, ms[0]).manufacturers_id@)
    &&& e.name_lower@ == to_lower(e.name@)
    &&& e.publisher_lower@ == to_lower(e.publisher@)
    &&& e.host_ids@ == members_hosts(i, ms)
    &&& e.total_host_count == e.host_ids@.len()
    &&& opt_view(e.last_install_date) == members_date(i, ms, 0)
    &&& opt_view(e.last_updated) == members_date(i, ms, 1)
    &&& opt_view(e.last_agent_pull) == members_date(i, ms, 2)
    &&& opt_view(e.last_host_inventory) == members_date(i, ms, 3)
    &&& forall|h: u64| #[trigger] e.host_install_best_per_host@.contains_key(h) == members_table_has(i, ms, h, true)
    &&& forall|h: u64| #[trigger] e.host_mod_best_per_host@.contains_key(h) == members_table_has(i, ms, h, false)
    &&& forall|h: u64| #[trigger] map_date(e.host_install_best_per_host@, h) == members_table_val(i, ms, h, true)
    &&& forall|h: u64| #[trigger] map_date(e.host_mod_best_per_host@, h) == members_table_val(i, ms, h, false)
    &&& versions_listed(i, ms, e.versions@)
    &&& latest_version_ok(e.versions@, e.latest_version@)
    &&& floor_ok(e)
}

/// The key a row is grouped under.
pub open spec fn row_key(e: AggregatedSoftware) -> (Seq<char>, Seq<char>) {
    (grouping_key(e.name@), grouping_key(e.publisher@))
}

/// What `aggregate` returns: one row per key of the counted software, each row
/// summarizing the software ids with that key; rows by host count, largest first.
pub open spec fn aggregate_ok(i: AggInput, r: Seq<AggregatedSoftware>) -> bool {
    let m = software_order(i, full(i)).len() as int;
    let keys = group_keys(i, m);
    &&& r.len() == keys.len()
    &&& forall|a: int, b: int| 0 <= a < b < r.len() ==> row_key(#[trigger] r[a]) != row_key(#[trigger] r[b])
    &&& forall|k: int|
        0 <= k < r.len() ==> keys.contains(row_key(#[trigger] r[k])) && summary_ok(
            i,
            group_members(i, row_key(r[k]), m),
            r[k],
        )
    &&& forall|a: int, b: int| 0 <= a < b < r.len() ==> #[trigger] r[a].total_host_count >= #[trigger] r[b].total_host_count
}

proof fn lemma_host_best_trimmed(i: AggInput, s: u64, h: u64, n: int, by_install: bool)
    ensures
        match host_best(i, s, h, n, by_install) {
            Some(v) => trim(v) == v && v.len() > 0,
            None => true,
        },
    decreases n,
{
    if n > 0 {
        lemma_host_best_trimmed(i, s, h, n - 1, by_install);
        let x = i.installs[n - 1];
        let d = if by_install {
            x.date_install
        } else {
            x.date_mod
        };
        match d {
            Some(t) => lemma_trim_idempotent(t@),
            None => {},
        }
    }
}

proof fn lemma_members_val_trimmed(i: AggInput, ms: Seq<u64>, h: u64, by_install: bool)
    ensures
        match members_table_val(i, ms, h, by_install) {
            Some(v) => trim(v) == v && v.len() > 0,
            None => true,
        },
    decreases ms.len(),
{
    if ms.len() == 1 {
        lemma_host_best_trimmed(i, ms[0], h, full(i), by_install);
    } else if ms.len() > 1 {
        lemma_members_val_trimmed(i, ms.drop_last(), h, by_install);
        lemma_host_best_trimmed(i, ms.last(), h, full(i), by_install);
        match host_best(i, ms.last(), h, full(i), by_install) {
            Some(inc) => lemma_trim_idempotent(inc),
            None => {},
        }
    }
}

fn id_set(v: &Vec<u64>) -> (r: HashSet<u64>)
    ensures
        forall|x: u64| #[trigger] r@.contains(x) <==> v@.contains(x),
{
    let mut r: HashSet<u64> = HashSet::new();
    let mut k: usize = 0;
    while k < v.len()
        invariant
            k <= v@.len(),
            forall|x: u64| #[trigger] r@.contains(x) <==> v@.take(k as int).contains(x),
        decreases v.len() - k,
    {
        let ghost t0 = v@.take(k as int);
        r.insert(v[k]);
        proof {
            let t1 = v@.take(k + 1);
            assert(t1 =~= t0.push(v@[k as int]));
            assert forall|x: u64| #[trigger] r@.contains(x) <==> t1.contains(x) by {
                if t1.contains(x) {
                    let j = choose|j: int| 0 <= j < t1.len() && #[trigger] t1[j] == x;
                    if j < k {
                        assert(t0[j] == x);
                    }
                }
                if t0.contains(x) {
                    let j = choose|j: int| 0 <= j < t0.len() && #[trigger] t0[j] == x;
                    assert(t1[j] == x);
                }
                if x == v@[k as int] {
                    assert(t1[k as int] == x);
                }
            }
        }
        k = k + 1;
    }
    assert(v@.take(v@.len() as int) =~= v@);
    r
}

fn date_map(t: Vec<(u64, Option<String>)>) -> (r: HashMap<u64, Option<String>>)
    requires
        table_keys_distinct(t@),
    ensures
        forall|h: u64| #[trigger] r@.contains_key(h) <==> table_has(t@, h),
        forall|k: int| 0 <= k < t@.len() ==> r@[#[trigger] t@[k].0] == t@[k].1,
{
    let ghost t0 = t@;
    let mut rest = t;
    let count = rest.len();
    let mut r: HashMap<u64, Option<String>> = HashMap::new();
    let mut k: usize = 0;
    while k < count
        invariant
            count == t0.len(),
            k <= count,
            rest@ == t0.skip(k as int),
            table_keys_distinct(t0),
            forall|h: u64| #[trigger] r@.contains_key(h) <==> exists|j: int| 0 <= j < k && #[trigger] t0[j].0 == h,
            forall|j: int| 0 <= j < k ==> r@[#[trigger] t0[j].0] == t0[j].1,
        decreases count - k,
    {
        let (h, d) = rest.remove(0);
        proof {
            assert(t0.skip(k as int)[0] == t0[k as int]);
            assert(rest@ =~= t0.skip(k + 1));
        }
        r.insert(h, d);
        proof {
            assert forall|x: u64| #[trigger] r@.contains_key(x) <==> exists|j: int| 0 <= j < k + 1 && #[trigger] t0[j].0 == x by {
                if x == h {
                    assert(t0[k as int].0 == x);
                }
            }
            assert forall|j: int| 0 <= j < k + 1 implies r@[#[trigger] t0[j].0] == t0[j].1 by {
                if j < k {
                    assert(t0[j].0 != t0[k as int].0);
                }
            }
        }
        k = k + 1;
    }
    r
}

pub open spec fn maps_evidence(m1: Map<u64, Option<String>>, m2: Map<u64, Option<String>>, h: u64) -> Option<Seq<char>> {
    let a = map_date(m1, h);
    if a is Some {
        a
    } else {
        map_date(m2, h)
    }
}

spec fn floor_prefix_ok(
    hosts: Seq<u64>,
    m1: Map<u64, Option<String>>,
    m2: Map<u64, Option<String>>,
    k: int,
    floor: Option<Seq<char>>,
) -> bool {
    &&& forall|t: int| 0 <= t < k ==> maps_evidence(m1, m2, #[trigger] hosts[t]) is Some
    &&& (floor is None) <==> k == 0
    &&& match floor {
        Some(d) => {
            &&& exists|t: int| 0 <= t < k && maps_evidence(m1, m2, #[trigger] hosts[t]) == Some(d)
            &&& (forall|t: int| 0 <= t < k ==> parsed_date(maps_evidence(m1, m2, #[trigger] hosts[t]).unwrap()) is Some)
                ==> forall|t: int| 0 <= t < k ==> parsed_date(d).unwrap().days <= parsed_date(
                maps_evidence(m1, m2, #[trigger] hosts[t]).unwrap(),
            ).unwrap().days
        },
        None => true,
    }
}

/// The earliest install evidence over the computers, or none when one lacks it.
fn hosts_floor(hosts: &Vec<u64>, m1: &HashMap<u64, Option<String>>, m2: &HashMap<u64, Option<String>>) -> (r: Option<String>)
    requires
        forall|h: u64|
            match #[trigger] maps_evidence(m1@, m2@, h) {
                Some(v) => trim(v) == v && v.len() > 0,
                None => true,
            },
    ensures
        (r is None) <==> (hosts@.len() == 0 || exists|t: int|
            0 <= t < hosts@.len() && maps_evidence(m1@, m2@, #[trigger] hosts@[t]) is None),
        r is Some ==> floor_prefix_ok(hosts@, m1@, m2@, hosts@.len() as int, opt_view(r)),
{
    let mut floor: Option<String> = None;
    let mut k: usize = 0;
    while k < hosts.len()
        invariant
            k <= hosts@.len(),
            forall|h: u64|
                match #[trigger] maps_evidence(m1@, m2@, h) {
                    Some(v) => trim(v) == v && v.len() > 0,
                    None => true,
                },
            floor_prefix_ok(hosts@, m1@, m2@, k as int, opt_view(floor)),
        decreases hosts.len() - k,
    {
        let h = hosts[k];
        let ev: Option<&String> = match m1.get(&h) {
            Some(Some(d)) => Some(d),
            _ => match m2.get(&h) {
                Some(Some(d)) => Some(d),
                _ => None,
            },
        };
        assert(match ev {
            Some(d) => maps_evidence(m1@, m2@, h) == Some(d@),
            None => maps_evidence(m1@, m2@, h) is None,
        });
        match ev {
            None => {
                return None;
            },
            Some(d) => {
                let ghost f0 = opt_view(floor);
                merge_date_earliest(&mut floor, d.as_str());
                proof {
                    let c = d@;
                    assert(trim(c) == c && c.len() > 0);
                    let f1 = opt_view(floor);
                    assert(f1 is Some);
                    assert(exists|t: int| 0 <= t < k + 1 && maps_evidence(m1@, m2@, #[trigger] hosts@[t]) == f1) by {
                        if f1 == Some(c) {
                            assert(maps_evidence(m1@, m2@, hosts@[k as int]) == Some(c));
                        } else {
                            assert(f1 == f0);
                            let t = choose|t: int| 0 <= t < k && maps_evidence(m1@, m2@, #[trigger] hosts@[t]) == f0;
                            assert(maps_evidence(m1@, m2@, hosts@[t]) == f1);
                        }
                    }
                    if forall|t: int| 0 <= t < k + 1 ==> parsed_date(maps_evidence(m1@, m2@, #[trigger] hosts@[t]).unwrap()) is Some {
                        assert(parsed_date(c) is Some) by {
                            assert(maps_evidence(m1@, m2@, hosts@[k as int]).unwrap() == c);
                        }
                        if k > 0 {
                            let b = f0.unwrap();
                            let t0 = choose|t: int| 0 <= t < k && maps_evidence(m1@, m2@, #[trigger] hosts@[t]) == f0;
                            assert(parsed_date(maps_evidence(m1@, m2@, hosts@[t0]).unwrap()) is Some);
                            assert(parsed_date(b) is Some);
                            assert(forall|t: int| 0 <= t < k ==> parsed_date(maps_evidence(m1@, m2@, #[trigger] hosts@[t]).unwrap()) is Some);
                        }
                        assert forall|t: int| 0 <= t < k + 1 implies parsed_date(f1.unwrap()).unwrap().days <= parsed_date(
                            maps_evidence(m1@, m2@, #[trigger] hosts@[t]).unwrap(),
                        ).unwrap().days by {
                            assert(parsed_date(maps_evidence(m1@, m2@, hosts@[t]).unwrap()) is Some);
                        }
                    }
                }
            },
        }
        k = k + 1;
    }
    floor
}

fn rank_le(a: &str, b: &str) -> (r: bool)
    ensures
        r == date_rank_le(a@, b@),
{
    match (parse_date(a), parse_date(b)) {
        (None, _) => true,
        (Some(_), None) => false,
        (Some(x), Some(y)) => x.days <= y.days,
    }
}

/// The name of the latest installed version (see `latest_version_ok`).
fn latest_version(vds: &Vec<VersionDetail>) -> (r: String)
    ensures
        latest_version_ok(vds@, r@),
{
    let mut best: Option<usize> = None;
    let mut k: usize = 0;
    while k < vds.len()
        invariant
            k <= vds@.len(),
            match best {
                None => forall|t: int| 0 <= t < k ==> !dated(#[trigger] vds@[t]),
                Some(w) => w < k && dated(vds@[w as int]) && forall|t: int|
                    0 <= t < k && dated(#[trigger] vds@[t]) ==> date_rank_le(date_text(vds@[t]), date_text(vds@[w as int]))
                        && (t > w ==> !date_rank_le(date_text(vds@[w as int]), date_text(vds@[t]))),
            },
        decreases vds.len() - k,
    {
        match &vds[k].last_install_date {
            Some(d) => {
                match best {
                    None => {
                        best = Some(k);
                    },
                    Some(w) => {
                        let cur = vds[w].last_install_date.as_ref().unwrap();
                        if rank_le(cur.as_str(), d.as_str()) {
                            best = Some(k);
                        }
                    },
                }
            },
            None => {},
        }
        k = k + 1;
    }
    match best {
        Some(w) => vds[w].version_name.clone(),
        None => if vds.len() > 0 {
            vds[0].version_name.clone()
        } else {
            String::new()
        },
    }
}

fn version_less(a: &VersionDetail, b: &VersionDetail) -> (r: bool)
    ensures
        r == version_before(*a, *b),
{
    a.host_count > b.host_count || (a.host_count == b.host_count && str_lt(a.version_name.as_str(), b.version_name.as_str()))
}

proof fn lemma_version_before_strict()
    ensures
        crate::sorting::strict_order(|a: VersionDetail, b: VersionDetail| version_before(a, b)),
{
    assert forall|a: VersionDetail, b: VersionDetail, c: VersionDetail| #[trigger] version_before(a, b) && #[trigger] version_before(
        b,
        c,
    ) implies version_before(a, c) by {
        if a.host_count == b.host_count && b.host_count == c.host_count {
            crate::text::lemma_text_lt_transitive(a.version_name@, b.version_name@, c.version_name@);
        }
    }
    assert forall|a: VersionDetail, b: VersionDetail| #[trigger] version_before(a, b) implies !version_before(b, a) by {
        if a.host_count == b.host_count {
            crate::text::lemma_text_lt_asymmetric(a.version_name@, b.version_name@);
        }
    }
}

pub(crate) proof fn lemma_version_row_bound(vs: Seq<GlpiSoftwareVersion>, vid: u64, n: int)
    ensures
        match version_row_upto(vs, vid, n) {
            Some(r) => 0 <= r < n,
            None => true,
        },
    decreases n,
{
    if n > 0 {
        lemma_version_row_bound(vs, vid, n - 1);
    }
}

fn version_name_text(vtable: &HashMap<u64, usize>, vs: &[GlpiSoftwareVersion], vid: u64) -> (r: String)
    requires
        forall|v: u64|
            match version_row_upto(vs@, v, vs@.len() as int) {
                Some(r) => #[trigger] vtable@.contains_key(v) && vtable@[v] == r,
                None => !vtable@.contains_key(v),
            },
    ensures
        r@ == (match version_row_upto(vs@, vid, vs@.len() as int) {
            Some(r) => vs@[r].name@,
            None => "Unknown"@,
        }),
{
    proof {
        lemma_version_row_bound(vs@, vid, vs@.len() as int);
    }
    match vtable.get(&vid) {
        Some(r) => vs[*r].name.clone(),
        None => "Unknown".to_owned(),
    }
}

fn version_details(
    vers: Vec<VersionAcc>,
    vtable: &HashMap<u64, usize>,
    vs: &[GlpiSoftwareVersion],
    Ghost(i): Ghost<AggInput>,
    Ghost(ms): Ghost<Seq<u64>>,
) -> (r: Vec<VersionDetail>)
    requires
        i.versions == vs@,
        group_versions_ok(i, ms, vers@),
        forall|v: u64|
            match version_row_upto(vs@, v, vs@.len() as int) {
                Some(r) => #[trigger] vtable@.contains_key(v) && vtable@[v] == r,
                None => !vtable@.contains_key(v),
            },
    ensures
        r@.len() == vers@.len(),
        forall|k: int| 0 <= k < r@.len() ==> #[trigger] r@[k].version_id == vers@[k].vid && version_detail_ok(i, ms, r@[k]),
{
    let ghost v0 = vers@;
    let mut rest = vers;
    let count = rest.len();
    let mut out: Vec<VersionDetail> = Vec::new();
    let mut k: usize = 0;
    while k < count
        invariant
            i.versions == vs@,
            count == v0.len(),
            k <= count,
            rest@ == v0.skip(k as int),
            out@.len() == k,
            group_versions_ok(i, ms, v0),
            forall|v: u64|
                match version_row_upto(vs@, v, vs@.len() as int) {
                    Some(r) => #[trigger] vtable@.contains_key(v) && vtable@[v] == r,
                    None => !vtable@.contains_key(v),
                },
            forall|t: int| 0 <= t < k ==> #[trigger] out@[t].version_id == v0[t].vid && version_detail_ok(i, ms, out@[t]),
        decreases count - k,
    {
        let va = rest.remove(0);
        proof {
            assert(v0.skip(k as int)[0] == v0[k as int]);
            assert(rest@ =~= v0.skip(k + 1));
            assert(lists_ids(v0[k as int].hosts@, members_ver_hosts(i, ms, v0[k as int].vid)));
        }
        let name = version_name_text(vtable, vs, va.vid);
        let host_ids = id_set(&va.hosts);
        let ghost set = members_ver_hosts(i, ms, va.vid);
        proof {
            crate::history_query::lemma_ids_count(va.hosts@, set);
            assert(host_ids@ =~= set);
        }
        let vd = VersionDetail {
            version_id: va.vid,
            version_name: name,
            host_count: va.hosts.len(),
            last_install_date: va.date,
            host_ids,
        };
        out.push(vd);
        proof {
            assert forall|t: int| 0 <= t < k + 1 implies #[trigger] out@[t].version_id == v0[t].vid && version_detail_ok(
                i,
                ms,
                out@[t],
            ) by {
                if t == k {
                    assert(out@[t] == vd);
                }
            }
        }
        k = k + 1;
    }
    out
}

/// `floor_ok` from what `hosts_floor` states over the host list.
proof fn lemma_floor_ok(e: AggregatedSoftware, hosts: Seq<u64>)
    requires
        forall|x: u64| #[trigger] e.host_ids@.contains(x) <==> hosts.contains(x),
        e.host_ids@.len() == hosts.len(),
        (e.all_hosts_install_floor is None) <==> (hosts.len() == 0 || exists|t: int|
            0 <= t < hosts.len() && maps_evidence(
                e.host_install_best_per_host@,
                e.host_mod_best_per_host@,
                #[trigger] hosts[t],
            ) is None),
        e.all_hosts_install_floor is Some ==> floor_prefix_ok(
            hosts,
            e.host_install_best_per_host@,
            e.host_mod_best_per_host@,
            hosts.len() as int,
            opt_view(e.all_hosts_install_floor),
        ),
    ensures
        floor_ok(e),
{
    let m1 = e.host_install_best_per_host@;
    let m2 = e.host_mod_best_per_host@;
    assert forall|h: u64| #[trigger] evidence(e, h) == maps_evidence(m1, m2, h) by {}
    if exists|t: int| 0 <= t < hosts.len() && maps_evidence(m1, m2, #[trigger] hosts[t]) is None {
        let t = choose|t: int| 0 <= t < hosts.len() && maps_evidence(m1, m2, #[trigger] hosts[t]) is None;
        assert(e.host_ids@.contains(hosts[t]));
        assert(evidence(e, hosts[t]) is None);
    }
    if exists|h: u64| #[trigger] e.host_ids@.contains(h) && evidence(e, h) is None {
        let h = choose|h: u64| #[trigger] e.host_ids@.contains(h) && evidence(e, h) is None;
        assert(hosts.contains(h));
        let t = choose|t: int| 0 <= t < hosts.len() && hosts[t] == h;
        assert(maps_evidence(m1, m2, hosts[t]) is None);
    }
    match e.all_hosts_install_floor {
        Some(d) => {
            let t = choose|t: int| 0 <= t < hosts.len() && maps_evidence(m1, m2, #[trigger] hosts[t]) == Some(d@);
            assert(e.host_ids@.contains(hosts[t]));
            assert(evidence(e, hosts[t]) == Some(d@));
            if forall|h: u64| #[trigger] e.host_ids@.contains(h) ==> parsed_date(evidence(e, h).unwrap()) is Some {
                assert forall|t2: int| 0 <= t2 < hosts.len() implies parsed_date(
                    maps_evidence(m1, m2, #[trigger] hosts[t2]).unwrap(),
                ) is Some by {
                    assert(e.host_ids@.contains(hosts[t2]));
                }
                assert forall|h: u64| #[trigger] e.host_ids@.contains(h) implies parsed_date(d@).unwrap().days <= parsed_date(
                    evidence(e, h).unwrap(),
                ).unwrap().days by {
                    assert(hosts.contains(h));
                    let t2 = choose|t2: int| 0 <= t2 < hosts.len() && hosts[t2] == h;
                    assert(maps_evidence(m1, m2, hosts[t2]) == evidence(e, h));
                }
            }
        },
        None => {},
    }
}

/// Turns a group into its row.
#[verifier::rlimit(80)]
fn finalize_group(
    g: GroupAcc,
    vtable: &HashMap<u64, usize>,
    vs: &[GlpiSoftwareVersion],
    Ghost(i): Ghost<AggInput>,
    Ghost(ms): Ghost<Seq<u64>>,
) -> (e: AggregatedSoftware)
    requires
        group_ok(i, ms, g),
        i.versions == vs@,
        forall|v: u64|
            match version_row_upto(vs@, v, vs@.len() as int) {
                Some(r) => #[trigger] vtable@.contains_key(v) && vtable@[v] == r,
                None => !vtable@.contains_key(v),
            },
    ensures
        summary_ok(i, ms, e),
        row_key(e) == (g.key_name@, g.key_publisher@),
{
    let ghost g0 = g;
    let details = version_details(g.versions, vtable, vs, Ghost(i), Ghost(ms));
    let ghost dv = details@;
    proof {
        lemma_version_before_strict();
    }
    let (sorted, Ghost(p)) = crate::sorting::sort_by_lt(
        details,
        version_less,
        Ghost(|a: VersionDetail, b: VersionDetail| version_before(a, b)),
    );
    proof {
        let sv = sorted@;
        crate::sorting::lemma_rearranged_all(sv, dv, p, |vd: VersionDetail| version_detail_ok(i, ms, vd));
        assert forall|k: int| 0 <= k < sv.len() implies version_detail_ok(i, ms, #[trigger] sv[k]) by {
            assert((|vd: VersionDetail| version_detail_ok(i, ms, vd))(sv[k]));
        }
        assert forall|x: int, y: int| 0 <= x < y < dv.len() implies (|vd: VersionDetail| vd.version_id)(#[trigger] dv[x])
            != (|vd: VersionDetail| vd.version_id)(#[trigger] dv[y]) by {
            assert(g0.versions@[x].vid != g0.versions@[y].vid);
        }
        crate::sorting::lemma_rearranged_distinct(sv, dv, p, |vd: VersionDetail| vd.version_id);
        assert forall|x: int, y: int| 0 <= x < y < sv.len() implies #[trigger] sv[x].version_id != #[trigger] sv[y].version_id by {
            assert((|vd: VersionDetail| vd.version_id)(sv[x]) != (|vd: VersionDetail| vd.version_id)(sv[y]));
        }
        assert forall|v: u64| #[trigger] members_vids(i, ms).contains(v) <==> exists|k: int|
            0 <= k < sv.len() && #[trigger] sv[k].version_id == v by {
            if members_vids(i, ms).contains(v) {
                let k0 = choose|k0: int| 0 <= k0 < g0.versions@.len() && #[trigger] g0.versions@[k0].vid == v;
                assert(dv[k0].version_id == v);
                crate::sorting::lemma_rearranged_onto(sv, dv, p, k0);
                let k1 = choose|k1: int| 0 <= k1 < sv.len() && sv[k1] == dv[k0];
                assert(sv[k1].version_id == v);
            }
            if exists|k: int| 0 <= k < sv.len() && #[trigger] sv[k].version_id == v {
                let k = choose|k: int| 0 <= k < sv.len() && #[trigger] sv[k].version_id == v;
                assert(sv[k] == dv[p[k]]);
                assert(g0.versions@[p[k]].vid == v);
            }
        }
        assert forall|a: int, b: int| 0 <= a < b < sv.len() implies !version_before(#[trigger] sv[b], #[trigger] sv[a]) by {
            assert(!(|x: VersionDetail, y: VersionDetail| version_before(x, y))(sv[b], sv[a]));
        }
        assert(versions_listed(i, ms, sv));
    }
    let latest = latest_version(&sorted);
    let host_ids = id_set(&g.hosts);
    let total = g.hosts.len();
    proof {
        crate::history_query::lemma_ids_count(g0.hosts@, members_hosts(i, ms));
        assert(host_ids@ =~= members_hosts(i, ms));
    }
    let ghost t1 = g.install_best@;
    let ghost t2 = g.mod_best@;
    let m1 = date_map(g.install_best);
    let m2 = date_map(g.mod_best);
    proof {
        assert forall|h: u64| #[trigger] map_date(m1@, h) == members_table_val(i, ms, h, true) by {
            if table_has(t1, h) {
                let k = choose|k: int| 0 <= k < t1.len() && #[trigger] t1[k].0 == h;
                assert(m1@[t1[k].0] == t1[k].1);
            } else {
                lemma_members_table_none(i, ms, h, true);
            }
        }
        assert forall|h: u64| #[trigger] map_date(m2@, h) == members_table_val(i, ms, h, false) by {
            if table_has(t2, h) {
                let k = choose|k: int| 0 <= k < t2.len() && #[trigger] t2[k].0 == h;
                assert(m2@[t2[k].0] == t2[k].1);
            } else {
                lemma_members_table_none(i, ms, h, false);
            }
        }
        assert forall|h: u64|
            match #[trigger] maps_evidence(m1@, m2@, h) {
                Some(v) => trim(v) == v && v.len() > 0,
                None => true,
            } by {
            lemma_members_val_trimmed(i, ms, h, true);
            lemma_members_val_trimmed(i, ms, h, false);
            assert(map_date(m1@, h) == members_table_val(i, ms, h, true));
            assert(map_date(m2@, h) == members_table_val(i, ms, h, false));
        }
    }
    let floor = hosts_floor(&g.hosts, &m1, &m2);
    let name_lower = lowercase(g.name.as_str());
    let publisher_lower = lowercase(g.publisher.as_str());
    let e = AggregatedSoftware {
        software_id: g.software_id,
        name: g.name,
        publisher: g.publisher,
        name_lower,
        publisher_lower,
        total_host_count: total,
        latest_version: latest,
        last_install_date: g.install_date,
        last_updated: g.any_date,
        last_agent_pull: g.mod_date,
        last_host_inventory: g.host_inventory,
        all_hosts_install_floor: floor,
        host_install_best_per_host: m1,
        host_mod_best_per_host: m2,
        versions: sorted,
        host_ids,
    };
    proof {
        assert forall|x: u64| #[trigger] e.host_ids@.contains(x) <==> g0.hosts@.contains(x) by {
            assert(members_hosts(i, ms).contains(x) <==> g0.hosts@.contains(x));
        }
        lemma_floor_ok(e, g0.hosts@);
        assert forall|h: u64| #[trigger] e.host_install_best_per_host@.contains_key(h) == members_table_has(i, ms, h, true) by {
            assert(members_table_has(i, ms, h, true) <==> table_has(t1, h));
        }
        assert forall|h: u64| #[trigger] e.host_mod_best_per_host@.contains_key(h) == members_table_has(i, ms, h, false) by {
            assert(members_table_has(i, ms, h, false) <==> table_has(t2, h));
        }
    }
    e
}

spec fn more_hosts(a: AggregatedSoftware, b: AggregatedSoftware) -> bool {
    a.total_host_count > b.total_host_count
}

fn more_hosts_exec(a: &AggregatedSoftware, b: &AggregatedSoftware) -> (r: bool)
    ensures
        r == more_hosts(*a, *b),
{
    a.total_host_count > b.total_host_count
}

/// One summary row per software product: installations are gathered per software
/// id and the per-id summaries merged by normalized name and publisher; rows come
/// by host count, largest first.
pub fn aggregate(
    software_list: &[GlpiSoftware],
    versions: &[GlpiSoftwareVersion],
    installations: &[GlpiItemSoftwareVersion],
    computers: &[GlpiComputer],
) -> (r: Vec<AggregatedSoftware>)
    ensures
        aggregate_ok(agg_input(software_list@, versions@, installations@, computers@), r@),
{
    let ghost i = agg_input(software_list@, versions@, installations@, computers@);
    let accs = gather_by_software(software_list, versions, installations, computers);
    let groups = merge_groups(accs, software_list, Ghost(i));
    let vtable = version_table(versions);
    let ghost m = software_order(i, full(i)).len() as int;
    let ghost keys = group_keys(i, m);
    let ghost g0 = groups@;
    proof {
        lemma_keys_distinct(i, m);
    }
    let mut rest = groups;
    let count = rest.len();
    let mut rows: Vec<AggregatedSoftware> = Vec::new();
    let mut k: usize = 0;
    while k < count
        invariant
            i == agg_input(software_list@, versions@, installations@, computers@),
            m == software_order(i, full(i)).len() as int,
            keys == group_keys(i, m),
            count == g0.len(),
            groups_ok(i, m, g0),
            k <= count,
            rest@ == g0.skip(k as int),
            rows@.len() == k,
            forall|v: u64|
                match version_row_upto(versions@, v, versions@.len() as int) {
                    Some(r) => #[trigger] vtable@.contains_key(v) && vtable@[v] == r,
                    None => !vtable@.contains_key(v),
                },
            forall|t: int| 0 <= t < k ==> row_key(#[trigger] rows@[t]) == keys[t] && summary_ok(i, group_members(i, keys[t], m), rows@[t]),
        decreases count - k,
    {
        let g = rest.remove(0);
        proof {
            assert(g0.skip(k as int)[0] == g0[k as int]);
            assert(rest@ =~= g0.skip(k + 1));
            assert(g == g0[k as int]);
            assert((g0[k as int].key_name@, g0[k as int].key_publisher@) == keys[k as int]);
            assert(group_ok(i, group_members(i, keys[k as int], m), g));
        }
        let e = finalize_group(g, &vtable, versions, Ghost(i), Ghost(group_members(i, keys[k as int], m)));
        rows.push(e);
        proof {
            assert forall|t: int| 0 <= t < k + 1 implies row_key(#[trigger] rows@[t]) == keys[t] && summary_ok(
                i,
                group_members(i, keys[t], m),
                rows@[t],
            ) by {
                if t == k {
                    assert(rows@[t] == e);
                }
            }
        }
        k = k + 1;
    }
    let ghost rv = rows@;
    let (sorted, Ghost(p)) = crate::sorting::sort_by_lt(
        rows,
        more_hosts_exec,
        Ghost(|a: AggregatedSoftware, b: AggregatedSoftware| more_hosts(a, b)),
    );
    proof {
        let sv = sorted@;
        let ok = |e: AggregatedSoftware| keys.contains(row_key(e)) && summary_ok(i, group_members(i, row_key(e), m), e);
        assert forall|t: int| 0 <= t < rv.len() implies #[trigger] ok(rv[t]) by {
            assert(keys[t] == row_key(rv[t]));
        }
        crate::sorting::lemma_rearranged_all(sv, rv, p, ok);
        assert forall|t: int| 0 <= t < sv.len() implies keys.contains(row_key(#[trigger] sv[t])) && summary_ok(
            i,
            group_members(i, row_key(sv[t]), m),
            sv[t],
        ) by {
            assert(ok(sv[t]));
        }
        assert forall|x: int, y: int| 0 <= x < y < rv.len() implies (|e: AggregatedSoftware| row_key(e))(#[trigger] rv[x])
            != (|e: AggregatedSoftware| row_key(e))(#[trigger] rv[y]) by {
            assert(keys[x] != keys[y]);
        }
        crate::sorting::lemma_rearranged_distinct(sv, rv, p, |e: AggregatedSoftware| row_key(e));
        assert forall|x: int, y: int| 0 <= x < y < sv.len() implies row_key(#[trigger] sv[x]) != row_key(#[trigger] sv[y]) by {
            assert((|e: AggregatedSoftware| row_key(e))(sv[x]) != (|e: AggregatedSoftware| row_key(e))(sv[y]));
        }
        assert forall|x: int, y: int| 0 <= x < y < sv.len() implies #[trigger] sv[x].total_host_count >= #[trigger] sv[y].total_host_count by {
            assert(!(|a: AggregatedSoftware, b: AggregatedSoftware| more_hosts(a, b))(sv[y], sv[x]));
        }
    }
    sorted
}

} // verus!
