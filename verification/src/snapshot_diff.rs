//! Comparing two saved inventory snapshots by software.
use crate::history_query::{find_id, install_key, nonblank, software_key_text, lemma_ids_count};
use crate::models::{DiffEntry, InventorySnapshot, SnapshotDiff};
use crate::sorted_texts::{has_text, insert_text, lists_set, strictly_sorted, texts};
use crate::sorting::sort_by_lt;
use crate::text::{chars_eq, chars_of, is_blank, text_lt};
use vstd::prelude::*;

verus! {

// ---------------------------------------------------------------------------
// Comparing two snapshots
// ---------------------------------------------------------------------------
/// Installation `i` (among the first `n`) belongs to the software group `k`.
pub open spec fn in_sum_group(snap: InventorySnapshot, n: int, k: Seq<char>, i: int) -> bool {
    0 <= i < n && i < snap.installations@.len() && install_key(snap.installations@[i]) == k
}

/// Every software key of a snapshot.
pub open spec fn snapshot_keys(snap: InventorySnapshot) -> Set<Seq<char>> {
    Set::new(
        |k: Seq<char>|
            exists|i: int| #[trigger] in_sum_group(snap, snap.installations@.len() as int, k, i),
    )
}

/// The computers that have software `k`.
pub open spec fn sum_hosts(snap: InventorySnapshot, n: int, k: Seq<char>) -> Set<u64> {
    Set::new(
        |id: u64|
            exists|i: int| #[trigger] in_sum_group(snap, n, k, i) && snap.installations@[i].computer_id == id,
    )
}

/// The non-blank version names of software `k`.
pub open spec fn sum_versions(snap: InventorySnapshot, n: int, k: Seq<char>) -> Set<Seq<char>> {
    Set::new(
        |v: Seq<char>|
            exists|i: int|
                #[trigger] in_sum_group(snap, n, k, i) && nonblank(snap.installations@[i].version_name@)
                    && snap.installations@[i].version_name@ == v,
    )
}

pub open spec fn first_of_sum(snap: InventorySnapshot, n: int, k: Seq<char>, i: int) -> bool {
    in_sum_group(snap, n, k, i) && forall|j: int| 0 <= j < i ==> !#[trigger] in_sum_group(snap, n, k, j)
}

/// The name and publisher a snapshot shows for software `k` (from its first installation).
pub open spec fn names_from(snap: InventorySnapshot, k: Seq<char>, name: Seq<char>, publisher: Seq<char>) -> bool {
    exists|i: int|
        #[trigger] first_of_sum(snap, snap.installations@.len() as int, k, i) && name
            == snap.installations@[i].software_name@ && publisher == snap.installations@[i].publisher@
}

/// One row of a comparison, for software `k`.
pub open spec fn diff_entry_ok(a: InventorySnapshot, b: InventorySnapshot, k: Seq<char>, e: DiffEntry) -> bool {
    let na = a.installations@.len() as int;
    let nb = b.installations@.len() as int;
    &&& if snapshot_keys(a).contains(k) {
        names_from(a, k, e.software_name@, e.publisher@)
    } else {
        names_from(b, k, e.software_name@, e.publisher@)
    }
    &&& e.hosts_a == sum_hosts(a, na, k).len()
    &&& e.hosts_b == sum_hosts(b, nb, k).len()
    &&& lists_set(e.versions_a@, sum_versions(a, na, k))
    &&& lists_set(e.versions_b@, sum_versions(b, nb, k))
}

/// Software `k` differs between the snapshots: by host count or by version set.
pub open spec fn software_changed(a: InventorySnapshot, b: InventorySnapshot, k: Seq<char>) -> bool {
    sum_hosts(a, a.installations@.len() as int, k).len() != sum_hosts(
        b,
        b.installations@.len() as int,
        k,
    ).len() || sum_versions(a, a.installations@.len() as int, k) != sum_versions(
        b,
        b.installations@.len() as int,
        k,
    )
}

/// How far apart the host counts of an entry are.
pub open spec fn host_delta(e: DiffEntry) -> int {
    if e.hosts_b >= e.hosts_a {
        e.hosts_b - e.hosts_a
    } else {
        e.hosts_a - e.hosts_b
    }
}

/// Which list of a comparison: software only in the second snapshot, only in the
/// first, or in both with a difference.
#[derive(PartialEq, Eq, Structural, Clone, Copy)]
pub enum DiffKind {
    Added,
    Removed,
    Changed,
}

/// The keys a list of the comparison covers.
pub open spec fn diff_keys(a: InventorySnapshot, b: InventorySnapshot, kind: DiffKind) -> Set<Seq<char>> {
    let ka = snapshot_keys(a);
    let kb = snapshot_keys(b);
    match kind {
        DiffKind::Added => kb.difference(ka),
        DiffKind::Removed => ka.difference(kb),
        DiffKind::Changed => ka.intersect(kb).filter(|k: Seq<char>| software_changed(a, b, k)),
    }
}

/// What a list of the comparison is ordered by, largest first.
pub open spec fn diff_metric(kind: DiffKind, e: DiffEntry) -> int {
    match kind {
        DiffKind::Added => e.hosts_b as int,
        DiffKind::Removed => e.hosts_a as int,
        DiffKind::Changed => host_delta(e),
    }
}

/// `list` holds one entry for each key the list covers, by metric (largest first),
/// equal metrics by key; `ks` names the key of each entry.
pub open spec fn diff_list_ok(
    a: InventorySnapshot,
    b: InventorySnapshot,
    list: Seq<DiffEntry>,
    ks: Seq<Seq<char>>,
    kind: DiffKind,
) -> bool {
    &&& ks.len() == list.len()
    &&& forall|j: int| 0 <= j < list.len() ==> diff_entry_ok(a, b, #[trigger] ks[j], list[j])
    &&& forall|k: Seq<char>| #[trigger] diff_keys(a, b, kind).contains(k) <==> ks.contains(k)
    &&& forall|i: int, j: int|
        0 <= i < j < list.len() ==> diff_metric(kind, #[trigger] list[i]) > diff_metric(
            kind,
            #[trigger] list[j],
        ) || (diff_metric(kind, list[i]) == diff_metric(kind, list[j]) && text_lt(ks[i], ks[j]))
}

/// What `compare_snapshots(a, b)` returns.
pub open spec fn snapshot_diff_ok(a: InventorySnapshot, b: InventorySnapshot, d: SnapshotDiff) -> bool {
    &&& exists|ks: Seq<Seq<char>>| #[trigger] diff_list_ok(a, b, d.added@, ks, DiffKind::Added)
    &&& exists|ks: Seq<Seq<char>>| #[trigger] diff_list_ok(a, b, d.removed@, ks, DiffKind::Removed)
    &&& exists|ks: Seq<Seq<char>>| #[trigger] diff_list_ok(a, b, d.changed@, ks, DiffKind::Changed)
}


proof fn lemma_sum_sets_step(snap: InventorySnapshot, n: int, k: Seq<char>)
    requires
        0 <= n < snap.installations@.len(),
    ensures
        sum_versions(snap, n + 1, k) == (if in_sum_group(snap, n + 1, k, n) && nonblank(
            snap.installations@[n].version_name@,
        ) {
            sum_versions(snap, n, k).insert(snap.installations@[n].version_name@)
        } else {
            sum_versions(snap, n, k)
        }),
        sum_hosts(snap, n + 1, k) == (if in_sum_group(snap, n + 1, k, n) {
            sum_hosts(snap, n, k).insert(snap.installations@[n].computer_id)
        } else {
            sum_hosts(snap, n, k)
        }),
{
    let insts = snap.installations@;
    let gv1 = sum_versions(snap, n + 1, k);
    let gv0 = sum_versions(snap, n, k);
    let gv = if in_sum_group(snap, n + 1, k, n) && nonblank(insts[n].version_name@) {
        gv0.insert(insts[n].version_name@)
    } else {
        gv0
    };
    assert forall|v: Seq<char>| gv1.contains(v) <==> gv.contains(v) by {
        if gv1.contains(v) {
            let i = choose|i: int|
                #[trigger] in_sum_group(snap, n + 1, k, i) && nonblank(insts[i].version_name@)
                    && insts[i].version_name@ == v;
            if i < n {
                assert(in_sum_group(snap, n, k, i));
            }
        }
        if gv0.contains(v) {
            let i = choose|i: int|
                #[trigger] in_sum_group(snap, n, k, i) && nonblank(insts[i].version_name@)
                    && insts[i].version_name@ == v;
            assert(in_sum_group(snap, n + 1, k, i));
        }
    }
    assert(gv1 =~= gv);
    let gh1 = sum_hosts(snap, n + 1, k);
    let gh0 = sum_hosts(snap, n, k);
    let gh = if in_sum_group(snap, n + 1, k, n) {
        gh0.insert(insts[n].computer_id)
    } else {
        gh0
    };
    assert forall|x: u64| gh1.contains(x) <==> gh.contains(x) by {
        if gh1.contains(x) {
            let i = choose|i: int| #[trigger] in_sum_group(snap, n + 1, k, i) && insts[i].computer_id == x;
            if i < n {
                assert(in_sum_group(snap, n, k, i));
            }
        }
        if gh0.contains(x) {
            let i = choose|i: int| #[trigger] in_sum_group(snap, n, k, i) && insts[i].computer_id == x;
            assert(in_sum_group(snap, n + 1, k, i));
        }
    }
    assert(gh1 =~= gh);
}

struct SumGroup {
    key: String,
    key_chars: Vec<char>,
    name: String,
    publisher: String,
    hosts: Vec<u64>,
    versions: Vec<String>,
}

spec fn hosts_listed(hosts: Seq<u64>, set: Set<u64>) -> bool {
    &&& forall|a: int, b: int| 0 <= a < b < hosts.len() ==> #[trigger] hosts[a] != #[trigger] hosts[b]
    &&& forall|id: u64| #[trigger] set.contains(id) <==> hosts.contains(id)
}

spec fn sum_group_ok(snap: InventorySnapshot, n: int, g: SumGroup) -> bool {
    let k = g.key@;
    &&& g.key_chars@ == k
    &&& exists|i: int|
        #[trigger] first_of_sum(snap, n, k, i) && g.name@ == snap.installations@[i].software_name@
            && g.publisher@ == snap.installations@[i].publisher@
    &&& lists_set(g.versions@, sum_versions(snap, n, k))
    &&& hosts_listed(g.hosts@, sum_hosts(snap, n, k))
}

#[verifier::opaque]
spec fn sum_ok(snap: InventorySnapshot, n: int, groups: Seq<SumGroup>) -> bool {
    &&& forall|g: int| 0 <= g < groups.len() ==> sum_group_ok(snap, n, #[trigger] groups[g])
    &&& forall|a: int, b: int| 0 <= a < b < groups.len() ==> #[trigger] groups[a].key@ != #[trigger] groups[b].key@
    &&& forall|j: int|
        #![trigger snap.installations@[j]]
        0 <= j < n ==> exists|g: int|
            0 <= g < groups.len() && #[trigger] groups[g].key@ == install_key(snap.installations@[j])
}

proof fn lemma_sum_untouched(snap: InventorySnapshot, n: int, g: SumGroup)
    requires
        0 <= n < snap.installations@.len(),
        sum_group_ok(snap, n, g),
        g.key@ != install_key(snap.installations@[n]),
    ensures
        sum_group_ok(snap, n + 1, g),
{
    let k = g.key@;
    let i = choose|i: int|
        #[trigger] first_of_sum(snap, n, k, i) && g.name@ == snap.installations@[i].software_name@
            && g.publisher@ == snap.installations@[i].publisher@;
    assert(first_of_sum(snap, n + 1, k, i)) by {
        assert forall|j: int| 0 <= j < i implies !#[trigger] in_sum_group(snap, n + 1, k, j) by {
            assert(!in_sum_group(snap, n, k, j));
        }
    }
    lemma_sum_sets_step(snap, n, k);
}

proof fn lemma_sum_new(snap: InventorySnapshot, n: int, groups: Seq<SumGroup>, grp: SumGroup)
    requires
        0 <= n < snap.installations@.len(),
        sum_ok(snap, n, groups),
        grp.key@ == install_key(snap.installations@[n]),
        forall|g: int| 0 <= g < groups.len() ==> #[trigger] groups[g].key@ != grp.key@,
        grp.key_chars@ == grp.key@,
        grp.name@ == snap.installations@[n].software_name@,
        grp.publisher@ == snap.installations@[n].publisher@,
        strictly_sorted(texts(grp.versions@)),
        forall|y: Seq<char>| #[trigger] has_text(grp.versions@, y) <==> (nonblank(
            snap.installations@[n].version_name@,
        ) && y == snap.installations@[n].version_name@),
        grp.hosts@ == seq![snap.installations@[n].computer_id],
    ensures
        sum_ok(snap, n + 1, groups.push(grp)),
{
    reveal(sum_ok);
    let k = grp.key@;
    assert(in_sum_group(snap, n + 1, k, n));
    assert forall|g: int| 0 <= g < groups.len() implies sum_group_ok(snap, n + 1, #[trigger] groups[g]) by {
        lemma_sum_untouched(snap, n, groups[g]);
    }
    assert forall|j: int| 0 <= j < n implies !#[trigger] in_sum_group(snap, n + 1, k, j) by {
        if in_sum_group(snap, n + 1, k, j) {
            let g = choose|g: int|
                0 <= g < groups.len() && #[trigger] groups[g].key@ == install_key(snap.installations@[j]);
        }
    }
    assert(first_of_sum(snap, n + 1, k, n));
    lemma_sum_sets_step(snap, n, k);
    assert(sum_versions(snap, n, k) =~= Set::empty()) by {
        assert forall|v: Seq<char>| !sum_versions(snap, n, k).contains(v) by {
            if sum_versions(snap, n, k).contains(v) {
                let j = choose|j: int|
                    #[trigger] in_sum_group(snap, n, k, j) && nonblank(snap.installations@[j].version_name@)
                        && snap.installations@[j].version_name@ == v;
                assert(in_sum_group(snap, n + 1, k, j));
            }
        }
    }
    assert(sum_hosts(snap, n, k) =~= Set::empty()) by {
        assert forall|x: u64| !sum_hosts(snap, n, k).contains(x) by {
            if sum_hosts(snap, n, k).contains(x) {
                let j = choose|j: int| #[trigger] in_sum_group(snap, n, k, j) && snap.installations@[j].computer_id == x;
                assert(in_sum_group(snap, n + 1, k, j));
            }
        }
    }
    assert forall|v: Seq<char>| #[trigger] sum_versions(snap, n + 1, k).contains(v) <==> has_text(
        grp.versions@,
        v,
    ) by {}
    assert forall|id: u64| #[trigger] sum_hosts(snap, n + 1, k).contains(id) <==> grp.hosts@.contains(id) by {
        if id == snap.installations@[n].computer_id {
            assert(grp.hosts@[0] == id);
        }
    }
    assert(sum_group_ok(snap, n + 1, grp));
    let gs = groups.push(grp);
    assert forall|g: int| 0 <= g < gs.len() implies sum_group_ok(snap, n + 1, #[trigger] gs[g]) by {
        if g < groups.len() {
            assert(gs[g] == groups[g]);
        }
    }
    assert forall|j: int| #![trigger snap.installations@[j]] 0 <= j < n + 1 implies exists|g: int|
        0 <= g < gs.len() && #[trigger] gs[g].key@ == install_key(snap.installations@[j]) by {
        if j == n {
            assert(gs[groups.len() as int].key@ == k);
        } else {
            let g = choose|g: int|
                0 <= g < groups.len() && #[trigger] groups[g].key@ == install_key(snap.installations@[j]);
            assert(gs[g] == groups[g]);
        }
    }
}

#[verifier::rlimit(80)]
proof fn lemma_sum_update(snap: InventorySnapshot, n: int, groups: Seq<SumGroup>, g: int, grp: SumGroup)
    requires
        0 <= n < snap.installations@.len(),
        sum_ok(snap, n, groups),
        0 <= g < groups.len(),
        groups[g].key@ == install_key(snap.installations@[n]),
        grp.key@ == groups[g].key@,
        grp.key_chars@ == groups[g].key_chars@,
        grp.name@ == groups[g].name@,
        grp.publisher@ == groups[g].publisher@,
        strictly_sorted(texts(grp.versions@)),
        forall|y: Seq<char>| #[trigger] has_text(grp.versions@, y) <==> (has_text(
            groups[g].versions@,
            y,
        ) || (nonblank(snap.installations@[n].version_name@) && y
            == snap.installations@[n].version_name@)),
        groups[g].hosts@.contains(snap.installations@[n].computer_id) ==> grp.hosts@ == groups[g].hosts@,
        !groups[g].hosts@.contains(snap.installations@[n].computer_id) ==> grp.hosts@
            == groups[g].hosts@.push(snap.installations@[n].computer_id),
    ensures
        sum_ok(snap, n + 1, groups.update(g, grp)),
{
    reveal(sum_ok);
    let old = groups[g];
    let k = old.key@;
    let cid = snap.installations@[n].computer_id;
    assert(in_sum_group(snap, n + 1, k, n));
    assert(sum_group_ok(snap, n, old));
    lemma_sum_sets_step(snap, n, k);
    let i0 = choose|i: int|
        #[trigger] first_of_sum(snap, n, k, i) && old.name@ == snap.installations@[i].software_name@
            && old.publisher@ == snap.installations@[i].publisher@;
    assert(first_of_sum(snap, n + 1, k, i0)) by {
        assert forall|j2: int| 0 <= j2 < i0 implies !#[trigger] in_sum_group(snap, n + 1, k, j2) by {
            assert(!in_sum_group(snap, n, k, j2));
        }
    }
    assert forall|v: Seq<char>| #[trigger] sum_versions(snap, n + 1, k).contains(v) <==> has_text(
        grp.versions@,
        v,
    ) by {
        assert(sum_versions(snap, n, k).contains(v) <==> has_text(old.versions@, v));
    }
    assert forall|id: u64| #[trigger] sum_hosts(snap, n + 1, k).contains(id) <==> grp.hosts@.contains(id) by {
        assert(sum_hosts(snap, n, k).contains(id) <==> old.hosts@.contains(id));
        if !old.hosts@.contains(cid) {
            if grp.hosts@.contains(id) {
                let h = choose|h: int| 0 <= h < grp.hosts@.len() && grp.hosts@[h] == id;
                if h < old.hosts@.len() {
                    assert(old.hosts@[h] == id);
                }
            }
            if old.hosts@.contains(id) {
                let h = choose|h: int| 0 <= h < old.hosts@.len() && old.hosts@[h] == id;
                assert(grp.hosts@[h] == id);
            }
            if id == cid {
                assert(grp.hosts@[old.hosts@.len() as int] == cid);
            }
        }
    }
    assert forall|a: int, b: int| 0 <= a < b < grp.hosts@.len() implies #[trigger] grp.hosts@[a]
        != #[trigger] grp.hosts@[b] by {
        if !old.hosts@.contains(cid) {
            if b == old.hosts@.len() {
                assert(grp.hosts@[a] == old.hosts@[a]);
            } else {
                assert(grp.hosts@[a] == old.hosts@[a] && grp.hosts@[b] == old.hosts@[b]);
            }
        }
    }
    assert(sum_group_ok(snap, n + 1, grp));
    let gs = groups.update(g, grp);
    assert forall|x: int| 0 <= x < gs.len() implies sum_group_ok(snap, n + 1, #[trigger] gs[x]) by {
        if x != g {
            assert(gs[x] == groups[x]);
            assert(groups[x].key@ != k);
            lemma_sum_untouched(snap, n, groups[x]);
        }
    }
    assert forall|a: int, b: int| 0 <= a < b < gs.len() implies #[trigger] gs[a].key@ != #[trigger] gs[b].key@ by {
        assert(groups[a].key@ != groups[b].key@);
    }
    assert forall|j2: int| #![trigger snap.installations@[j2]] 0 <= j2 < n + 1 implies exists|x: int|
        0 <= x < gs.len() && #[trigger] gs[x].key@ == install_key(snap.installations@[j2]) by {
        if j2 == n {
            assert(gs[g].key@ == k);
        } else {
            let x = choose|x: int|
                0 <= x < groups.len() && #[trigger] groups[x].key@ == install_key(snap.installations@[j2]);
            assert(gs[x].key@ == groups[x].key@);
        }
    }
}

fn find_sum_group(groups: &Vec<SumGroup>, key: &[char]) -> (r: Option<usize>)
    ensures
        match r {
            Some(g) => g < groups@.len() && groups@[g as int].key_chars@ == key@,
            None => forall|g: int| 0 <= g < groups@.len() ==> #[trigger] groups@[g].key_chars@ != key@,
        },
{
    let mut g: usize = 0;
    while g < groups.len()
        invariant
            g <= groups@.len(),
            forall|h: int| 0 <= h < g ==> #[trigger] groups@[h].key_chars@ != key@,
        decreases groups.len() - g,
    {
        if chars_eq(groups[g].key_chars.as_slice(), key) {
            return Some(g);
        }
        g = g + 1;
    }
    None
}

/// Groups a snapshot's installations by software key.
#[verifier::rlimit(60)]
fn summarize_snapshot(snapshot: &InventorySnapshot) -> (groups: Vec<SumGroup>)
    ensures
        sum_ok(*snapshot, snapshot.installations@.len() as int, groups@),
{
    let ghost snap = *snapshot;
    let mut groups: Vec<SumGroup> = Vec::new();
    let mut i: usize = 0;
    proof {
        reveal(sum_ok);
    }
    while i < snapshot.installations.len()
        invariant
            i <= snapshot.installations@.len(),
            snap == *snapshot,
            sum_ok(snap, i as int, groups@),
        decreases snapshot.installations.len() - i,
    {
        let inst = &snapshot.installations[i];
        let ghost n = i as int;
        let key = software_key_text(inst.software_name.as_str(), inst.publisher.as_str());
        let kc = chars_of(key.as_str());
        let nb = !is_blank(inst.version_name.as_str());
        let cid = inst.computer_id;
        match find_sum_group(&groups, kc.as_slice()) {
            None => {
                let mut versions: Vec<String> = Vec::new();
                if nb {
                    versions.push(inst.version_name.clone());
                }
                proof {
                    assert forall|y: Seq<char>| #[trigger] has_text(versions@, y) <==> (nonblank(
                        inst.version_name@,
                    ) && y == inst.version_name@) by {
                        if nb && y == inst.version_name@ {
                            assert(versions@[0]@ == y);
                        }
                    }
                }
                let mut hosts: Vec<u64> = Vec::new();
                hosts.push(cid);
                let grp = SumGroup {
                    key: key,
                    key_chars: kc,
                    name: inst.software_name.clone(),
                    publisher: inst.publisher.clone(),
                    hosts: hosts,
                    versions: versions,
                };
                proof {
                    reveal(sum_ok);
                    assert forall|g: int| 0 <= g < groups@.len() implies #[trigger] groups@[g].key@ != grp.key@ by {
                        assert(sum_group_ok(snap, n, groups@[g]));
                    }
                    assert(grp.hosts@ =~= seq![cid]);
                    lemma_sum_new(snap, n, groups@, grp);
                }
                groups.push(grp);
            },
            Some(g) => {
                let ghost before = groups@;
                let mut grp = groups.remove(g);
                proof {
                    reveal(sum_ok);
                    assert(grp == before[g as int]);
                    assert(sum_group_ok(snap, n, grp));
                }
                let ghost old_grp = grp;
                if nb {
                    insert_text(&mut grp.versions, inst.version_name.clone());
                }
                match find_id(&grp.hosts, cid) {
                    Some(_) => {},
                    None => {
                        grp.hosts.push(cid);
                    },
                }
                proof {
                    assert forall|y: Seq<char>| #[trigger] has_text(grp.versions@, y) <==> (has_text(
                        old_grp.versions@,
                        y,
                    ) || (nonblank(inst.version_name@) && y == inst.version_name@)) by {}
                    lemma_sum_update(snap, n, before, g as int, grp);
                }
                groups.insert(g, grp);
                proof {
                    assert(groups@ =~= before.update(g as int, grp));
                }
            },
        }
        i = i + 1;
    }
    groups
}


proof fn lemma_sum_keys(snap: InventorySnapshot, groups: Seq<SumGroup>)
    requires
        sum_ok(snap, snap.installations@.len() as int, groups),
    ensures
        forall|k: Seq<char>| #[trigger] snapshot_keys(snap).contains(k) <==> exists|g: int|
            0 <= g < groups.len() && #[trigger] groups[g].key@ == k,
        keys_distinct(groups),
{
    reveal(sum_ok);
    let n = snap.installations@.len() as int;
    assert forall|k: Seq<char>| #[trigger] snapshot_keys(snap).contains(k) <==> exists|g: int|
        0 <= g < groups.len() && #[trigger] groups[g].key@ == k by {
        if snapshot_keys(snap).contains(k) {
            let i = choose|i: int| #[trigger] in_sum_group(snap, n, k, i);
            assert(snap.installations@[i] == snap.installations@[i]);
            let g = choose|g: int|
                0 <= g < groups.len() && #[trigger] groups[g].key@ == install_key(snap.installations@[i]);
        }
        if exists|g: int| 0 <= g < groups.len() && #[trigger] groups[g].key@ == k {
            let g = choose|g: int| 0 <= g < groups.len() && #[trigger] groups[g].key@ == k;
            assert(sum_group_ok(snap, n, groups[g]));
            let i = choose|i: int|
                #[trigger] first_of_sum(snap, n, k, i) && groups[g].name@ == snap.installations@[i].software_name@
                    && groups[g].publisher@ == snap.installations@[i].publisher@;
            assert(in_sum_group(snap, n, k, i));
        }
    }
}

proof fn lemma_absent_key(snap: InventorySnapshot, k: Seq<char>)
    requires
        !snapshot_keys(snap).contains(k),
    ensures
        sum_hosts(snap, snap.installations@.len() as int, k) == Set::<u64>::empty(),
        sum_versions(snap, snap.installations@.len() as int, k) == Set::<Seq<char>>::empty(),
{
    let n = snap.installations@.len() as int;
    assert forall|x: u64| !sum_hosts(snap, n, k).contains(x) by {
        if sum_hosts(snap, n, k).contains(x) {
            let i = choose|i: int| #[trigger] in_sum_group(snap, n, k, i) && snap.installations@[i].computer_id == x;
        }
    }
    assert(sum_hosts(snap, n, k) =~= Set::empty());
    assert forall|v: Seq<char>| !sum_versions(snap, n, k).contains(v) by {
        if sum_versions(snap, n, k).contains(v) {
            let i = choose|i: int|
                #[trigger] in_sum_group(snap, n, k, i) && nonblank(snap.installations@[i].version_name@)
                    && snap.installations@[i].version_name@ == v;
        }
    }
    assert(sum_versions(snap, n, k) =~= Set::empty());
}

fn copy_texts(v: &Vec<String>) -> (r: Vec<String>)
    ensures
        r@ == v@,
{
    let mut r: Vec<String> = Vec::new();
    let mut i: usize = 0;
    while i < v.len()
        invariant
            i <= v@.len(),
            r@ == v@.take(i as int),
        decreases v.len() - i,
    {
        r.push(v[i].clone());
        i = i + 1;
        assert(r@ =~= v@.take(i as int));
    }
    assert(v@.take(v@.len() as int) =~= v@);
    r
}

spec fn keyed_diff_lt(kind: DiffKind, a: (String, DiffEntry), b: (String, DiffEntry)) -> bool {
    diff_metric(kind, a.1) > diff_metric(kind, b.1) || (diff_metric(kind, a.1) == diff_metric(kind, b.1)
        && text_lt(a.0@, b.0@))
}

proof fn lemma_keyed_diff_lt_strict(kind: DiffKind)
    ensures
        crate::sorting::strict_order(|a, b| keyed_diff_lt(kind, a, b)),
{
    assert forall|a: (String, DiffEntry), b: (String, DiffEntry), c: (String, DiffEntry)| #[trigger]
        keyed_diff_lt(kind, a, b) && #[trigger] keyed_diff_lt(kind, b, c) implies keyed_diff_lt(kind, a, c) by {
        if diff_metric(kind, a.1) == diff_metric(kind, b.1) && diff_metric(kind, b.1) == diff_metric(kind, c.1) {
            crate::text::lemma_text_lt_transitive(a.0@, b.0@, c.0@);
        }
    }
    assert forall|a: (String, DiffEntry), b: (String, DiffEntry)| #[trigger] keyed_diff_lt(kind, a, b) implies !keyed_diff_lt(
        kind,
        b,
        a,
    ) by {
        if diff_metric(kind, a.1) == diff_metric(kind, b.1) {
            crate::text::lemma_text_lt_asymmetric(a.0@, b.0@);
        }
    }
}

fn delta(e: &DiffEntry) -> (r: usize)
    ensures
        r as int == host_delta(*e),
{
    if e.hosts_b >= e.hosts_a {
        e.hosts_b - e.hosts_a
    } else {
        e.hosts_a - e.hosts_b
    }
}

fn added_less(a: &(String, DiffEntry), b: &(String, DiffEntry)) -> (r: bool)
    ensures
        r == keyed_diff_lt(DiffKind::Added, *a, *b),
{
    a.1.hosts_b > b.1.hosts_b || (a.1.hosts_b == b.1.hosts_b && crate::sorted_texts::str_lt_string(&a.0, &b.0))
}

fn removed_less(a: &(String, DiffEntry), b: &(String, DiffEntry)) -> (r: bool)
    ensures
        r == keyed_diff_lt(DiffKind::Removed, *a, *b),
{
    a.1.hosts_a > b.1.hosts_a || (a.1.hosts_a == b.1.hosts_a && crate::sorted_texts::str_lt_string(&a.0, &b.0))
}

fn changed_less(a: &(String, DiffEntry), b: &(String, DiffEntry)) -> (r: bool)
    ensures
        r == keyed_diff_lt(DiffKind::Changed, *a, *b),
{
    let da = delta(&a.1);
    let db = delta(&b.1);
    da > db || (da == db && crate::sorted_texts::str_lt_string(&a.0, &b.0))
}

#[verifier::opaque]
spec fn keyed_entry_ok(a: InventorySnapshot, b: InventorySnapshot, kind: DiffKind, t: (String, DiffEntry)) -> bool {
    diff_entry_ok(a, b, t.0@, t.1) && diff_keys(a, b, kind).contains(t.0@)
}

spec fn keyed_key(t: (String, DiffEntry)) -> Seq<char> {
    t.0@
}

/// Sorts one list of the comparison and drops the keys.
fn finish_diff_list(
    Ghost(a): Ghost<InventorySnapshot>,
    Ghost(b): Ghost<InventorySnapshot>,
    kind: DiffKind,
    list: Vec<(String, DiffEntry)>,
) -> (r: Vec<DiffEntry>)
    requires
        forall|t: int| 0 <= t < list@.len() ==> keyed_entry_ok(a, b, kind, #[trigger] list@[t]),
        forall|x: int, y: int| 0 <= x < y < list@.len() ==> #[trigger] list@[x].0@ != #[trigger] list@[y].0@,
        forall|k: Seq<char>| #[trigger] diff_keys(a, b, kind).contains(k) ==> exists|t: int|
            0 <= t < list@.len() && #[trigger] list@[t].0@ == k,
    ensures
        exists|ks: Seq<Seq<char>>| #[trigger] diff_list_ok(a, b, r@, ks, kind),
{
    reveal(keyed_entry_ok);
    let ghost lv = list@;
    proof {
        lemma_keyed_diff_lt_strict(kind);
    }
    let (sorted, Ghost(p)) = match kind {
        DiffKind::Added => sort_by_lt(list, added_less, Ghost(|x, y| keyed_diff_lt(kind, x, y))),
        DiffKind::Removed => sort_by_lt(list, removed_less, Ghost(|x, y| keyed_diff_lt(kind, x, y))),
        DiffKind::Changed => sort_by_lt(list, changed_less, Ghost(|x, y| keyed_diff_lt(kind, x, y))),
    };
    proof {
        crate::sorting::lemma_rearranged_all(sorted@, lv, p, |t| keyed_entry_ok(a, b, kind, t));
        assert forall|x: int, y: int| 0 <= x < y < lv.len() implies keyed_key(#[trigger] lv[x]) != keyed_key(
            #[trigger] lv[y],
        ) by {}
        crate::sorting::lemma_rearranged_distinct(sorted@, lv, p, |t| keyed_key(t));
        assert forall|x: int, y: int| 0 <= x < y < sorted@.len() implies keyed_key(#[trigger] sorted@[x]) != keyed_key(
            #[trigger] sorted@[y],
        ) by {
            assert((|t| keyed_key(t))(sorted@[x]) != (|t| keyed_key(t))(sorted@[y]));
        }
    }
    let ghost srt = sorted@;
    let mut out: Vec<DiffEntry> = Vec::new();
    let ghost mut ks: Seq<Seq<char>> = Seq::empty();
    let mut rest = sorted;
    let mut t: usize = 0;
    let count = rest.len();
    while t < count
        invariant
            t <= count == srt.len(),
            rest@ == srt.skip(t as int),
            out@.len() == t,
            ks.len() == t,
            forall|x: int| 0 <= x < t ==> #[trigger] out@[x] == srt[x].1,
            forall|x: int| 0 <= x < t ==> #[trigger] ks[x] == srt[x].0@,
        decreases count - t,
    {
        let (k, e) = rest.remove(0);
        assert(rest@ =~= srt.skip(t + 1));
        out.push(e);
        proof {
            ks = ks.push(k@);
        }
        t = t + 1;
    }
    proof {
        assert forall|j: int| 0 <= j < out@.len() implies diff_entry_ok(a, b, #[trigger] ks[j], out@[j]) by {
            assert(keyed_entry_ok(a, b, kind, srt[j]));
        }
        assert forall|k: Seq<char>| #[trigger] diff_keys(a, b, kind).contains(k) <==> ks.contains(k) by {
            if diff_keys(a, b, kind).contains(k) {
                let t0 = choose|t0: int| 0 <= t0 < lv.len() && #[trigger] lv[t0].0@ == k;
                crate::sorting::lemma_rearranged_onto(srt, lv, p, t0);
                let i0 = choose|i0: int| 0 <= i0 < srt.len() && srt[i0] == lv[t0];
                assert(ks[i0] == k);
            }
            if ks.contains(k) {
                let i0 = choose|i0: int| 0 <= i0 < ks.len() && ks[i0] == k;
                assert(keyed_entry_ok(a, b, kind, srt[i0]));
            }
        }
        assert forall|i: int, j: int| 0 <= i < j < out@.len() implies diff_metric(kind, #[trigger] out@[i]) > diff_metric(
            kind,
            #[trigger] out@[j],
        ) || (diff_metric(kind, out@[i]) == diff_metric(kind, out@[j]) && text_lt(ks[i], ks[j])) by {
            assert(!keyed_diff_lt(kind, srt[j], srt[i]));
            assert(keyed_key(srt[i]) != keyed_key(srt[j]));
            crate::text::lemma_text_lt_total(srt[i].0@, srt[j].0@);
        }
        assert(diff_list_ok(a, b, out@, ks, kind));
    }
    out
}


proof fn lemma_group_entry_facts(snap: InventorySnapshot, groups: Seq<SumGroup>, g: int)
    requires
        sum_ok(snap, snap.installations@.len() as int, groups),
        0 <= g < groups.len(),
    ensures
        snapshot_keys(snap).contains(groups[g].key@),
        names_from(snap, groups[g].key@, groups[g].name@, groups[g].publisher@),
        groups[g].hosts@.len() == sum_hosts(snap, snap.installations@.len() as int, groups[g].key@).len(),
        lists_set(groups[g].versions@, sum_versions(snap, snap.installations@.len() as int, groups[g].key@)),
{
    reveal(sum_ok);
    let n = snap.installations@.len() as int;
    let grp = groups[g];
    assert(sum_group_ok(snap, n, grp));
    lemma_ids_count(grp.hosts@, sum_hosts(snap, n, grp.key@));
    let i = choose|i: int|
        #[trigger] first_of_sum(snap, n, grp.key@, i) && grp.name@ == snap.installations@[i].software_name@
            && grp.publisher@ == snap.installations@[i].publisher@;
    assert(in_sum_group(snap, n, grp.key@, i));
}

proof fn lemma_sum_group(snap: InventorySnapshot, groups: Seq<SumGroup>, g: int)
    requires
        sum_ok(snap, snap.installations@.len() as int, groups),
        0 <= g < groups.len(),
    ensures
        sum_group_ok(snap, snap.installations@.len() as int, groups[g]),
{
    reveal(sum_ok);
}

spec fn keys_distinct(groups: Seq<SumGroup>) -> bool {
    forall|a: int, b: int| 0 <= a < b < groups.len() ==> #[trigger] groups[a].key@ != #[trigger] groups[b].key@
}

spec fn keys_match_groups(snap: InventorySnapshot, groups: Seq<SumGroup>) -> bool {
    forall|k: Seq<char>| #[trigger] snapshot_keys(snap).contains(k) <==> exists|g: int|
        0 <= g < groups.len() && #[trigger] groups[g].key@ == k
}

proof fn lemma_same_version_sets(xs: Seq<String>, ys: Seq<String>, va: Set<Seq<char>>, vb: Set<Seq<char>>)
    requires
        lists_set(xs, va),
        lists_set(ys, vb),
    ensures
        (va == vb) == (forall|v: Seq<char>| has_text(xs, v) <==> has_text(ys, v)),
{
    if forall|v: Seq<char>| has_text(xs, v) <==> has_text(ys, v) {
        assert forall|v: Seq<char>| va.contains(v) <==> vb.contains(v) by {
            assert(va.contains(v) <==> has_text(xs, v));
            assert(vb.contains(v) <==> has_text(ys, v));
        }
        assert(va =~= vb);
    }
    if va == vb {
        assert forall|v: Seq<char>| has_text(xs, v) <==> has_text(ys, v) by {
            assert(va.contains(v) <==> has_text(xs, v));
            assert(vb.contains(v) <==> has_text(ys, v));
        }
    }
}

/// The removed and changed entries that group `i` of the first snapshot contributes.
#[verifier::rlimit(100)]
fn diff_for_first_group(
    Ghost(sa): Ghost<InventorySnapshot>,
    Ghost(sb): Ghost<InventorySnapshot>,
    ga: &Vec<SumGroup>,
    gb: &Vec<SumGroup>,
    i: usize,
) -> (r: (Option<(String, DiffEntry)>, Option<(String, DiffEntry)>))
    requires
        sum_ok(sa, sa.installations@.len() as int, ga@),
        sum_ok(sb, sb.installations@.len() as int, gb@),
        keys_match_groups(sa, ga@),
        keys_match_groups(sb, gb@),
        i < ga@.len(),
    ensures
        match r.0 {
            Some(t) => t.0@ == ga@[i as int].key@ && keyed_entry_ok(sa, sb, DiffKind::Removed, t),
            None => !diff_keys(sa, sb, DiffKind::Removed).contains(ga@[i as int].key@),
        },
        match r.1 {
            Some(t) => t.0@ == ga@[i as int].key@ && keyed_entry_ok(sa, sb, DiffKind::Changed, t),
            None => !diff_keys(sa, sb, DiffKind::Changed).contains(ga@[i as int].key@),
        },
{
    reveal(keyed_entry_ok);
    
    let x = &ga[i];
    proof {
        lemma_group_entry_facts(sa, ga@, i as int);
        lemma_sum_group(sa, ga@, i as int);
    }
    match find_sum_group(gb, x.key_chars.as_slice()) {
        None => {
            let e = DiffEntry {
                software_name: x.name.clone(),
                publisher: x.publisher.clone(),
                hosts_a: x.hosts.len(),
                hosts_b: 0,
                versions_a: copy_texts(&x.versions),
                versions_b: Vec::new(),
            };
            proof {
                assert(!snapshot_keys(sb).contains(x.key@)) by {
                    if snapshot_keys(sb).contains(x.key@) {
                        let g = choose|g: int| 0 <= g < gb@.len() && #[trigger] gb@[g].key@ == x.key@;
                        lemma_sum_group(sb, gb@, g);
                        assert(gb@[g].key_chars@ != x.key_chars@);
                    }
                }
                lemma_absent_key(sb, x.key@);
            }
            (Some((x.key.clone(), e)), None)
        },
        Some(gy) => {
            let y = &gb[gy];
            proof {
                lemma_group_entry_facts(sb, gb@, gy as int);
                lemma_sum_group(sb, gb@, gy as int);
                assert(y.key@ == x.key@);
            }
            let differs = x.hosts.len() != y.hosts.len() || !crate::sorted_texts::same_texts(
                &x.versions,
                &y.versions,
            );
            proof {
                lemma_same_version_sets(
                    x.versions@,
                    y.versions@,
                    sum_versions(sa, sa.installations@.len() as int, x.key@),
                    sum_versions(sb, sb.installations@.len() as int, x.key@),
                );
            }
            if differs {
                let e = DiffEntry {
                    software_name: x.name.clone(),
                    publisher: x.publisher.clone(),
                    hosts_a: x.hosts.len(),
                    hosts_b: y.hosts.len(),
                    versions_a: copy_texts(&x.versions),
                    versions_b: copy_texts(&y.versions),
                };
                (None, Some((x.key.clone(), e)))
            } else {
                (None, None)
            }
        },
    }
}

/// The added entry that group `j` of the second snapshot contributes.
fn diff_for_second_group(
    Ghost(sa): Ghost<InventorySnapshot>,
    Ghost(sb): Ghost<InventorySnapshot>,
    ga: &Vec<SumGroup>,
    gb: &Vec<SumGroup>,
    j: usize,
) -> (r: Option<(String, DiffEntry)>)
    requires
        sum_ok(sa, sa.installations@.len() as int, ga@),
        sum_ok(sb, sb.installations@.len() as int, gb@),
        keys_match_groups(sa, ga@),
        keys_match_groups(sb, gb@),
        j < gb@.len(),
    ensures
        match r {
            Some(t) => t.0@ == gb@[j as int].key@ && keyed_entry_ok(sa, sb, DiffKind::Added, t),
            None => !diff_keys(sa, sb, DiffKind::Added).contains(gb@[j as int].key@),
        },
{
    reveal(keyed_entry_ok);
    
    let y = &gb[j];
    proof {
        lemma_group_entry_facts(sb, gb@, j as int);
        lemma_sum_group(sb, gb@, j as int);
    }
    match find_sum_group(ga, y.key_chars.as_slice()) {
        None => {
            let e = DiffEntry {
                software_name: y.name.clone(),
                publisher: y.publisher.clone(),
                hosts_a: 0,
                hosts_b: y.hosts.len(),
                versions_a: Vec::new(),
                versions_b: copy_texts(&y.versions),
            };
            proof {
                assert(!snapshot_keys(sa).contains(y.key@)) by {
                    if snapshot_keys(sa).contains(y.key@) {
                        let g = choose|g: int| 0 <= g < ga@.len() && #[trigger] ga@[g].key@ == y.key@;
                        lemma_sum_group(sa, ga@, g);
                        assert(ga@[g].key_chars@ != y.key_chars@);
                    }
                }
                lemma_absent_key(sa, y.key@);
            }
            Some((y.key.clone(), e))
        },
        Some(gx) => {
            proof {
                lemma_sum_group(sa, ga@, gx as int);
                assert(ga@[gx as int].key@ == y.key@);
                assert(snapshot_keys(sa).contains(y.key@));
            }
            None
        },
    }
}

/// Every entry of `list` is a valid entry of the `kind` list.
spec fn entries_ok(sa: InventorySnapshot, sb: InventorySnapshot, kind: DiffKind, list: Seq<(String, DiffEntry)>) -> bool {
    forall|t: int| 0 <= t < list.len() ==> keyed_entry_ok(sa, sb, kind, #[trigger] list[t])
}

/// Every entry of `list` is keyed by one of the first `g` groups.
spec fn keyed_by_groups(list: Seq<(String, DiffEntry)>, groups: Seq<SumGroup>, g: int) -> bool {
    forall|t: int|
        #![trigger list[t]]
        0 <= t < list.len() ==> exists|h: int| 0 <= h < g && #[trigger] groups[h].key@ == list[t].0@
}

/// No key occurs twice in `list`.
spec fn keys_unique(list: Seq<(String, DiffEntry)>) -> bool {
    forall|x: int, y: int| 0 <= x < y < list.len() ==> #[trigger] list[x].0@ != #[trigger] list[y].0@
}

/// Each of the first `g` groups whose key the `kind` list covers has an entry in `list`.
spec fn covers_groups(
    sa: InventorySnapshot,
    sb: InventorySnapshot,
    kind: DiffKind,
    list: Seq<(String, DiffEntry)>,
    groups: Seq<SumGroup>,
    g: int,
) -> bool {
    forall|h: int|
        0 <= h < g && #[trigger] diff_keys(sa, sb, kind).contains(groups[h].key@) ==> exists|t: int|
            0 <= t < list.len() && #[trigger] list[t].0@ == groups[h].key@
}

/// Pushes an entry keyed by group `g` onto a list that holds one entry per key so far.
#[verifier::rlimit(100)]
proof fn lemma_push_keyed(
    sa: InventorySnapshot,
    sb: InventorySnapshot,
    kind: DiffKind,
    groups: Seq<SumGroup>,
    list: Seq<(String, DiffEntry)>,
    g: int,
    item: Option<(String, DiffEntry)>,
    l2: Seq<(String, DiffEntry)>,
)
    requires
        0 <= g < groups.len(),
        keys_distinct(groups),
        entries_ok(sa, sb, kind, list),
        keyed_by_groups(list, groups, g),
        keys_unique(list),
        covers_groups(sa, sb, kind, list, groups, g),
        item matches Some(t) ==> t.0@ == groups[g].key@ && keyed_entry_ok(sa, sb, kind, t) && l2 == list.push(t),
        item is None ==> !diff_keys(sa, sb, kind).contains(groups[g].key@) && l2 == list,
    ensures
        entries_ok(sa, sb, kind, l2),
        keyed_by_groups(l2, groups, g + 1),
        keys_unique(l2),
        covers_groups(sa, sb, kind, l2, groups, g + 1),
{
    assert forall|t: int| #![trigger l2[t]] 0 <= t < l2.len() implies exists|h: int| 0 <= h < g + 1 && #[trigger] groups[h].key@ == l2[t].0@ by {
        if t < list.len() {
            assert(l2[t] == list[t]);
            let h = choose|h: int| 0 <= h < g && #[trigger] groups[h].key@ == list[t].0@;
        } else {
            assert(groups[g].key@ == l2[t].0@);
        }
    }
    assert forall|x: int, y: int| 0 <= x < y < l2.len() implies #[trigger] l2[x].0@ != #[trigger] l2[y].0@ by {
        if y == list.len() {
            assert(l2[x] == list[x]);
            let h = choose|h: int| 0 <= h < g && #[trigger] groups[h].key@ == list[x].0@;
        } else {
            assert(l2[x] == list[x] && l2[y] == list[y]);
        }
    }
    assert forall|h: int| 0 <= h < g + 1 && #[trigger] diff_keys(sa, sb, kind).contains(groups[h].key@) implies exists|t: int|
        0 <= t < l2.len() && #[trigger] l2[t].0@ == groups[h].key@ by {
        if h == g {
            assert(l2[l2.len() - 1].0@ == groups[h].key@);
        } else {
            let t = choose|t: int| 0 <= t < list.len() && #[trigger] list[t].0@ == groups[h].key@;
            assert(l2[t] == list[t]);
        }
    }
    assert forall|t: int| 0 <= t < l2.len() implies keyed_entry_ok(sa, sb, kind, #[trigger] l2[t]) by {
        if t < list.len() {
            assert(l2[t] == list[t]);
        }
    }
}

/// Once every group is looked at, the list covers every key of its kind.
proof fn lemma_full_cover(
    sa: InventorySnapshot,
    sb: InventorySnapshot,
    kind: DiffKind,
    groups: Seq<SumGroup>,
    list: Seq<(String, DiffEntry)>,
)
    requires
        keys_match_groups(if kind is Added { sb } else { sa }, groups),
        covers_groups(sa, sb, kind, list, groups, groups.len() as int),
    ensures
        forall|k: Seq<char>| #[trigger] diff_keys(sa, sb, kind).contains(k) ==> exists|t: int|
            0 <= t < list.len() && #[trigger] list[t].0@ == k,
{
    let s = if kind is Added { sb } else { sa };
    assert forall|k: Seq<char>| #[trigger] diff_keys(sa, sb, kind).contains(k) implies exists|t: int|
        0 <= t < list.len() && #[trigger] list[t].0@ == k by {
        assert(snapshot_keys(s).contains(k));
        let g = choose|g: int| 0 <= g < groups.len() && #[trigger] groups[g].key@ == k;
        assert(diff_keys(sa, sb, kind).contains(groups[g].key@));
    }
}

/// Compares two snapshots by software (normalized name and publisher): software only
/// in `b` (added), only in `a` (removed), and in both with a different host count or
/// version set (changed).
pub fn compare_snapshots(a: &InventorySnapshot, b: &InventorySnapshot) -> (d: SnapshotDiff)
    ensures
        snapshot_diff_ok(*a, *b, d),
{
    let ga = summarize_snapshot(a);
    let gb = summarize_snapshot(b);
    let ghost sa = *a;
    let ghost sb = *b;
    proof {
        lemma_sum_keys(sa, ga@);
        lemma_sum_keys(sb, gb@);
    }
    let mut added: Vec<(String, DiffEntry)> = Vec::new();
    let mut removed: Vec<(String, DiffEntry)> = Vec::new();
    let mut changed: Vec<(String, DiffEntry)> = Vec::new();
    let mut i: usize = 0;
    while i < ga.len()
        invariant
            i <= ga@.len(),
            sum_ok(sa, sa.installations@.len() as int, ga@),
            sum_ok(sb, sb.installations@.len() as int, gb@),
            keys_match_groups(sa, ga@),
            keys_match_groups(sb, gb@),
            keys_distinct(ga@),
            keys_distinct(gb@),
            entries_ok(sa, sb, DiffKind::Removed, removed@),
            keyed_by_groups(removed@, ga@, i as int),
            keys_unique(removed@),
            covers_groups(sa, sb, DiffKind::Removed, removed@, ga@, i as int),
            entries_ok(sa, sb, DiffKind::Changed, changed@),
            keyed_by_groups(changed@, ga@, i as int),
            keys_unique(changed@),
            covers_groups(sa, sb, DiffKind::Changed, changed@, ga@, i as int),
        decreases ga.len() - i,
    {
        let (r, c) = diff_for_first_group(Ghost(sa), Ghost(sb), &ga, &gb, i);
        let ghost old_removed = removed@;
        let ghost old_changed = changed@;
        match r {
            Some(t) => removed.push(t),
            None => {},
        }
        match c {
            Some(t) => changed.push(t),
            None => {},
        }
        proof {
            lemma_push_keyed(sa, sb, DiffKind::Removed, ga@, old_removed, i as int, r, removed@);
            lemma_push_keyed(sa, sb, DiffKind::Changed, ga@, old_changed, i as int, c, changed@);
        }
        i = i + 1;
    }
    let mut j: usize = 0;
    while j < gb.len()
        invariant
            j <= gb@.len(),
            sum_ok(sa, sa.installations@.len() as int, ga@),
            sum_ok(sb, sb.installations@.len() as int, gb@),
            keys_match_groups(sa, ga@),
            keys_match_groups(sb, gb@),
            keys_distinct(ga@),
            keys_distinct(gb@),
            entries_ok(sa, sb, DiffKind::Added, added@),
            keyed_by_groups(added@, gb@, j as int),
            keys_unique(added@),
            covers_groups(sa, sb, DiffKind::Added, added@, gb@, j as int),
        decreases gb.len() - j,
    {
        let r = diff_for_second_group(Ghost(sa), Ghost(sb), &ga, &gb, j);
        let ghost old_added = added@;
        match r {
            Some(t) => added.push(t),
            None => {},
        }
        proof {
            lemma_push_keyed(sa, sb, DiffKind::Added, gb@, old_added, j as int, r, added@);
        }
        j = j + 1;
    }
    proof {
        lemma_full_cover(sa, sb, DiffKind::Added, gb@, added@);
        lemma_full_cover(sa, sb, DiffKind::Removed, ga@, removed@);
        lemma_full_cover(sa, sb, DiffKind::Changed, ga@, changed@);
    }
    let added = finish_diff_list(Ghost(sa), Ghost(sb), DiffKind::Added, added);
    let removed = finish_diff_list(Ghost(sa), Ghost(sb), DiffKind::Removed, removed);
    let changed = finish_diff_list(Ghost(sa), Ghost(sb), DiffKind::Changed, changed);
    let d = SnapshotDiff { added, removed, changed };
    proof {
        let k1 = choose|ks: Seq<Seq<char>>| #[trigger] diff_list_ok(sa, sb, d.added@, ks, DiffKind::Added);
        let k2 = choose|ks: Seq<Seq<char>>| #[trigger] diff_list_ok(sa, sb, d.removed@, ks, DiffKind::Removed);
        let k3 = choose|ks: Seq<Seq<char>>| #[trigger] diff_list_ok(sa, sb, d.changed@, ks, DiffKind::Changed);
        assert(diff_list_ok(*a, *b, d.added@, k1, DiffKind::Added));
        assert(diff_list_ok(*a, *b, d.removed@, k2, DiffKind::Removed));
        assert(diff_list_ok(*a, *b, d.changed@, k3, DiffKind::Changed));
    }
    d
}

// ---------------------------------------------------------------------------
// Laws of comparison
// ---------------------------------------------------------------------------
/// The software key of a comparison row: its name and publisher, normalized.
pub open spec fn entry_key(e: DiffEntry) -> Seq<char> {
    crate::history_query::software_key(e.software_name@, e.publisher@)
}

/// Some row of `list` is about software `k`.
pub open spec fn lists_key(list: Seq<DiffEntry>, k: Seq<char>) -> bool {
    exists|j: int| 0 <= j < list.len() && entry_key(#[trigger] list[j]) == k
}

proof fn lemma_entry_key(a: InventorySnapshot, b: InventorySnapshot, k: Seq<char>, e: DiffEntry)
    requires
        diff_entry_ok(a, b, k, e),
    ensures
        entry_key(e) == k,
{
    let s = if snapshot_keys(a).contains(k) {
        a
    } else {
        b
    };
    let i = choose|i: int|
        #[trigger] first_of_sum(s, s.installations@.len() as int, k, i) && e.software_name@
            == s.installations@[i].software_name@ && e.publisher@ == s.installations@[i].publisher@;
    assert(install_key(s.installations@[i]) == k);
}

proof fn lemma_list_keys(
    a: InventorySnapshot,
    b: InventorySnapshot,
    list: Seq<DiffEntry>,
    ks: Seq<Seq<char>>,
    kind: DiffKind,
)
    requires
        diff_list_ok(a, b, list, ks, kind),
    ensures
        forall|k: Seq<char>| #[trigger] lists_key(list, k) <==> diff_keys(a, b, kind).contains(k),
{
    assert forall|k: Seq<char>| #[trigger] lists_key(list, k) <==> diff_keys(a, b, kind).contains(k) by {
        if lists_key(list, k) {
            let j = choose|j: int| 0 <= j < list.len() && entry_key(#[trigger] list[j]) == k;
            lemma_entry_key(a, b, ks[j], list[j]);
            assert(ks.contains(ks[j]));
        }
        if diff_keys(a, b, kind).contains(k) {
            assert(ks.contains(k));
            let j = choose|j: int| 0 <= j < ks.len() && ks[j] == k;
            lemma_entry_key(a, b, ks[j], list[j]);
            assert(entry_key(list[j]) == k);
        }
    }
}

/// Comparing a snapshot with itself finds nothing added, removed or changed.
pub proof fn lemma_compare_with_itself(a: InventorySnapshot, d: SnapshotDiff)
    requires
        snapshot_diff_ok(a, a, d),
    ensures
        d.added@.len() == 0,
        d.removed@.len() == 0,
        d.changed@.len() == 0,
{
    let k1 = choose|ks: Seq<Seq<char>>| #[trigger] diff_list_ok(a, a, d.added@, ks, DiffKind::Added);
    let k2 = choose|ks: Seq<Seq<char>>| #[trigger] diff_list_ok(a, a, d.removed@, ks, DiffKind::Removed);
    let k3 = choose|ks: Seq<Seq<char>>| #[trigger] diff_list_ok(a, a, d.changed@, ks, DiffKind::Changed);
    if d.added@.len() > 0 {
        assert(k1.contains(k1[0]));
        assert(!diff_keys(a, a, DiffKind::Added).contains(k1[0]));
    }
    if d.removed@.len() > 0 {
        assert(k2.contains(k2[0]));
        assert(!diff_keys(a, a, DiffKind::Removed).contains(k2[0]));
    }
    if d.changed@.len() > 0 {
        let k = k3[0];
        assert(k3.contains(k));
        assert(diff_keys(a, a, DiffKind::Changed).contains(k));
        assert(!software_changed(a, a, k));
        assert(!snapshot_keys(a).intersect(snapshot_keys(a)).filter(|x: Seq<char>| software_changed(a, a, x)).contains(k));
    }
}

/// What a comparison of `a` with `b` lists as added, the comparison of `b` with
/// `a` lists as removed, and the other way round; the changed software is the
/// same either way.
pub proof fn lemma_compare_reversed(a: InventorySnapshot, b: InventorySnapshot, d1: SnapshotDiff, d2: SnapshotDiff)
    requires
        snapshot_diff_ok(a, b, d1),
        snapshot_diff_ok(b, a, d2),
    ensures
        forall|k: Seq<char>| #[trigger] lists_key(d1.added@, k) <==> lists_key(d2.removed@, k),
        forall|k: Seq<char>| #[trigger] lists_key(d1.removed@, k) <==> lists_key(d2.added@, k),
        forall|k: Seq<char>| #[trigger] lists_key(d1.changed@, k) <==> lists_key(d2.changed@, k),
{
    let a1 = choose|ks: Seq<Seq<char>>| #[trigger] diff_list_ok(a, b, d1.added@, ks, DiffKind::Added);
    let r1 = choose|ks: Seq<Seq<char>>| #[trigger] diff_list_ok(a, b, d1.removed@, ks, DiffKind::Removed);
    let c1 = choose|ks: Seq<Seq<char>>| #[trigger] diff_list_ok(a, b, d1.changed@, ks, DiffKind::Changed);
    let a2 = choose|ks: Seq<Seq<char>>| #[trigger] diff_list_ok(b, a, d2.added@, ks, DiffKind::Added);
    let r2 = choose|ks: Seq<Seq<char>>| #[trigger] diff_list_ok(b, a, d2.removed@, ks, DiffKind::Removed);
    let c2 = choose|ks: Seq<Seq<char>>| #[trigger] diff_list_ok(b, a, d2.changed@, ks, DiffKind::Changed);
    lemma_list_keys(a, b, d1.added@, a1, DiffKind::Added);
    lemma_list_keys(a, b, d1.removed@, r1, DiffKind::Removed);
    lemma_list_keys(a, b, d1.changed@, c1, DiffKind::Changed);
    lemma_list_keys(b, a, d2.added@, a2, DiffKind::Added);
    lemma_list_keys(b, a, d2.removed@, r2, DiffKind::Removed);
    lemma_list_keys(b, a, d2.changed@, c2, DiffKind::Changed);
    assert forall|k: Seq<char>| #[trigger] lists_key(d1.changed@, k) <==> lists_key(d2.changed@, k) by {
        assert(software_changed(a, b, k) == software_changed(b, a, k));
    }
}

/// Software found in both snapshots is listed as changed exactly when its number of
/// computers differs or its set of non-blank version names differs, so a new
/// version on the same computers is reported too.
pub proof fn lemma_changed_when_hosts_or_versions_differ(
    a: InventorySnapshot,
    b: InventorySnapshot,
    d: SnapshotDiff,
    k: Seq<char>,
)
    requires
        snapshot_diff_ok(a, b, d),
        snapshot_keys(a).contains(k),
        snapshot_keys(b).contains(k),
    ensures
        lists_key(d.changed@, k) <==> (sum_hosts(a, a.installations@.len() as int, k).len() != sum_hosts(
            b,
            b.installations@.len() as int,
            k,
        ).len() || sum_versions(a, a.installations@.len() as int, k) != sum_versions(
            b,
            b.installations@.len() as int,
            k,
        )),
{
    let c = choose|ks: Seq<Seq<char>>| #[trigger] diff_list_ok(a, b, d.changed@, ks, DiffKind::Changed);
    lemma_list_keys(a, b, d.changed@, c, DiffKind::Changed);
    assert(lists_key(d.changed@, k) == diff_keys(a, b, DiffKind::Changed).contains(k));
}

/// Software is listed as added exactly when only the second snapshot has it, and
/// as removed exactly when only the first has it.
pub proof fn lemma_added_removed_by_presence(a: InventorySnapshot, b: InventorySnapshot, d: SnapshotDiff, k: Seq<char>)
    requires
        snapshot_diff_ok(a, b, d),
    ensures
        lists_key(d.added@, k) <==> (snapshot_keys(b).contains(k) && !snapshot_keys(a).contains(k)),
        lists_key(d.removed@, k) <==> (snapshot_keys(a).contains(k) && !snapshot_keys(b).contains(k)),
        lists_key(d.changed@, k) ==> (snapshot_keys(a).contains(k) && snapshot_keys(b).contains(k)),
{
    let ad = choose|ks: Seq<Seq<char>>| #[trigger] diff_list_ok(a, b, d.added@, ks, DiffKind::Added);
    let rm = choose|ks: Seq<Seq<char>>| #[trigger] diff_list_ok(a, b, d.removed@, ks, DiffKind::Removed);
    let ch = choose|ks: Seq<Seq<char>>| #[trigger] diff_list_ok(a, b, d.changed@, ks, DiffKind::Changed);
    lemma_list_keys(a, b, d.added@, ad, DiffKind::Added);
    lemma_list_keys(a, b, d.removed@, rm, DiffKind::Removed);
    lemma_list_keys(a, b, d.changed@, ch, DiffKind::Changed);
    assert(lists_key(d.added@, k) == diff_keys(a, b, DiffKind::Added).contains(k));
    assert(lists_key(d.removed@, k) == diff_keys(a, b, DiffKind::Removed).contains(k));
    assert(lists_key(d.changed@, k) == diff_keys(a, b, DiffKind::Changed).contains(k));
}

} // verus!
