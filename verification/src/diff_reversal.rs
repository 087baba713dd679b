//! Comparing two snapshots the other way round: row by row, the lists trade
//! places and every row trades its two sides.
use crate::models::{DiffEntry, InventorySnapshot, SnapshotDiff};
use crate::snapshot_diff::{
    diff_entry_ok, diff_keys, diff_list_ok, diff_metric, first_of_sum, in_sum_group, names_from, snapshot_diff_ok,
    snapshot_keys, sum_hosts, sum_versions, DiffKind,
};
use crate::sorted_texts::{has_text, lists_set, texts};
use crate::text::{lemma_text_lt_asymmetric, lemma_text_lt_irreflexive, text_lt};
use vstd::prelude::*;

verus! {

/// Keys ordered by a measure, largest first, equal measures by key.
pub open spec fn key_order(m: spec_fn(Seq<char>) -> int, k1: Seq<char>, k2: Seq<char>) -> bool {
    m(k1) > m(k2) || (m(k1) == m(k2) && text_lt(k1, k2))
}

pub open spec fn ordered_keys(m: spec_fn(Seq<char>) -> int, s: Seq<Seq<char>>) -> bool {
    forall|i: int, j: int| 0 <= i < j < s.len() ==> key_order(m, #[trigger] s[i], #[trigger] s[j])
}

/// Two lists of keys in the same strict order, holding the same keys, are the
/// same list.
proof fn lemma_ordered_unique(m: spec_fn(Seq<char>) -> int, s1: Seq<Seq<char>>, s2: Seq<Seq<char>>)
    requires
        ordered_keys(m, s1),
        ordered_keys(m, s2),
        forall|k: Seq<char>| s1.contains(k) <==> s2.contains(k),
    ensures
        s1 == s2,
    decreases s1.len(),
{
    if s1.len() == 0 {
        if s2.len() > 0 {
            assert(s2.contains(s2[0]));
        }
        assert(s1 =~= s2);
    } else if s2.len() == 0 {
        assert(s1.contains(s1[0]));
    } else {
        let h1 = s1[0];
        let h2 = s2[0];
        if h1 != h2 {
            assert(s1.contains(h1));
            let j = choose|j: int| 0 <= j < s2.len() && s2[j] == h1;
            assert(s2.contains(h2));
            let i = choose|i: int| 0 <= i < s1.len() && s1[i] == h2;
            assert(j > 0 && i > 0);
            assert(key_order(m, s2[0], s2[j]));
            assert(key_order(m, s1[0], s1[i]));
            if m(h1) == m(h2) {
                lemma_text_lt_asymmetric(h1, h2);
            }
            assert(false);
        }
        let t1 = s1.subrange(1, s1.len() as int);
        let t2 = s2.subrange(1, s2.len() as int);
        assert forall|i: int, j: int| 0 <= i < j < t1.len() implies key_order(m, #[trigger] t1[i], #[trigger] t1[j]) by {
            assert(t1[i] == s1[i + 1] && t1[j] == s1[j + 1]);
        }
        assert forall|i: int, j: int| 0 <= i < j < t2.len() implies key_order(m, #[trigger] t2[i], #[trigger] t2[j]) by {
            assert(t2[i] == s2[i + 1] && t2[j] == s2[j + 1]);
        }
        assert forall|k: Seq<char>| t1.contains(k) <==> t2.contains(k) by {
            if t1.contains(k) {
                let i = choose|i: int| 0 <= i < t1.len() && t1[i] == k;
                assert(s1[i + 1] == k);
                assert(key_order(m, s1[0], s1[i + 1]));
                lemma_text_lt_irreflexive(k);
                assert(k != h1);
                assert(s1.contains(k));
                let j = choose|j: int| 0 <= j < s2.len() && s2[j] == k;
                assert(j != 0);
                assert(t2[j - 1] == k);
            }
            if t2.contains(k) {
                let i = choose|i: int| 0 <= i < t2.len() && t2[i] == k;
                assert(s2[i + 1] == k);
                assert(key_order(m, s2[0], s2[i + 1]));
                lemma_text_lt_irreflexive(k);
                assert(k != h2);
                assert(s2.contains(k));
                let j = choose|j: int| 0 <= j < s1.len() && s1[j] == k;
                assert(j != 0);
                assert(t1[j - 1] == k);
            }
        }
        lemma_ordered_unique(m, t1, t2);
        assert(s1 =~= seq![h1] + t1);
        assert(s2 =~= seq![h2] + t2);
    }
}

/// Two increasing lists of texts listing the same set have the same texts.
proof fn lemma_listing_unique(x: Seq<String>, y: Seq<String>, set: Set<Seq<char>>)
    requires
        lists_set(x, set),
        lists_set(y, set),
    ensures
        texts(x) == texts(y),
{
    let m = |k: Seq<char>| 0int;
    let tx = texts(x);
    let ty = texts(y);
    assert forall|i: int, j: int| 0 <= i < j < tx.len() implies key_order(m, #[trigger] tx[i], #[trigger] tx[j]) by {
        assert(text_lt(tx[i], tx[j]));
    }
    assert forall|i: int, j: int| 0 <= i < j < ty.len() implies key_order(m, #[trigger] ty[i], #[trigger] ty[j]) by {
        assert(text_lt(ty[i], ty[j]));
    }
    assert forall|k: Seq<char>| tx.contains(k) <==> ty.contains(k) by {
        if tx.contains(k) {
            let i = choose|i: int| 0 <= i < tx.len() && tx[i] == k;
            assert(x[i]@ == k);
            assert(has_text(x, k));
            assert(set.contains(k));
            assert(has_text(y, k));
            let j = choose|j: int| 0 <= j < y.len() && #[trigger] y[j]@ == k;
            assert(ty[j] == k);
        }
        if ty.contains(k) {
            let i = choose|i: int| 0 <= i < ty.len() && ty[i] == k;
            assert(y[i]@ == k);
            assert(has_text(y, k));
            assert(set.contains(k));
            assert(has_text(x, k));
            let j = choose|j: int| 0 <= j < x.len() && #[trigger] x[j]@ == k;
            assert(tx[j] == k);
        }
    }
    lemma_ordered_unique(m, tx, ty);
}

/// The two rows trade sides: host counts and versions swapped.
pub open spec fn swapped(e1: DiffEntry, e2: DiffEntry) -> bool {
    &&& e2.hosts_a == e1.hosts_b
    &&& e2.hosts_b == e1.hosts_a
    &&& texts(e2.versions_a@) == texts(e1.versions_b@)
    &&& texts(e2.versions_b@) == texts(e1.versions_a@)
}

/// The two rows also show the same name and publisher.
pub open spec fn mirrored(e1: DiffEntry, e2: DiffEntry) -> bool {
    &&& swapped(e1, e2)
    &&& e2.software_name@ == e1.software_name@
    &&& e2.publisher@ == e1.publisher@
}

proof fn lemma_names_unique(s: InventorySnapshot, k: Seq<char>, n1: Seq<char>, p1: Seq<char>, n2: Seq<char>, p2: Seq<char>)
    requires
        names_from(s, k, n1, p1),
        names_from(s, k, n2, p2),
    ensures
        n1 == n2 && p1 == p2,
{
    let n = s.installations@.len() as int;
    let i1 = choose|i: int|
        #[trigger] first_of_sum(s, n, k, i) && n1 == s.installations@[i].software_name@ && p1 == s.installations@[i].publisher@;
    let i2 = choose|i: int|
        #[trigger] first_of_sum(s, n, k, i) && n2 == s.installations@[i].software_name@ && p2 == s.installations@[i].publisher@;
    if i1 < i2 {
        assert(!in_sum_group(s, n, k, i1));
    }
    if i2 < i1 {
        assert(!in_sum_group(s, n, k, i2));
    }
}

/// A row of `a` against `b` and a row of `b` against `a` for the same software.
proof fn lemma_entry_swap(a: InventorySnapshot, b: InventorySnapshot, k: Seq<char>, e1: DiffEntry, e2: DiffEntry)
    requires
        diff_entry_ok(a, b, k, e1),
        diff_entry_ok(b, a, k, e2),
    ensures
        swapped(e1, e2),
        !(snapshot_keys(a).contains(k) && snapshot_keys(b).contains(k)) ==> mirrored(e1, e2),
{
    let na = a.installations@.len() as int;
    let nb = b.installations@.len() as int;
    lemma_listing_unique(e1.versions_a@, e2.versions_b@, sum_versions(a, na, k));
    lemma_listing_unique(e1.versions_b@, e2.versions_a@, sum_versions(b, nb, k));
    if !snapshot_keys(a).contains(k) {
        lemma_names_unique(b, k, e1.software_name@, e1.publisher@, e2.software_name@, e2.publisher@);
    } else if !snapshot_keys(b).contains(k) {
        lemma_names_unique(a, k, e1.software_name@, e1.publisher@, e2.software_name@, e2.publisher@);
    }
}

/// Two lists of one comparison direction each, over the same keys and ordered
/// by the same measure, match row by row.
proof fn lemma_lists_match(
    a: InventorySnapshot,
    b: InventorySnapshot,
    l1: Seq<DiffEntry>,
    ks1: Seq<Seq<char>>,
    kind1: DiffKind,
    l2: Seq<DiffEntry>,
    ks2: Seq<Seq<char>>,
    kind2: DiffKind,
    m: spec_fn(Seq<char>) -> int,
)
    requires
        diff_list_ok(a, b, l1, ks1, kind1),
        diff_list_ok(b, a, l2, ks2, kind2),
        diff_keys(a, b, kind1) == diff_keys(b, a, kind2),
        forall|j: int| 0 <= j < l1.len() ==> diff_metric(kind1, #[trigger] l1[j]) == m(ks1[j]),
        forall|j: int| 0 <= j < l2.len() ==> diff_metric(kind2, #[trigger] l2[j]) == m(ks2[j]),
    ensures
        l1.len() == l2.len(),
        ks1 == ks2,
        forall|i: int| 0 <= i < l1.len() ==> swapped(#[trigger] l1[i], l2[i]),
        forall|i: int|
            0 <= i < l1.len() && !(snapshot_keys(a).contains(ks1[i]) && snapshot_keys(b).contains(ks1[i])) ==> mirrored(
                #[trigger] l1[i],
                l2[i],
            ),
{
    assert forall|i: int, j: int| 0 <= i < j < ks1.len() implies key_order(m, #[trigger] ks1[i], #[trigger] ks1[j]) by {
        assert(diff_metric(kind1, l1[i]) > diff_metric(kind1, l1[j]) || (diff_metric(kind1, l1[i]) == diff_metric(
            kind1,
            l1[j],
        ) && text_lt(ks1[i], ks1[j])));
    }
    assert forall|i: int, j: int| 0 <= i < j < ks2.len() implies key_order(m, #[trigger] ks2[i], #[trigger] ks2[j]) by {
        assert(diff_metric(kind2, l2[i]) > diff_metric(kind2, l2[j]) || (diff_metric(kind2, l2[i]) == diff_metric(
            kind2,
            l2[j],
        ) && text_lt(ks2[i], ks2[j])));
    }
    assert forall|k: Seq<char>| ks1.contains(k) <==> ks2.contains(k) by {
        assert(diff_keys(a, b, kind1).contains(k) <==> ks1.contains(k));
        assert(diff_keys(b, a, kind2).contains(k) <==> ks2.contains(k));
    }
    lemma_ordered_unique(m, ks1, ks2);
    assert forall|i: int| 0 <= i < l1.len() implies swapped(#[trigger] l1[i], l2[i]) && (!(snapshot_keys(a).contains(
        ks1[i],
    ) && snapshot_keys(b).contains(ks1[i])) ==> mirrored(l1[i], l2[i])) by {
        lemma_entry_swap(a, b, ks1[i], l1[i], l2[i]);
    }
}

/// Comparing `b` with `a` gives, row by row, what comparing `a` with `b` gives
/// with the sides traded: its removed list is the other's added list and the
/// other way round, each row with the same name and publisher and its host
/// counts and versions swapped; its changed list has the same length, the rows
/// in the same order with host counts and versions swapped.
pub proof fn lemma_compare_reversed_rows(a: InventorySnapshot, b: InventorySnapshot, d1: SnapshotDiff, d2: SnapshotDiff)
    requires
        snapshot_diff_ok(a, b, d1),
        snapshot_diff_ok(b, a, d2),
    ensures
        d2.removed@.len() == d1.added@.len(),
        forall|i: int| 0 <= i < d1.added@.len() ==> mirrored(#[trigger] d1.added@[i], d2.removed@[i]),
        d2.added@.len() == d1.removed@.len(),
        forall|i: int| 0 <= i < d1.removed@.len() ==> mirrored(#[trigger] d1.removed@[i], d2.added@[i]),
        d2.changed@.len() == d1.changed@.len(),
        forall|i: int| 0 <= i < d1.changed@.len() ==> swapped(#[trigger] d1.changed@[i], d2.changed@[i]),
{
    let na = a.installations@.len() as int;
    let nb = b.installations@.len() as int;
    let a1 = choose|ks: Seq<Seq<char>>| #[trigger] diff_list_ok(a, b, d1.added@, ks, DiffKind::Added);
    let r1 = choose|ks: Seq<Seq<char>>| #[trigger] diff_list_ok(a, b, d1.removed@, ks, DiffKind::Removed);
    let c1 = choose|ks: Seq<Seq<char>>| #[trigger] diff_list_ok(a, b, d1.changed@, ks, DiffKind::Changed);
    let a2 = choose|ks: Seq<Seq<char>>| #[trigger] diff_list_ok(b, a, d2.added@, ks, DiffKind::Added);
    let r2 = choose|ks: Seq<Seq<char>>| #[trigger] diff_list_ok(b, a, d2.removed@, ks, DiffKind::Removed);
    let c2 = choose|ks: Seq<Seq<char>>| #[trigger] diff_list_ok(b, a, d2.changed@, ks, DiffKind::Changed);
    let in_b = |k: Seq<char>| sum_hosts(b, nb, k).len() as int;
    let in_a = |k: Seq<char>| sum_hosts(a, na, k).len() as int;
    let delta = |k: Seq<char>|
        if sum_hosts(b, nb, k).len() >= sum_hosts(a, na, k).len() {
            sum_hosts(b, nb, k).len() - sum_hosts(a, na, k).len()
        } else {
            sum_hosts(a, na, k).len() - sum_hosts(b, nb, k).len()
        };
    assert(diff_keys(a, b, DiffKind::Added) =~= diff_keys(b, a, DiffKind::Removed));
    assert(diff_keys(a, b, DiffKind::Removed) =~= diff_keys(b, a, DiffKind::Added));
    assert(diff_keys(a, b, DiffKind::Changed) =~= diff_keys(b, a, DiffKind::Changed)) by {
        assert forall|k: Seq<char>| diff_keys(a, b, DiffKind::Changed).contains(k) <==> diff_keys(
            b,
            a,
            DiffKind::Changed,
        ).contains(k) by {
            assert(crate::snapshot_diff::software_changed(a, b, k) == crate::snapshot_diff::software_changed(b, a, k));
        }
    }
    assert forall|j: int| 0 <= j < d1.added@.len() implies diff_metric(DiffKind::Added, #[trigger] d1.added@[j]) == in_b(
        a1[j],
    ) by {
        assert(diff_entry_ok(a, b, a1[j], d1.added@[j]));
    }
    assert forall|j: int| 0 <= j < d2.removed@.len() implies diff_metric(DiffKind::Removed, #[trigger] d2.removed@[j])
        == in_b(r2[j]) by {
        assert(diff_entry_ok(b, a, r2[j], d2.removed@[j]));
    }
    lemma_lists_match(a, b, d1.added@, a1, DiffKind::Added, d2.removed@, r2, DiffKind::Removed, in_b);
    assert forall|i: int| 0 <= i < d1.added@.len() implies mirrored(#[trigger] d1.added@[i], d2.removed@[i]) by {
        assert(a1.contains(a1[i]));
        assert(diff_keys(a, b, DiffKind::Added).contains(a1[i]));
    }
    assert forall|j: int| 0 <= j < d1.removed@.len() implies diff_metric(DiffKind::Removed, #[trigger] d1.removed@[j])
        == in_a(r1[j]) by {
        assert(diff_entry_ok(a, b, r1[j], d1.removed@[j]));
    }
    assert forall|j: int| 0 <= j < d2.added@.len() implies diff_metric(DiffKind::Added, #[trigger] d2.added@[j]) == in_a(
        a2[j],
    ) by {
        assert(diff_entry_ok(b, a, a2[j], d2.added@[j]));
    }
    lemma_lists_match(a, b, d1.removed@, r1, DiffKind::Removed, d2.added@, a2, DiffKind::Added, in_a);
    assert forall|i: int| 0 <= i < d1.removed@.len() implies mirrored(#[trigger] d1.removed@[i], d2.added@[i]) by {
        assert(r1.contains(r1[i]));
        assert(diff_keys(a, b, DiffKind::Removed).contains(r1[i]));
    }
    assert forall|j: int| 0 <= j < d1.changed@.len() implies diff_metric(DiffKind::Changed, #[trigger] d1.changed@[j])
        == delta(c1[j]) by {
        assert(diff_entry_ok(a, b, c1[j], d1.changed@[j]));
    }
    assert forall|j: int| 0 <= j < d2.changed@.len() implies diff_metric(DiffKind::Changed, #[trigger] d2.changed@[j])
        == delta(c2[j]) by {
        assert(diff_entry_ok(b, a, c2[j], d2.changed@[j]));
    }
    lemma_lists_match(a, b, d1.changed@, c1, DiffKind::Changed, d2.changed@, c2, DiffKind::Changed, delta);
}

} // verus!
