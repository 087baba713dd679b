//! Stable insertion sort under a strict order.
use vstd::prelude::*;

verus! {

/// `r` never places an element after one it is strictly less than.
pub open spec fn sorted_by<T>(r: Seq<T>, lt: spec_fn(T, T) -> bool) -> bool {
    forall|i: int, j: int| 0 <= i < j < r.len() ==> !lt(#[trigger] r[j], #[trigger] r[i])
}

pub open spec fn strict_order<T>(lt: spec_fn(T, T) -> bool) -> bool {
    &&& forall|a: T, b: T, c: T| #[trigger] lt(a, b) && #[trigger] lt(b, c) ==> lt(a, c)
    &&& forall|a: T, b: T| #[trigger] lt(a, b) ==> !lt(b, a)
}

/// `p` is a permutation of the positions `0..n`.
pub open spec fn is_permutation(p: Seq<int>, n: int) -> bool {
    &&& p.len() == n
    &&& forall|i: int| 0 <= i < n ==> 0 <= #[trigger] p[i] < n
    &&& forall|i: int, j: int| 0 <= i < j < n ==> #[trigger] p[i] != #[trigger] p[j]
}

/// `r` holds the elements of `v` rearranged by the permutation `p`.
pub open spec fn rearranged<T>(r: Seq<T>, v: Seq<T>, p: Seq<int>) -> bool {
    &&& is_permutation(p, v.len() as int)
    &&& r.len() == v.len()
    &&& forall|i: int| 0 <= i < r.len() ==> #[trigger] r[i] == v[p[i]]
}

/// A permutation of `0..n` reaches every position.
pub proof fn lemma_permutation_onto(p: Seq<int>, n: int, j: int)
    requires
        is_permutation(p, n),
        0 <= j < n,
    ensures
        exists|i: int| 0 <= i < n && p[i] == j,
{
    let s = vstd::set_lib::set_int_range(0, n);
    let img = p.to_set();
    vstd::set_lib::lemma_int_range(0, n);
    assert(p.no_duplicates()) by {
        assert forall|a: int, b: int| 0 <= a < p.len() && 0 <= b < p.len() && a != b implies p[a]
            != p[b] by {
            if a < b {
                assert(p[a] != p[b]);
            } else {
                assert(p[b] != p[a]);
            }
        }
    }
    p.unique_seq_to_set();
    if !img.contains(j) {
        assert(img.subset_of(s.remove(j))) by {
            assert forall|x: int| img.contains(x) implies s.remove(j).contains(x) by {
                let i = choose|i: int| 0 <= i < p.len() && p[i] == x;
            }
        }
        assert(s.contains(j));
        vstd::set_lib::lemma_len_subset(img, s.remove(j));
        assert(false);
    }
    assert(p.contains(j));
}

/// Sorts `v` by the strict order `slt`, computed by `lt`; elements that neither
/// precedes keep their order. Also hands back which input position each output
/// position holds.
pub fn sort_by_lt<T, F: Fn(&T, &T) -> bool>(v: Vec<T>, lt: F, Ghost(slt): Ghost<
    spec_fn(T, T) -> bool,
>) -> (r: (Vec<T>, Ghost<Seq<int>>))
    requires
        forall|a: &T, b: &T| #[trigger] lt.requires((a, b)),
        forall|a: &T, b: &T, x: bool| #[trigger] lt.ensures((a, b), x) ==> x == slt(*a, *b),
        strict_order(slt),
    ensures
        rearranged(r.0@, v@, r.1@),
        sorted_by(r.0@, slt),
{
    let ghost orig = v@;
    let mut src = v;
    let mut out: Vec<T> = Vec::new();
    let ghost mut p: Seq<int> = Seq::empty();
    let ghost mut m: int = 0;
    while src.len() > 0
        invariant
            0 <= m <= orig.len(),
            src@ == orig.skip(m),
            out@.len() == m,
            p.len() == m,
            forall|i: int| 0 <= i < m ==> 0 <= #[trigger] p[i] < m,
            forall|i: int, j: int| 0 <= i < j < m ==> #[trigger] p[i] != #[trigger] p[j],
            forall|i: int| 0 <= i < m ==> #[trigger] out@[i] == orig[p[i]],
            sorted_by(out@, slt),
            forall|a: &T, b: &T| #[trigger] lt.requires((a, b)),
            forall|a: &T, b: &T, x: bool| #[trigger] lt.ensures((a, b), x) ==> x == slt(*a, *b),
            strict_order(slt),
        decreases src.len(),
    {
        let ghost before = src@;
        let x = src.remove(0);
        assert(x == orig[m]);
        assert(src@ =~= orig.skip(m + 1));
        let mut k: usize = 0;
        while k < out.len() && !lt(&x, &out[k])
            invariant
                k <= out@.len(),
                forall|i: int| 0 <= i < k ==> !slt(x, #[trigger] out@[i]),
                forall|a: &T, b: &T| #[trigger] lt.requires((a, b)),
                forall|a: &T, b: &T, x: bool| #[trigger] lt.ensures((a, b), x) ==> x == slt(
                    *a,
                    *b,
                ),
            decreases out.len() - k,
        {
            k = k + 1;
        }
        let ghost old_out = out@;
        let ghost old_p = p;
        proof {
            if k < old_out.len() {
                assert(slt(x, old_out[k as int]));
            }
        }
        out.insert(k, x);
        proof {
            p = old_p.insert(k as int, m);
            assert(out@ == old_out.insert(k as int, x));
            assert forall|i: int, j: int| 0 <= i < j < out@.len() implies !slt(
                #[trigger] out@[j],
                #[trigger] out@[i],
            ) by {
                if j < k {
                    assert(out@[i] == old_out[i] && out@[j] == old_out[j]);
                } else if j == k {
                    assert(out@[i] == old_out[i]);
                } else if i == k {
                    assert(out@[j] == old_out[j - 1]);
                    if slt(old_out[j - 1], x) {
                        if j - 1 == k {
                        } else {
                            assert(slt(old_out[j - 1], old_out[k as int]));
                        }
                    }
                } else if i < k {
                    assert(out@[i] == old_out[i] && out@[j] == old_out[j - 1]);
                } else {
                    assert(out@[i] == old_out[i - 1] && out@[j] == old_out[j - 1]);
                }
            }
            assert forall|i: int| 0 <= i < m + 1 implies #[trigger] out@[i] == orig[p[i]] by {
                if i < k {
                    assert(out@[i] == old_out[i] && p[i] == old_p[i]);
                } else if i > k {
                    assert(out@[i] == old_out[i - 1] && p[i] == old_p[i - 1]);
                }
            }
            assert forall|i: int, j: int| 0 <= i < j < m + 1 implies #[trigger] p[i]
                != #[trigger] p[j] by {
                if i < k && j < k {
                    assert(p[i] == old_p[i] && p[j] == old_p[j]);
                } else if i < k && j > k {
                    assert(p[i] == old_p[i] && p[j] == old_p[j - 1]);
                } else if i > k && j > k {
                    assert(p[i] == old_p[i - 1] && p[j] == old_p[j - 1]);
                } else if i == k {
                    assert(p[j] == old_p[j - 1]);
                } else {
                    assert(p[i] == old_p[i]);
                }
            }
            assert forall|i: int| 0 <= i < m + 1 implies 0 <= #[trigger] p[i] < m + 1 by {
                if i < k {
                    assert(p[i] == old_p[i]);
                } else if i > k {
                    assert(p[i] == old_p[i - 1]);
                }
            }
            m = m + 1;
        }
    }
    (out, Ghost(p))
}


/// What holds of every element still holds after rearranging.
pub proof fn lemma_rearranged_all<T>(r: Seq<T>, v: Seq<T>, p: Seq<int>, pred: spec_fn(T) -> bool)
    requires
        rearranged(r, v, p),
        forall|i: int| 0 <= i < v.len() ==> pred(#[trigger] v[i]),
    ensures
        forall|i: int| 0 <= i < r.len() ==> pred(#[trigger] r[i]),
{
    assert forall|i: int| 0 <= i < r.len() implies pred(#[trigger] r[i]) by {
        assert(r[i] == v[p[i]]);
    }
}

/// Every element of `v` is found again after rearranging.
pub proof fn lemma_rearranged_onto<T>(r: Seq<T>, v: Seq<T>, p: Seq<int>, j: int)
    requires
        rearranged(r, v, p),
        0 <= j < v.len(),
    ensures
        exists|i: int| 0 <= i < r.len() && r[i] == v[j],
{
    lemma_permutation_onto(p, v.len() as int, j);
    let i = choose|i: int| 0 <= i < v.len() && p[i] == j;
    assert(r[i] == v[j]);
}

/// Elements that differ pairwise under `key` still do after rearranging.
pub proof fn lemma_rearranged_distinct<T, K>(r: Seq<T>, v: Seq<T>, p: Seq<int>, key: spec_fn(T) -> K)
    requires
        rearranged(r, v, p),
        forall|a: int, b: int| 0 <= a < b < v.len() ==> key(#[trigger] v[a]) != key(#[trigger] v[b]),
    ensures
        forall|a: int, b: int| 0 <= a < b < r.len() ==> key(#[trigger] r[a]) != key(#[trigger] r[b]),
{
    assert forall|a: int, b: int| 0 <= a < b < r.len() implies key(#[trigger] r[a]) != key(
        #[trigger] r[b],
    ) by {
        assert(r[a] == v[p[a]] && r[b] == v[p[b]]);
        assert(p[a] != p[b]);
        if p[a] < p[b] {
            assert(key(v[p[a]]) != key(v[p[b]]));
        } else {
            assert(key(v[p[b]]) != key(v[p[a]]));
        }
    }
}

} // verus!
