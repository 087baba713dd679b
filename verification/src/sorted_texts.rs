//! Lists of texts kept strictly increasing, used as ordered sets
//! (what a `BTreeSet<String>` iterates in).
use crate::text::{
    chars_lt, chars_of, lemma_text_lt_asymmetric, lemma_text_lt_irreflexive, lemma_text_lt_total,
    lemma_text_lt_transitive, text_lt,
};
use vstd::prelude::*;

verus! {

pub open spec fn strictly_sorted(s: Seq<Seq<char>>) -> bool {
    forall|i: int, j: int| 0 <= i < j < s.len() ==> text_lt(#[trigger] s[i], #[trigger] s[j])
}

/// The texts of `v`.
pub open spec fn texts(v: Seq<String>) -> Seq<Seq<char>> {
    v.map_values(|s: String| s@)
}

/// `x` is one of the texts of `v`.
pub open spec fn has_text(v: Seq<String>, x: Seq<char>) -> bool {
    exists|i: int| 0 <= i < v.len() && #[trigger] v[i]@ == x
}

/// `v` lists exactly the members of `set`, in increasing order.
pub open spec fn lists_set(v: Seq<String>, set: Set<Seq<char>>) -> bool {
    &&& strictly_sorted(texts(v))
    &&& forall|x: Seq<char>| #[trigger] set.contains(x) <==> has_text(v, x)
}

pub fn str_lt_string(a: &String, b: &String) -> (r: bool)
    ensures
        r == text_lt(a@, b@),
{
    let x = chars_of(a.as_str());
    let y = chars_of(b.as_str());
    chars_lt(x.as_slice(), y.as_slice())
}

/// Adds `x` to the increasing list `v` unless it is already there.
pub fn insert_text(v: &mut Vec<String>, x: String)
    requires
        strictly_sorted(texts(old(v)@)),
    ensures
        strictly_sorted(texts(final(v)@)),
        forall|y: Seq<char>| #[trigger] has_text(final(v)@, y) <==> (has_text(old(v)@, y) || y
            == x@),
{
    let ghost ov = old(v)@;
    let mut k: usize = 0;
    while k < v.len() && str_lt_string(&v[k], &x)
        invariant
            k <= v@.len(),
            v@ == ov,
            forall|i: int| 0 <= i < k ==> text_lt(#[trigger] v@[i]@, x@),
        decreases v.len() - k,
    {
        k = k + 1;
    }
    if k < v.len() {
        let ghost vk = v@[k as int]@;
        let same = {
            let a = chars_of(v[k].as_str());
            let b = chars_of(x.as_str());
            crate::text::chars_eq(a.as_slice(), b.as_slice())
        };
        if same {
            assert forall|y: Seq<char>| #[trigger] has_text(v@, y) <==> (has_text(ov, y) || y
                == x@) by {
                if y == x@ {
                    assert(v@[k as int]@ == y);
                }
            }
            return ;
        }
        proof {
            lemma_text_lt_total(vk, x@);
        }
    }
    let ghost old_v = v@;
    v.insert(k, x);
    proof {
        assert(v@ == old_v.insert(k as int, x));
        assert forall|i: int, j: int| 0 <= i < j < texts(v@).len() implies text_lt(
            #[trigger] texts(v@)[i],
            #[trigger] texts(v@)[j],
        ) by {
            assert(texts(v@)[i] == v@[i]@);
            assert(texts(v@)[j] == v@[j]@);
            assert(texts(old_v).len() == old_v.len());
            if j < k {
                assert(texts(old_v)[i] == old_v[i]@);
                assert(texts(old_v)[j] == old_v[j]@);
            } else if j == k {
                assert(v@[i] == old_v[i]);
            } else if i == k {
                assert(v@[j] == old_v[j - 1]);
                assert(texts(old_v)[k as int] == old_v[k as int]@);
                if j - 1 > k {
                    assert(texts(old_v)[j - 1] == old_v[j - 1]@);
                    lemma_text_lt_transitive(x@, old_v[k as int]@, old_v[j - 1]@);
                }
            } else if i < k {
                assert(v@[i] == old_v[i] && v@[j] == old_v[j - 1]);
                assert(texts(old_v)[i] == old_v[i]@);
                assert(texts(old_v)[j - 1] == old_v[j - 1]@);
            } else {
                assert(v@[i] == old_v[i - 1] && v@[j] == old_v[j - 1]);
                assert(texts(old_v)[i - 1] == old_v[i - 1]@);
                assert(texts(old_v)[j - 1] == old_v[j - 1]@);
            }
        }
        assert forall|y: Seq<char>| #[trigger] has_text(v@, y) <==> (has_text(old_v, y) || y
            == x@) by {
            if has_text(v@, y) {
                let i = choose|i: int| 0 <= i < v@.len() && #[trigger] v@[i]@ == y;
                if i < k {
                    assert(old_v[i]@ == y);
                } else if i > k {
                    assert(old_v[i - 1]@ == y);
                }
            }
            if has_text(old_v, y) {
                let i = choose|i: int| 0 <= i < old_v.len() && #[trigger] old_v[i]@ == y;
                if i < k {
                    assert(v@[i]@ == y);
                } else {
                    assert(v@[i + 1]@ == y);
                }
            }
            if y == x@ {
                assert(v@[k as int]@ == y);
            }
        }
    }
}

/// Two increasing lists hold the same texts exactly when they are equal text by text.
pub fn same_texts(a: &Vec<String>, b: &Vec<String>) -> (r: bool)
    requires
        strictly_sorted(texts(a@)),
        strictly_sorted(texts(b@)),
    ensures
        r == (forall|y: Seq<char>| has_text(a@, y) <==> has_text(b@, y)),
{
    if a.len() != b.len() {
        proof {
            lemma_sorted_same_members_same_len(a@, b@);
        }
        return false;
    }
    let mut i: usize = 0;
    while i < a.len()
        invariant
            i <= a@.len() == b@.len(),
            strictly_sorted(texts(a@)),
            strictly_sorted(texts(b@)),
            forall|k: int| 0 <= k < i ==> #[trigger] a@[k]@ == b@[k]@,
        decreases a.len() - i,
    {
        let x = chars_of(a[i].as_str());
        let y = chars_of(b[i].as_str());
        if !crate::text::chars_eq(x.as_slice(), y.as_slice()) {
            proof {
                lemma_sorted_same_members_pointwise(a@, b@, i as int);
            }
            return false;
        }
        i = i + 1;
    }
    assert forall|y: Seq<char>| has_text(a@, y) <==> has_text(b@, y) by {
        if has_text(a@, y) {
            let k = choose|k: int| 0 <= k < a@.len() && #[trigger] a@[k]@ == y;
            assert(b@[k]@ == y);
        }
        if has_text(b@, y) {
            let k = choose|k: int| 0 <= k < b@.len() && #[trigger] b@[k]@ == y;
            assert(a@[k]@ == y);
        }
    }
    true
}

/// The set of texts of a list.
pub open spec fn text_set(v: Seq<String>) -> Set<Seq<char>> {
    Set::new(|y: Seq<char>| has_text(v, y))
}

proof fn lemma_sorted_texts_no_dup(v: Seq<String>)
    requires
        strictly_sorted(texts(v)),
    ensures
        forall|i: int, j: int| 0 <= i < j < v.len() ==> #[trigger] v[i]@ != #[trigger] v[j]@,
{
    assert forall|i: int, j: int| 0 <= i < j < v.len() implies #[trigger] v[i]@
        != #[trigger] v[j]@ by {
        assert(texts(v)[i] == v[i]@);
        assert(texts(v)[j] == v[j]@);
        if v[i]@ == v[j]@ {
            lemma_text_lt_irreflexive(v[i]@);
        }
    }
}

/// The number of distinct texts in a strictly increasing list is its length.
pub proof fn lemma_text_set_len(v: Seq<String>)
    requires
        strictly_sorted(texts(v)),
    ensures
        text_set(v).finite(),
        text_set(v).len() == v.len(),
{
    lemma_sorted_texts_no_dup(v);
    let t = texts(v);
    assert(t.no_duplicates()) by {
        assert forall|i: int, j: int| 0 <= i < t.len() && 0 <= j < t.len() && i != j implies t[i]
            != t[j] by {
            assert(t[i] == v[i]@ && t[j] == v[j]@);
            if i < j {
                assert(v[i]@ != v[j]@);
            } else {
                assert(v[j]@ != v[i]@);
            }
        }
    }
    t.unique_seq_to_set();
    assert(text_set(v) =~= t.to_set()) by {
        assert forall|y: Seq<char>| text_set(v).contains(y) <==> t.to_set().contains(y) by {
            if text_set(v).contains(y) {
                let i = choose|i: int| 0 <= i < v.len() && #[trigger] v[i]@ == y;
                assert(t[i] == y);
            }
            if t.to_set().contains(y) {
                let i = choose|i: int| 0 <= i < t.len() && t[i] == y;
                assert(v[i]@ == y);
            }
        }
    }
}

proof fn lemma_sorted_same_members_same_len(a: Seq<String>, b: Seq<String>)
    requires
        strictly_sorted(texts(a)),
        strictly_sorted(texts(b)),
    ensures
        (forall|y: Seq<char>| has_text(a, y) <==> has_text(b, y)) ==> a.len() == b.len(),
{
    lemma_text_set_len(a);
    lemma_text_set_len(b);
    if forall|y: Seq<char>| has_text(a, y) <==> has_text(b, y) {
        assert(text_set(a) =~= text_set(b));
    }
}

proof fn lemma_sorted_same_members_pointwise(a: Seq<String>, b: Seq<String>, n: int)
    requires
        strictly_sorted(texts(a)),
        strictly_sorted(texts(b)),
        a.len() == b.len(),
        0 <= n < a.len(),
        forall|k: int| 0 <= k < n ==> #[trigger] a[k]@ == b[k]@,
        a[n]@ != b[n]@,
    ensures
        !(forall|y: Seq<char>| has_text(a, y) <==> has_text(b, y)),
{
    if forall|y: Seq<char>| has_text(a, y) <==> has_text(b, y) {
        lemma_text_lt_total(a[n]@, b[n]@);
        assert(texts(a)[n] == a[n]@);
        assert(texts(b)[n] == b[n]@);
        if text_lt(a[n]@, b[n]@) {
            // a[n] is in b somewhere: not before n (those equal a's smaller entries),
            // not at n, and not after n (those exceed b[n]).
            assert(has_text(a, a[n]@));
            let j = choose|j: int| 0 <= j < b.len() && #[trigger] b[j]@ == a[n]@;
            if j < n {
                assert(texts(a)[j] == a[j]@);
                assert(a[j]@ == b[j]@);
                lemma_text_lt_irreflexive(a[n]@);
            } else if j > n {
                assert(texts(b)[j] == b[j]@);
                lemma_text_lt_asymmetric(a[n]@, b[n]@);
            }
        } else {
            assert(has_text(b, b[n]@));
            let j = choose|j: int| 0 <= j < a.len() && #[trigger] a[j]@ == b[n]@;
            if j < n {
                assert(texts(b)[j] == b[j]@);
                assert(a[j]@ == b[j]@);
                lemma_text_lt_irreflexive(b[n]@);
            } else if j > n {
                assert(texts(a)[j] == a[j]@);
                lemma_text_lt_asymmetric(b[n]@, a[n]@);
            }
        }
    }
}

} // verus!
