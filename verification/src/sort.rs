//! Sorting pairs of integers.
//!
//! Everything the library orders (values by rank, rows by seed, levels by
//! encoding) is first written as a pair of integers; the order of pairs is the
//! lexicographic one.
use vstd::multiset::Multiset;
use vstd::prelude::*;
use vstd::relations::*;
use vstd::seq_lib::*;

verus! {

/// The lexicographic order on pairs.
pub open spec fn pair_le(a: (u64, u64), b: (u64, u64)) -> bool {
    a.0 < b.0 || (a.0 == b.0 && a.1 <= b.1)
}

/// `s` in ascending order.
pub open spec fn sorted_pairs(s: Seq<(u64, u64)>) -> Seq<(u64, u64)> {
    s.sort_by(|a: (u64, u64), b: (u64, u64)| pair_le(a, b))
}

/// Whether `s` ascends.
pub open spec fn ascending(s: Seq<(u64, u64)>) -> bool {
    forall|i: int, j: int| 0 <= i < j < s.len() ==> pair_le(#[trigger] s[i], #[trigger] s[j])
}

/// A sequence that ascends and holds the same items is the sorted one.
pub proof fn lemma_is_sorted_pairs(s: Seq<(u64, u64)>, t: Seq<(u64, u64)>)
    requires
        ascending(t),
        t.to_multiset() == s.to_multiset(),
    ensures
        t == sorted_pairs(s),
{
    let le = |a: (u64, u64), b: (u64, u64)| pair_le(a, b);
    assert(total_ordering(le));
    s.lemma_sort_by_ensures(le);
    assert(sorted_by(t, le));
    lemma_sorted_unique(t, sorted_pairs(s), le);
}

/// What the sorted sequence is: the same items in ascending order.
pub proof fn lemma_sorted_pairs(s: Seq<(u64, u64)>)
    ensures
        ascending(sorted_pairs(s)),
        sorted_pairs(s).to_multiset() == s.to_multiset(),
        sorted_pairs(s).len() == s.len(),
{
    let le = |a: (u64, u64), b: (u64, u64)| pair_le(a, b);
    assert(total_ordering(le));
    s.lemma_sort_by_ensures(le);
    let t = sorted_pairs(s);
    assert forall|i: int, j: int| 0 <= i < j < t.len() implies pair_le(
        #[trigger] t[i],
        #[trigger] t[j],
    ) by {
        assert(le(t[i], t[j]));
    }
    s.to_multiset_ensures();
    t.to_multiset_ensures();
}

/// What is in the sorted sequence was in the unsorted one, and the other way
/// round.
pub proof fn lemma_sorted_members(s: Seq<(u64, u64)>)
    ensures
        forall|x: (u64, u64)| #[trigger] sorted_pairs(s).contains(x) <==> s.contains(x),
        forall|j: int| 0 <= j < s.len() ==> s.contains(#[trigger] sorted_pairs(s)[j]),
{
    lemma_sorted_pairs(s);
    let t = sorted_pairs(s);
    assert forall|x: (u64, u64)| #[trigger] t.contains(x) <==> s.contains(x) by {
        to_multiset_contains(s, x);
        to_multiset_contains(t, x);
    }
    assert forall|j: int| 0 <= j < s.len() implies s.contains(#[trigger] t[j]) by {
        assert(t.contains(t[j]));
    }
}

/// Sorting does not depend on the order in which the items come.
pub proof fn law_sort_ignores_order(s: Seq<(u64, u64)>, t: Seq<(u64, u64)>)
    requires
        s.to_multiset() == t.to_multiset(),
    ensures
        sorted_pairs(s) == sorted_pairs(t),
{
    lemma_sorted_pairs(s);
    lemma_is_sorted_pairs(t, sorted_pairs(s));
}

/// Merges two ascending vectors.
fn merge(a: &Vec<(u64, u64)>, b: &Vec<(u64, u64)>) -> (r: Vec<(u64, u64)>)
    requires
        ascending(a@),
        ascending(b@),
    ensures
        ascending(r@),
        r@.to_multiset() == a@.to_multiset().add(b@.to_multiset()),
{
    broadcast use group_to_multiset_ensures;

    let mut r: Vec<(u64, u64)> = Vec::with_capacity(a.len());
    let mut i: usize = 0;
    let mut j: usize = 0;
    proof {
        assert(a@.take(0) =~= Seq::<(u64, u64)>::empty());
        assert(b@.take(0) =~= Seq::<(u64, u64)>::empty());
        assert(r@.to_multiset() =~= a@.take(0).to_multiset().add(b@.take(0).to_multiset()));
    }
    while i < a.len() || j < b.len()
        invariant
            i <= a.len(),
            j <= b.len(),
            ascending(a@),
            ascending(b@),
            ascending(r@),
            r@.to_multiset() == a@.take(i as int).to_multiset().add(b@.take(j as int).to_multiset()),
            forall|k: int, l: int|
                0 <= k < r@.len() && i <= l < a@.len() ==> pair_le(#[trigger] r@[k], #[trigger] a@[l]),
            forall|k: int, l: int|
                0 <= k < r@.len() && j <= l < b@.len() ==> pair_le(#[trigger] r@[k], #[trigger] b@[l]),
        decreases a.len() - i + b.len() - j,
    {
        broadcast use group_to_multiset_ensures;

        let from_a: bool = if i >= a.len() {
            false
        } else if j >= b.len() {
            true
        } else {
            a[i].0 < b[j].0 || (a[i].0 == b[j].0 && a[i].1 <= b[j].1)
        };
        if from_a {
            proof {
                assert(a@.take(i + 1) =~= a@.take(i as int).push(a@[i as int]));
                assert(r@.push(a@[i as int]).to_multiset() =~= a@.take(i + 1).to_multiset().add(
                    b@.take(j as int).to_multiset(),
                ));
            }
            r.push(a[i]);
            i = i + 1;
        } else {
            proof {
                assert(b@.take(j + 1) =~= b@.take(j as int).push(b@[j as int]));
                assert(r@.push(b@[j as int]).to_multiset() =~= a@.take(i as int).to_multiset().add(
                    b@.take(j + 1).to_multiset(),
                ));
            }
            r.push(b[j]);
            j = j + 1;
        }
    }
    proof {
        assert(a@.take(a@.len() as int) =~= a@);
        assert(b@.take(b@.len() as int) =~= b@);
    }
    r
}

/// Sorts pairs in ascending order.
pub fn sort_pairs(v: Vec<(u64, u64)>) -> (r: Vec<(u64, u64)>)
    ensures
        r@ == sorted_pairs(v@),
        r@.len() == v@.len(),
        ascending(r@),
        r@.to_multiset() == v@.to_multiset(),
    decreases v@.len(),
{
    broadcast use group_to_multiset_ensures;

    let ghost whole = v@;
    let mut left = v;
    let n: usize = left.len();
    if n <= 1 {
        proof {
            lemma_is_sorted_pairs(whole, whole);
        }
        return left;
    }
    let right = left.split_off(n / 2);
    proof {
        assert(whole =~= left@ + right@);
        lemma_multiset_commutative(left@, right@);
    }
    let a = sort_pairs(left);
    let b = sort_pairs(right);
    let r = merge(&a, &b);
    proof {
        lemma_is_sorted_pairs(whole, r@);
        lemma_sorted_pairs(whole);
    }
    r
}

} // verus!
