//! Ordering and numbering text labels.
//!
//! Labels are ordered by their bytes, and equal labels by their position, so
//! that an order of positions is always unique.
use crate::error::{answers, invalid_input, Fault, PbError};
use vstd::prelude::*;
use vstd::seq_lib::*;
use vstd::string::*;
use vstd::utf8::*;

verus! {

/// The characters of each label.
pub open spec fn texts(labels: Seq<String>) -> Seq<Seq<char>> {
    labels.map_values(|s: String| s@)
}

/// Lexicographic order on bytes.
pub open spec fn bytes_lt(a: Seq<u8>, b: Seq<u8>) -> bool
    decreases a.len(),
{
    if b.len() == 0 {
        false
    } else if a.len() == 0 {
        true
    } else if a[0] != b[0] {
        a[0] < b[0]
    } else {
        bytes_lt(a.drop_first(), b.drop_first())
    }
}

/// The order of labels: that of their bytes.
pub open spec fn label_lt(a: Seq<char>, b: Seq<char>) -> bool {
    bytes_lt(encode_utf8(a), encode_utf8(b))
}

proof fn lemma_bytes_order(a: Seq<u8>, b: Seq<u8>)
    ensures
        bytes_lt(a, b) ==> !bytes_lt(b, a) && a != b,
        !bytes_lt(a, b) && !bytes_lt(b, a) ==> a == b,
    decreases a.len(),
{
    if a.len() > 0 && b.len() > 0 && a[0] == b[0] {
        lemma_bytes_order(a.drop_first(), b.drop_first());
        assert(a =~= seq![a[0]] + a.drop_first());
        assert(b =~= seq![b[0]] + b.drop_first());
    } else if a.len() == 0 && b.len() == 0 {
        assert(a =~= b);
    }
}

proof fn lemma_bytes_transitive(a: Seq<u8>, b: Seq<u8>, c: Seq<u8>)
    requires
        bytes_lt(a, b),
        bytes_lt(b, c),
    ensures
        bytes_lt(a, c),
    decreases a.len(),
{
    if a.len() > 0 && b.len() > 0 && c.len() > 0 && a[0] == b[0] && b[0] == c[0] {
        lemma_bytes_transitive(a.drop_first(), b.drop_first(), c.drop_first());
    }
}

/// Labels are totally ordered: exactly one of before, equal and after holds, and
/// before is transitive.
pub proof fn law_label_order_is_total(a: Seq<char>, b: Seq<char>, c: Seq<char>)
    ensures
        label_lt(a, b) ==> !label_lt(b, a) && a != b,
        label_lt(a, b) || label_lt(b, a) || a == b,
        label_lt(a, b) && label_lt(b, c) ==> label_lt(a, c),
{
    broadcast use encode_utf8_decode_utf8;

    lemma_bytes_order(encode_utf8(a), encode_utf8(b));
    if label_lt(a, b) && label_lt(b, c) {
        lemma_bytes_transitive(encode_utf8(a), encode_utf8(b), encode_utf8(c));
    }
    if encode_utf8(a) == encode_utf8(b) {
        assert(decode_utf8(encode_utf8(a)) == decode_utf8(encode_utf8(b)));
    }
}

/// Whether label `a` comes before label `b`.
pub fn label_less(a: &str, b: &str) -> (r: bool)
    ensures
        r == label_lt(a@, b@),
{
    let x = a.as_bytes();
    let y = b.as_bytes();
    let mut i: usize = 0;
    assert(x@.skip(0) =~= x@);
    assert(y@.skip(0) =~= y@);
    while i < x.len() && i < y.len()
        invariant
            i <= x@.len(),
            i <= y@.len(),
            bytes_lt(x@, y@) == bytes_lt(x@.skip(i as int), y@.skip(i as int)),
            bytes_lt(x@, y@) == label_lt(a@, b@),
        decreases x@.len() - i,
    {
        if x[i] != y[i] {
            return x[i] < y[i];
        }
        assert(x@.skip(i as int).drop_first() =~= x@.skip(i + 1));
        assert(y@.skip(i as int).drop_first() =~= y@.skip(i + 1));
        i = i + 1;
    }
    i < y.len()
}

/// Whether position `i` comes before position `j`: by label, then by position.
pub open spec fn before(t: Seq<Seq<char>>, i: usize, j: usize) -> bool {
    label_lt(t[i as int], t[j as int]) || (t[i as int] == t[j as int] && i < j)
}

/// Whether `order` lists the positions of `t` in their order, each once.
pub open spec fn is_label_order(order: Seq<usize>, t: Seq<Seq<char>>) -> bool {
    &&& order.len() == t.len()
    &&& order.no_duplicates()
    &&& forall|i: int| 0 <= i < order.len() ==> #[trigger] order[i] < t.len()
    &&& forall|p: usize| p < t.len() ==> #[trigger] order.contains(p)
    &&& forall|i: int, j: int|
        0 <= i < j < order.len() ==> before(t, #[trigger] order[i], #[trigger] order[j])
}

/// The order of positions is total.
pub proof fn lemma_before_total(t: Seq<Seq<char>>, i: usize, j: usize, k: usize)
    ensures
        before(t, i, j) ==> !before(t, j, i),
        i != j ==> before(t, i, j) || before(t, j, i),
        before(t, i, j) && before(t, j, k) ==> before(t, i, k),
{
    law_label_order_is_total(t[i as int], t[j as int], t[k as int]);
    law_label_order_is_total(t[j as int], t[k as int], t[i as int]);
    law_label_order_is_total(t[i as int], t[k as int], t[j as int]);
}

spec fn sorted_run(r: Seq<usize>, t: Seq<Seq<char>>) -> bool {
    forall|i: int, j: int|
        0 <= i < j < r.len() ==> r[i] == r[j] || before(t, #[trigger] r[i], #[trigger] r[j])
}

spec fn none_after(r: Seq<usize>, a: Seq<usize>, from: int, t: Seq<Seq<char>>) -> bool {
    forall|k: int, l: int|
        0 <= k < r.len() && from <= l < a.len() ==> r[k] == a[l] || before(
            t,
            #[trigger] r[k],
            #[trigger] a[l],
        )
}

proof fn lemma_push_run(
    r: Seq<usize>,
    a: Seq<usize>,
    i: int,
    b: Seq<usize>,
    j: int,
    t: Seq<Seq<char>>,
)
    requires
        0 <= i < a.len(),
        0 <= j <= b.len(),
        sorted_run(a, t),
        sorted_run(b, t),
        sorted_run(r, t),
        none_after(r, a, i, t),
        none_after(r, b, j, t),
        j < b.len() ==> a[i] == b[j] || before(t, a[i], b[j]),
    ensures
        sorted_run(r.push(a[i]), t),
        none_after(r.push(a[i]), a, i + 1, t),
        none_after(r.push(a[i]), b, j, t),
{
    let p = r.push(a[i]);
    assert forall|k: int, l: int| 0 <= k < p.len() && i + 1 <= l < a.len() implies p[k] == a[l]
        || before(t, #[trigger] p[k], #[trigger] a[l]) by {
        if k < r.len() {
            assert(p[k] == r[k]);
        } else {
            assert(p[k] == a[i]);
        }
    }
    assert forall|k: int, l: int| 0 <= k < p.len() && j <= l < b.len() implies p[k] == b[l]
        || before(t, #[trigger] p[k], #[trigger] b[l]) by {
        if k < r.len() {
            assert(p[k] == r[k]);
        } else {
            if l > j {
                assert(b[j] == b[l] || before(t, b[j], b[l]));
                lemma_before_total(t, a[i], b[j], b[l]);
            }
        }
    }
    assert forall|k: int, l: int| 0 <= k < l < p.len() implies p[k] == p[l] || before(
        t,
        #[trigger] p[k],
        #[trigger] p[l],
    ) by {
        if l < r.len() {
            assert(p[k] == r[k] && p[l] == r[l]);
        } else {
            assert(p[k] == r[k] && p[l] == a[i]);
        }
    }
}

/// Merges two runs of positions.
fn merge_runs(labels: &Vec<String>, a: &Vec<usize>, b: &Vec<usize>) -> (r: Vec<usize>)
    requires
        sorted_run(a@, texts(labels@)),
        sorted_run(b@, texts(labels@)),
        forall|i: int| 0 <= i < a@.len() ==> #[trigger] a@[i] < labels@.len(),
        forall|i: int| 0 <= i < b@.len() ==> #[trigger] b@[i] < labels@.len(),
    ensures
        sorted_run(r@, texts(labels@)),
        r@.to_multiset() == a@.to_multiset().add(b@.to_multiset()),
{
    broadcast use group_to_multiset_ensures;

    let ghost t = texts(labels@);
    let mut r: Vec<usize> = Vec::with_capacity(a.len());
    let mut i: usize = 0;
    let mut j: usize = 0;
    proof {
        assert(a@.take(0) =~= Seq::<usize>::empty());
        assert(b@.take(0) =~= Seq::<usize>::empty());
        assert(r@.to_multiset() =~= a@.take(0).to_multiset().add(b@.take(0).to_multiset()));
    }
    while i < a.len() || j < b.len()
        invariant
            i <= a.len(),
            j <= b.len(),
            t == texts(labels@),
            sorted_run(a@, t),
            sorted_run(b@, t),
            sorted_run(r@, t),
            none_after(r@, a@, i as int, t),
            none_after(r@, b@, j as int, t),
            forall|q: int| 0 <= q < a@.len() ==> #[trigger] a@[q] < labels@.len(),
            forall|q: int| 0 <= q < b@.len() ==> #[trigger] b@[q] < labels@.len(),
            r@.to_multiset() == a@.take(i as int).to_multiset().add(b@.take(j as int).to_multiset()),
        decreases a.len() - i + b.len() - j,
    {
        broadcast use group_to_multiset_ensures;

        let from_a: bool = if i >= a.len() {
            false
        } else if j >= b.len() {
            true
        } else {
            let x: usize = a[i];
            let y: usize = b[j];
            let lt: bool = label_less(labels[x].as_str(), labels[y].as_str());
            let same: bool = labels[x] == labels[y];
            proof {
                lemma_before_total(t, x, y, y);
                assert(t[x as int] == labels@[x as int]@ && t[y as int] == labels@[y as int]@);
            }
            lt || (same && x <= y)
        };
        if from_a {
            proof {
                lemma_push_run(r@, a@, i as int, b@, j as int, t);
                assert(a@.take(i + 1) =~= a@.take(i as int).push(a@[i as int]));
                assert(r@.push(a@[i as int]).to_multiset() =~= a@.take(i + 1).to_multiset().add(
                    b@.take(j as int).to_multiset(),
                ));
            }
            r.push(a[i]);
            i = i + 1;
        } else {
            proof {
                lemma_push_run(r@, b@, j as int, a@, i as int, t);
                assert(b@.take(j + 1) =~= b@.take(j as int).push(b@[j as int]));
                assert(r@.push(b@[j as int]).to_multiset() =~= a@.take(i as int).to_multiset().add(
                    b@.take(j + 1).to_multiset(),
                ));
            }
            r.push(b[j]);
            j = j + 1;
        }
    }
    proof {
        assert(a@.take(a@.len() as int) =~= a@);
        assert(b@.take(b@.len() as int) =~= b@);
    }
    r
}

fn sort_positions(labels: &Vec<String>, at: Vec<usize>) -> (r: Vec<usize>)
    requires
        forall|i: int| 0 <= i < at@.len() ==> #[trigger] at@[i] < labels@.len(),
    ensures
        sorted_run(r@, texts(labels@)),
        r@.to_multiset() == at@.to_multiset(),
        r@.len() == at@.len(),
        forall|i: int| 0 <= i < r@.len() ==> #[trigger] r@[i] < labels@.len(),
    decreases at@.len(),
{
    broadcast use group_to_multiset_ensures;

    let ghost whole = at@;
    let mut left = at;
    let n: usize = left.len();
    if n <= 1 {
        return left;
    }
    let right = left.split_off(n / 2);
    proof {
        assert(whole =~= left@ + right@);
        lemma_multiset_commutative(left@, right@);
        assert forall|i: int| 0 <= i < right@.len() implies #[trigger] right@[i] < labels@.len() by {
            assert(right@[i] == whole[n as int / 2 + i]);
        }
    }
    let a = sort_positions(labels, left);
    let b = sort_positions(labels, right);
    let r = merge_runs(labels, &a, &b);
    proof {
        assert(r@.to_multiset() =~= whole.to_multiset());
        to_multiset_len(r@);
        to_multiset_len(whole);
        assert forall|i: int| 0 <= i < r@.len() implies #[trigger] r@[i] < labels@.len() by {
            to_multiset_contains(r@, r@[i]);
            to_multiset_contains(whole, r@[i]);
            assert(r@.contains(r@[i]));
            assert(whole.contains(r@[i]));
        }
    }
    r
}

/// The positions of the labels in their order.
pub fn label_order(labels: &Vec<String>) -> (order: Vec<usize>)
    ensures
        is_label_order(order@, texts(labels@)),
{
    let mut at: Vec<usize> = Vec::with_capacity(labels.len());
    let mut i: usize = 0;
    while i < labels.len()
        invariant
            i <= labels.len(),
            at@.len() == i,
            forall|j: int| 0 <= j < i ==> #[trigger] at@[j] == j,
        decreases labels.len() - i,
    {
        at.push(i);
        i = i + 1;
    }
    let ghost whole = at@;
    let order = sort_positions(labels, at);
    proof {
        assert(whole.no_duplicates());
        whole.lemma_multiset_has_no_duplicates();
        order@.lemma_multiset_has_no_duplicates_conv();
        assert forall|i: int, j: int| 0 <= i < j < order@.len() implies before(
            texts(labels@),
            #[trigger] order@[i],
            #[trigger] order@[j],
        ) by {
            assert(order@[i] != order@[j]);
        }
        assert forall|p: usize| p < labels@.len() implies #[trigger] order@.contains(p) by {
            assert(whole[p as int] == p);
            assert(whole.contains(p));
            to_multiset_contains(order@, p);
            to_multiset_contains(whole, p);
        }
    }
    order
}

/// The labels in the order in which they are first seen, each once.
pub open spec fn first_seen(t: Seq<Seq<char>>) -> Seq<Seq<char>>
    decreases t.len(),
{
    if t.len() == 0 {
        Seq::empty()
    } else {
        let seen = first_seen(t.drop_last());
        if seen.contains(t.last()) {
            seen
        } else {
            seen.push(t.last())
        }
    }
}

/// What is first seen is what there is, without repetition.
pub proof fn lemma_first_seen(t: Seq<Seq<char>>)
    ensures
        first_seen(t).no_duplicates(),
        first_seen(t).len() <= t.len(),
        forall|x: Seq<char>| #[trigger] first_seen(t).contains(x) <==> t.contains(x),
    decreases t.len(),
{
    if t.len() > 0 {
        let rest = t.drop_last();
        let seen = first_seen(rest);
        lemma_first_seen(rest);
        assert(t =~= rest.push(t.last()));
        let now = first_seen(t);
        assert forall|x: Seq<char>| #[trigger] now.contains(x) <==> t.contains(x) by {
            if seen.contains(x) {
                assert(rest.contains(x));
                let i = choose|i: int| 0 <= i < rest.len() && rest[i] == x;
                assert(t[i] == x);
                let j = choose|j: int| 0 <= j < seen.len() && seen[j] == x;
                assert(now[j] == x);
            }
            if x == t.last() {
                assert(t[t.len() - 1] == x);
                if !seen.contains(x) {
                    assert(now[now.len() - 1] == x);
                }
            }
            if t.contains(x) && x != t.last() {
                let i = choose|i: int| 0 <= i < t.len() && t[i] == x;
                assert(rest[i] == x);
                assert(rest.contains(x));
            }
            if now.contains(x) && x != t.last() {
                let j = choose|j: int| 0 <= j < now.len() && now[j] == x;
                assert(seen[j] == x);
            }
        }
    }
}

proof fn lemma_first_seen_grows(t: Seq<Seq<char>>, n: int)
    requires
        0 <= n <= t.len(),
    ensures
        first_seen(t.take(n)).len() <= first_seen(t).len(),
    decreases t.len(),
{
    if n < t.len() {
        lemma_first_seen_grows(t.drop_last(), n);
        assert(t.drop_last().take(n) =~= t.take(n));
    } else {
        assert(t.take(n) =~= t);
    }
}

/// Whether `leader[i]` is the first position that carries the label of `i`.
pub open spec fn is_leader(t: Seq<Seq<char>>, i: int, l: usize) -> bool {
    &&& l <= i
    &&& t[l as int] == t[i]
    &&& forall|z: int| 0 <= z < t.len() && #[trigger] t[z] == t[i] ==> l <= z
}

/// The first position of each label.
pub fn leaders(labels: &Vec<String>) -> (leader: Vec<usize>)
    ensures
        leader@.len() == labels@.len(),
        forall|i: int|
            0 <= i < labels@.len() ==> is_leader(texts(labels@), i, #[trigger] leader@[i]),
{
    let ghost t = texts(labels@);
    let order = label_order(labels);
    let n: usize = labels.len();
    let mut leader: Vec<usize> = Vec::with_capacity(n);
    let mut i: usize = 0;
    while i < n
        invariant
            i <= n,
            leader@.len() == i,
        decreases n - i,
    {
        leader.push(i);
        i = i + 1;
    }
    let mut p: usize = 0;
    while p < n
        invariant
            p <= n,
            n == labels@.len(),
            t == texts(labels@),
            is_label_order(order@, t),
            leader@.len() == n,
            forall|q: int|
                0 <= q < p ==> is_leader(t, (#[trigger] order@[q]) as int, leader@[order@[q] as int]),
        decreases n - p,
    {
        let x: usize = order[p];
        let ghost old_leader = leader@;
        let l: usize = if p > 0 && labels[order[p - 1]] == labels[x] {
            leader[order[p - 1]]
        } else {
            x
        };
        proof {
            if p > 0 && t[order@[p - 1] as int] == t[x as int] {
                let y = order@[p - 1];
                assert(is_leader(t, y as int, l));
                assert(before(t, y, x));
                law_label_order_is_total(t[y as int], t[x as int], t[x as int]);
                assert(is_leader(t, x as int, l));
            } else {
                assert forall|z: int| 0 <= z < t.len() && #[trigger] t[z] == t[x as int] implies l
                    <= z by {
                    assert(order@.contains(z as usize));
                    let q = choose|q: int| 0 <= q < order@.len() && order@[q] == z as usize;
                    if q < p {
                        let y = order@[p - 1];
                        if q < p - 1 {
                            assert(before(t, order@[q], y));
                        }
                        assert(before(t, y, x));
                        law_label_order_is_total(t[z], t[y as int], t[x as int]);
                        law_label_order_is_total(t[y as int], t[x as int], t[x as int]);
                        law_label_order_is_total(t[x as int], t[y as int], t[z]);
                    } else if q > p {
                        assert(before(t, x, order@[q]));
                        law_label_order_is_total(t[x as int], t[z], t[x as int]);
                    }
                }
                assert(is_leader(t, x as int, l));
            }
        }
        leader.set(x, l);
        proof {
            assert forall|q: int| 0 <= q < p + 1 implies is_leader(
                t,
                (#[trigger] order@[q]) as int,
                leader@[order@[q] as int],
            ) by {
                if q < p {
                    assert(order@[q] != order@[p as int]);
                    assert(leader@[order@[q] as int] == old_leader[order@[q] as int]);
                }
            }
        }
        p = p + 1;
    }
    proof {
        assert forall|i: int| 0 <= i < labels@.len() implies is_leader(t, i, #[trigger] leader@[i]) by {
            assert(order@.contains(i as usize));
            let q = choose|q: int| 0 <= q < order@.len() && order@[q] == i as usize;
            assert(is_leader(t, order@[q] as int, leader@[order@[q] as int]));
        }
    }
    leader
}

/// Why labels cannot be numbered.
pub open spec fn intern_fault(t: Seq<Seq<char>>) -> Option<Fault> {
    if first_seen(t).len() > 0x1_0000_0000 {
        Some(
            Fault::InvalidInput(
                "categorical fit supports at most u32::MAX distinct levels"@,
            ),
        )
    } else {
        None
    }
}

/// Numbers the labels in the order in which they are first seen: the number of
/// each row, and the label of each number.
pub fn intern_levels(levels: &Vec<String>) -> (r: Result<(Vec<u32>, Vec<String>), PbError>)
    ensures
        answers(r, intern_fault(texts(levels@))),
        r is Ok ==> {
            let (ids, names) = r->Ok_0;
            &&& texts(names@) == first_seen(texts(levels@))
            &&& ids@.len() == levels@.len()
            &&& forall|i: int|
                0 <= i < ids@.len() ==> ids@[i] < names@.len() && names@[(#[trigger] ids@[i]) as int]@
                    == levels@[i]@
        },
{
    let ghost t = texts(levels@);
    let leader = leaders(levels);
    let mut ids: Vec<u32> = Vec::with_capacity(levels.len());
    let mut names: Vec<String> = Vec::new();
    let mut i: usize = 0;
    assert(t.take(0) =~= Seq::<Seq<char>>::empty());
    assert(texts(names@) =~= first_seen(t.take(0)));
    while i < levels.len()
        invariant
            i <= levels.len(),
            t == texts(levels@),
            leader@.len() == levels@.len(),
            forall|j: int|
                0 <= j < levels@.len() ==> is_leader(t, j, #[trigger] leader@[j]),
            texts(names@) == first_seen(t.take(i as int)),
            names@.len() <= 0x1_0000_0000,
            ids@.len() == i,
            forall|j: int|
                0 <= j < i ==> ids@[j] < names@.len() && names@[(#[trigger] ids@[j]) as int]@
                    == levels@[j]@,
        decreases levels.len() - i,
    {
        let l: usize = leader[i];
        let ghost before_names = names@;
        proof {
            assert(is_leader(t, i as int, l));
            assert(t.take(i + 1).drop_last() =~= t.take(i as int));
            assert(t.take(i + 1).last() == t[i as int]);
            lemma_first_seen(t.take(i as int));
            assert(t[l as int] == levels@[l as int]@ && t[i as int] == levels@[i as int]@);
            assert(first_seen(t.take(i as int)).contains(t[i as int]) == t.take(i as int).contains(
                t[i as int],
            ));
        }
        if l == i {
            proof {
                if t.take(i as int).contains(t[i as int]) {
                    let z = choose|z: int|
                        0 <= z < t.take(i as int).len() && t.take(i as int)[z] == t[i as int];
                    assert(t[z] == t[i as int]);
                }
                lemma_first_seen_grows(t, i + 1);
            }
            if names.len() as u64 > 0xffff_ffff {
                return Err(
                    invalid_input("categorical fit supports at most u32::MAX distinct levels"),
                );
            }
            let id: u32 = names.len() as u32;
            names.push(levels[i].clone());
            ids.push(id);
            proof {
                assert(texts(names@) =~= texts(before_names).push(t[i as int]));
                assert forall|j: int| 0 <= j < i + 1 implies ids@[j] < names@.len()
                    && names@[(#[trigger] ids@[j]) as int]@ == levels@[j]@ by {
                    if j < i {
                        assert(names@[ids@[j] as int] == before_names[ids@[j] as int]);
                    }
                }
            }
        } else {
            proof {
                assert(t.take(i as int)[l as int] == t[i as int]);
                assert(t.take(i as int).contains(t[i as int]));
            }
            let id: u32 = ids[l];
            ids.push(id);
        }
        i = i + 1;
    }
    assert(t.take(i as int) =~= t);
    Ok((ids, names))
}

/// Labels are numbered in the order in which they first appear: of two names the
/// earlier one has appeared before the other.
pub proof fn law_names_come_in_order_of_appearance(t: Seq<Seq<char>>, i: int, j: int) -> (at: int)
    requires
        0 <= i < j < first_seen(t).len(),
    ensures
        0 <= at < t.len(),
        t[at] == first_seen(t)[i],
        forall|z: int| 0 <= z <= at ==> #[trigger] t[z] != first_seen(t)[j],
    decreases t.len(),
{
    let rest = t.drop_last();
    let before = first_seen(rest);
    lemma_first_seen(rest);
    if j < before.len() {
        let at = law_names_come_in_order_of_appearance(rest, i, j);
        assert forall|z: int| 0 <= z <= at implies #[trigger] t[z] != first_seen(t)[j] by {
            assert(rest[z] == t[z]);
        }
        at
    } else {
        assert(first_seen(t)[j] == t.last());
        assert(before.contains(before[i]));
        assert(rest.contains(before[i]));
        let at = choose|at: int| 0 <= at < rest.len() && rest[at] == before[i];
        assert forall|z: int| 0 <= z <= at implies #[trigger] t[z] != first_seen(t)[j] by {
            assert(rest[z] == t[z]);
            if t[z] == t.last() {
                assert(rest.contains(t.last()));
                assert(before.contains(t.last()));
            }
        }
        at
    }
}

/// Bytes are compared at the first place where they differ, and a beginning comes
/// before what continues it.
pub proof fn law_bytes_are_compared_at_their_first_difference(a: Seq<u8>, b: Seq<u8>, k: int)
    requires
        0 <= k <= a.len(),
        k <= b.len(),
        forall|i: int| 0 <= i < k ==> a[i] == b[i],
    ensures
        k < a.len() && k < b.len() && a[k] != b[k] ==> (bytes_lt(a, b) <==> a[k] < b[k]),
        k == a.len() && k < b.len() ==> bytes_lt(a, b),
        k == b.len() ==> !bytes_lt(a, b),
    decreases k,
{
    if k > 0 {
        let (x, y) = (a.drop_first(), b.drop_first());
        assert(a[0] == b[0]);
        assert forall|i: int| 0 <= i < k - 1 implies x[i] == y[i] by {
            assert(a[i + 1] == b[i + 1]);
        }
        law_bytes_are_compared_at_their_first_difference(x, y, k - 1);
    }
}

/// Labels are numbered exactly when 32 bits number those that differ.
pub proof fn law_numbered_labels_fit(t: Seq<Seq<char>>)
    ensures
        intern_fault(t) is None <==> first_seen(t).len() <= 0x1_0000_0000,
{
}

/// Equal labels have one leader, different labels have different leaders, and a
/// leader carries the label and no earlier position does.
pub proof fn law_leaders_stand_for_their_label(t: Seq<Seq<char>>, i: int, j: int, l: usize, m: usize)
    requires
        0 <= i < t.len(),
        0 <= j < t.len(),
        is_leader(t, i, l),
        is_leader(t, j, m),
    ensures
        l == m <==> t[i] == t[j],
        l <= i && t[l as int] == t[i],
        forall|z: int| 0 <= z < l ==> #[trigger] t[z] != t[i],
{
    assert(t[l as int] == t[i]);
    assert(t[m as int] == t[j]);
}

/// An order lists every position once, by label and, where labels are equal, by
/// position.
pub proof fn law_label_orders_sort_the_positions(order: Seq<usize>, t: Seq<Seq<char>>, i: int, j: int)
    requires
        is_label_order(order, t),
        0 <= i < j < order.len(),
    ensures
        order.len() == t.len(),
        order[i] < t.len() && order[j] < t.len() && order[i] != order[j],
        label_lt(t[order[i] as int], t[order[j] as int]) || (t[order[i] as int]
            == t[order[j] as int] && order[i] < order[j]),
{
    assert(before(t, order[i], order[j]));
}

} // verus!
