//! Drawing positions without replacement.
//!
//! A draw is the head of a partial Fisher-Yates shuffle: step `i` swaps position
//! `i` with a position at or after it, which the next random number chooses.
use crate::backend::{pb_seed, pcg_next, pcg_numbers, seed_of, Stage};
use crate::seed_laws::law_seed_injective_in_block;
use crate::sort::{lemma_sorted_members, pair_le, sort_pairs};
use rand_pcg::Pcg64;
use vstd::prelude::*;

verus! {

/// The positions `0..n` after `steps` swaps driven by `numbers`.
pub open spec fn shuffled(n: nat, numbers: Map<nat, u64>, steps: nat) -> Seq<usize>
    decreases steps,
{
    if steps == 0 {
        Seq::new(n, |j: int| j as usize)
    } else {
        let i = (steps - 1) as nat;
        let before = shuffled(n, numbers, i);
        let other = i + numbers[i] as nat % (n - i) as nat;
        before.update(i as int, before[other as int]).update(other as int, before[i as int])
    }
}

/// Whether `rows` lists, in ascending order, the first `k` positions of the
/// shuffle.
pub open spec fn is_draw(rows: Seq<usize>, n: nat, k: nat, numbers: Map<nat, u64>) -> bool {
    &&& rows.len() == k
    &&& forall|i: int, j: int| 0 <= i < j < rows.len() ==> rows[i] < rows[j]
    &&& forall|p: usize| #[trigger]
        rows.contains(p) <==> shuffled(n, numbers, k).take(k as int).contains(p)
}

/// A shuffle only moves positions about: each of `0..n` occurs exactly once.
pub proof fn law_shuffle_keeps_positions(n: nat, numbers: Map<nat, u64>, steps: nat)
    requires
        n <= usize::MAX,
        steps <= n,
    ensures
        shuffled(n, numbers, steps).len() == n,
        shuffled(n, numbers, steps).no_duplicates(),
        forall|j: int| 0 <= j < n ==> #[trigger] shuffled(n, numbers, steps)[j] < n,
    decreases steps,
{
    if steps > 0 {
        let i = (steps - 1) as nat;
        law_shuffle_keeps_positions(n, numbers, i);
        let before = shuffled(n, numbers, i);
        let m = (n - i) as nat;
        let other = i + numbers[i] as nat % m;
        assert(numbers[i] as nat % m < m) by (nonlinear_arith)
            requires
                m > 0,
        ;
        assert(i <= other < n);
    }
}

/// Two draws of the same shuffle are the same list.
pub proof fn law_draw_is_unique(a: Seq<usize>, b: Seq<usize>, n: nat, k: nat, numbers: Map<nat, u64>)
    requires
        is_draw(a, n, k, numbers),
        is_draw(b, n, k, numbers),
    ensures
        a == b,
{
    lemma_ascending_same_members(a, b);
}

/// Two strictly ascending lists with the same members are equal.
pub proof fn lemma_ascending_same_members(a: Seq<usize>, b: Seq<usize>)
    requires
        forall|i: int, j: int| 0 <= i < j < a.len() ==> a[i] < a[j],
        forall|i: int, j: int| 0 <= i < j < b.len() ==> b[i] < b[j],
        forall|p: usize| #[trigger] a.contains(p) <==> b.contains(p),
    ensures
        a == b,
    decreases a.len(),
{
    if a.len() == 0 {
        if b.len() > 0 {
            assert(b.contains(b[0]));
            assert(a.contains(b[0]));
        }
        assert(a =~= b);
    } else {
        assert(a.contains(a[0]));
        assert(b.contains(a[0]));
        assert(b.contains(b[0]));
        assert(a.contains(b[0]));
        assert(a[0] == b[0]);
        let ta = a.drop_first();
        let tb = b.drop_first();
        assert forall|p: usize| #[trigger] ta.contains(p) <==> tb.contains(p) by {
            if ta.contains(p) {
                let i = choose|i: int| 0 <= i < ta.len() && ta[i] == p;
                assert(a[i + 1] == p);
                assert(a.contains(p));
                let j = choose|j: int| 0 <= j < b.len() && b[j] == p;
                assert(j > 0);
                assert(tb[j - 1] == p);
            }
            if tb.contains(p) {
                let i = choose|i: int| 0 <= i < tb.len() && tb[i] == p;
                assert(b[i + 1] == p);
                assert(b.contains(p));
                assert(a.contains(p));
                let j = choose|j: int| 0 <= j < a.len() && a[j] == p;
                assert(j > 0);
                assert(ta[j - 1] == p);
            }
        }
        lemma_ascending_same_members(ta, tb);
        assert(a =~= seq![a[0]] + ta);
        assert(b =~= seq![b[0]] + tb);
    }
}

/// The first `k` positions of the shuffle of `0..n`, unsorted.
fn shuffle_head(n: usize, k: usize, mut rng: Pcg64) -> (idx: Vec<usize>)
    requires
        k <= n,
    ensures
        idx@ == shuffled(n as nat, pcg_numbers(rng), k as nat),
        idx@.len() == n,
{
    let ghost numbers = pcg_numbers(rng);
    let mut idx: Vec<usize> = Vec::with_capacity(n);
    let mut j: usize = 0;
    while j < n
        invariant
            j <= n,
            idx@ =~= Seq::new(j as nat, |p: int| p as usize),
        decreases n - j,
    {
        idx.push(j);
        j = j + 1;
    }
    let mut i: usize = 0;
    while i < k
        invariant
            i <= k <= n,
            idx@ == shuffled(n as nat, numbers, i as nat),
            idx@.len() == n,
            forall|p: nat| #[trigger] pcg_numbers(rng)[p] == numbers[p + i as nat],
        decreases k - i,
    {
        let ghost before = pcg_numbers(rng);
        let range: u64 = (n - i) as u64;
        let x: u64 = pcg_next(&mut rng);
        assert(x == numbers[i as nat]) by {
            assert(before[0] == numbers[0 + i as nat]);
        }
        let offset: usize = (x % range) as usize;
        assert(x % range < range);
        let other: usize = i + offset;
        let a: usize = idx[i];
        let b: usize = idx[other];
        idx.set(i, b);
        idx.set(other, a);
        proof {
            assert forall|p: nat| #[trigger]
                pcg_numbers(rng)[p] == numbers[p + (i + 1) as nat] by {
                assert(pcg_numbers(rng)[p] == before[p + 1]);
                assert(before[p + 1] == numbers[(p + 1) + i as nat]);
            }
        }
        i = i + 1;
    }
    idx
}

/// Draws `k` of the positions `0..n` without replacement, in ascending order.
pub fn draw_positions(n: usize, k: usize, rng: Pcg64) -> (rows: Vec<usize>)
    requires
        k <= n,
    ensures
        is_draw(rows@, n as nat, k as nat, pcg_numbers(rng)),
        forall|i: int| 0 <= i < rows@.len() ==> #[trigger] rows@[i] < n,
{
    let ghost numbers = pcg_numbers(rng);
    let idx = shuffle_head(n, k, rng);
    proof {
        law_shuffle_keeps_positions(n as nat, numbers, k as nat);
    }
    let mut chosen: Vec<bool> = Vec::with_capacity(n);
    let mut j: usize = 0;
    while j < n
        invariant
            j <= n,
            chosen@.len() == j,
            forall|p: int| 0 <= p < j ==> !chosen@[p],
        decreases n - j,
    {
        chosen.push(false);
        j = j + 1;
    }
    let ghost head = idx@.take(k as int);
    let mut i: usize = 0;
    while i < k
        invariant
            i <= k <= n,
            idx@.len() == n,
            chosen@.len() == n,
            head == idx@.take(k as int),
            forall|q: int| 0 <= q < n ==> #[trigger] idx@[q] < n,
            forall|p: int|
                0 <= p < n ==> (#[trigger] chosen@[p] <==> idx@.take(i as int).contains(p as usize)),
        decreases k - i,
    {
        let ghost before = chosen@;
        let p: usize = idx[i];
        chosen.set(p, true);
        proof {
            let now = idx@.take(i + 1);
            assert(now =~= idx@.take(i as int).push(p));
            assert forall|q: int| 0 <= q < n implies (#[trigger] chosen@[q] <==> now.contains(
                q as usize,
            )) by {
                let t = idx@.take(i as int);
                if q == p {
                    assert(now[i as int] == q as usize);
                } else {
                    assert(chosen@[q] == before[q]);
                    if t.contains(q as usize) {
                        let w = choose|w: int| 0 <= w < t.len() && t[w] == q as usize;
                        assert(now[w] == q as usize);
                    }
                    if now.contains(q as usize) {
                        let w = choose|w: int| 0 <= w < now.len() && now[w] == q as usize;
                        assert(w < i);
                        assert(t[w] == q as usize);
                    }
                }
            }
        }
        i = i + 1;
    }
    let mut rows: Vec<usize> = Vec::with_capacity(k);
    let mut p: usize = 0;
    while p < n
        invariant
            p <= n,
            k <= n,
            chosen@.len() == n,
            idx@.len() == n,
            head == idx@.take(k as int),
            forall|q: int| 0 <= q < n ==> #[trigger] idx@[q] < n,
            forall|q: int|
                0 <= q < n ==> (#[trigger] chosen@[q] <==> head.contains(q as usize)),
            forall|a: int, b: int| 0 <= a < b < rows@.len() ==> rows@[a] < rows@[b],
            forall|a: int| 0 <= a < rows@.len() ==> #[trigger] rows@[a] < p,
            forall|q: usize| #[trigger] rows@.contains(q) <==> q < p && head.contains(q),
        decreases n - p,
    {
        let ghost before = rows@;
        if chosen[p] {
            rows.push(p);
        }
        proof {
            assert forall|q: usize| #[trigger]
                rows@.contains(q) <==> q < p + 1 && head.contains(q) by {
                assert(chosen@[p as int] <==> head.contains(p));
                if before.contains(q) {
                    let w = choose|w: int| 0 <= w < before.len() && before[w] == q;
                    assert(rows@[w] == q);
                }
                if chosen@[p as int] {
                    assert(rows@[rows@.len() - 1] == p);
                    if rows@.contains(q) && q != p {
                        let w = choose|w: int| 0 <= w < rows@.len() && rows@[w] == q;
                        assert(w < before.len());
                        assert(before[w] == q);
                    }
                } else {
                    assert(rows@ == before);
                }
            }
        }
        p = p + 1;
    }
    proof {
        assert forall|q: usize| #[trigger] rows@.contains(q) <==> head.contains(q) by {
            if head.contains(q) {
                let w = choose|w: int| 0 <= w < head.len() && head[w] == q;
                assert(idx@[w] < n);
            }
        }
        // Both lists are free of repetition and have the same members, hence one length.
        assert(head.no_duplicates()) by {
            assert forall|a: int, b: int| 0 <= a < b < head.len() implies head[a] != head[b] by {
                assert(head[a] == idx@[a] && head[b] == idx@[b]);
            }
        }
        assert(rows@.no_duplicates());
        head.unique_seq_to_set();
        rows@.unique_seq_to_set();
        assert(head.to_set() =~= rows@.to_set()) by {
            assert forall|q: usize| head.to_set().contains(q) <==> rows@.to_set().contains(q) by {
                assert(rows@.contains(q) <==> head.contains(q));
            }
        }
    }
    rows
}

/// Whether `order` lists the blocks `0..n`, each once, by ascending seed.
pub open spec fn is_seeded_order(order: Seq<u32>, base: u64, round: u32, stage: u32, n: nat) -> bool {
    &&& order.len() == n
    &&& order.no_duplicates()
    &&& forall|i: int| 0 <= i < n ==> (#[trigger] order[i]) < n
    &&& forall|b: u32| b < n ==> #[trigger] order.contains(b)
    &&& forall|i: int, j: int|
        0 <= i < j < n ==> seed_of(base, round, stage, #[trigger] order[i]) < seed_of(
            base,
            round,
            stage,
            #[trigger] order[j],
        )
}

/// The order by seed is unique.
pub proof fn law_seeded_order_is_unique(
    a: Seq<u32>,
    b: Seq<u32>,
    base: u64,
    round: u32,
    stage: u32,
    n: nat,
)
    requires
        is_seeded_order(a, base, round, stage, n),
        is_seeded_order(b, base, round, stage, n),
    ensures
        a == b,
{
    lemma_seeded_prefix(a, b, base, round, stage, n, n as int);
    assert(a =~= a.take(n as int));
    assert(b =~= b.take(n as int));
}

proof fn lemma_seeded_prefix(
    a: Seq<u32>,
    b: Seq<u32>,
    base: u64,
    round: u32,
    stage: u32,
    n: nat,
    p: int,
)
    requires
        is_seeded_order(a, base, round, stage, n),
        is_seeded_order(b, base, round, stage, n),
        0 <= p <= n,
    ensures
        a.take(p) == b.take(p),
    decreases p,
{
    if p > 0 {
        lemma_seeded_prefix(a, b, base, round, stage, n, p - 1);
        let x = a[p - 1];
        let y = b[p - 1];
        if x != y {
            assert(b.contains(x));
            assert(a.contains(y));
            let i = choose|i: int| 0 <= i < b.len() && b[i] == x;
            let j = choose|j: int| 0 <= j < a.len() && a[j] == y;
            if i < p - 1 {
                assert(a.take(p - 1)[i] == b.take(p - 1)[i]);
                assert(a[i] == a[p - 1]);
            }
            if j < p - 1 {
                assert(a.take(p - 1)[j] == b.take(p - 1)[j]);
                assert(b[j] == b[p - 1]);
            }
            assert(seed_of(base, round, stage, b[p - 1]) < seed_of(base, round, stage, b[i]));
            assert(seed_of(base, round, stage, a[p - 1]) < seed_of(base, round, stage, a[j]));
        }
        assert(a.take(p) =~= a.take(p - 1).push(x));
        assert(b.take(p) =~= b.take(p - 1).push(y));
    }
}

/// The blocks `0..n` of a stage by ascending seed.
pub fn seeded_order(base: u64, round: u32, stage: Stage, n: usize) -> (order: Vec<u32>)
    requires
        n <= 0x1_0000_0000,
    ensures
        is_seeded_order(order@, base, round, stage.code(), n as nat),
{
    let code: u32 = stage.number();
    let mut keys: Vec<(u64, u64)> = Vec::with_capacity(n);
    let mut i: usize = 0;
    while i < n
        invariant
            i <= n,
            n <= 0x1_0000_0000,
            keys@.len() == i,
            forall|j: int|
                0 <= j < i ==> #[trigger] keys@[j] == (seed_of(base, round, code, j as u32), j as u64),
        decreases n - i,
    {
        keys.push((pb_seed(base, round, code, i as u32), i as u64));
        i = i + 1;
    }
    let ghost unsorted = keys@;
    let sorted = sort_pairs(keys);
    proof {
        lemma_sorted_members(unsorted);
        assert forall|j: int| 0 <= j < n implies (#[trigger] sorted@[j]).1 < n && sorted@[j]
            == unsorted[sorted@[j].1 as int] by {
            assert(unsorted.contains(sorted@[j]));
            let w = choose|w: int| 0 <= w < unsorted.len() && unsorted[w] == sorted@[j];
        }
        assert(unsorted.no_duplicates());
        unsorted.lemma_multiset_has_no_duplicates();
        sorted@.lemma_multiset_has_no_duplicates_conv();
    }
    let mut order: Vec<u32> = Vec::with_capacity(n);
    let mut j: usize = 0;
    while j < n
        invariant
            j <= n,
            n <= 0x1_0000_0000,
            sorted@.len() == n,
            forall|q: int| 0 <= q < n ==> (#[trigger] sorted@[q]).1 < n,
            order@.len() == j,
            forall|q: int| 0 <= q < j ==> (#[trigger] order@[q]) as u64 == sorted@[q].1,
        decreases n - j,
    {
        order.push(sorted[j].1 as u32);
        j = j + 1;
    }
    proof {
        assert forall|a: int, b: int| 0 <= a < b < n implies seed_of(
            base,
            round,
            code,
            #[trigger] order@[a],
        ) < seed_of(base, round, code, #[trigger] order@[b]) && order@[a] != order@[b] by {
            assert(pair_le(sorted@[a], sorted@[b]));
            assert(sorted@[a] != sorted@[b]);
            assert(sorted@[a] == unsorted[order@[a] as int]);
            assert(sorted@[b] == unsorted[order@[b] as int]);
            if seed_of(base, round, code, order@[a]) == seed_of(base, round, code, order@[b]) {
                law_seed_injective_in_block(base, round, code, order@[a], order@[b]);
            }
        }
        assert forall|b: u32| b < n implies #[trigger] order@.contains(b) by {
            assert(unsorted.contains(unsorted[b as int]));
            assert(sorted@.contains(unsorted[b as int]));
            let q = choose|q: int| 0 <= q < sorted@.len() && sorted@[q] == unsorted[b as int];
            assert(order@[q] == b);
        }
    }
    order
}

/// Every step draws one of the positions that are left, whichever its number picks,
/// and later steps keep what was drawn.
pub proof fn law_any_position_can_be_drawn(n: nat, numbers: Map<nat, u64>, i: nat, j: int, steps: nat)
    requires
        i <= j < n <= usize::MAX,
        numbers[i] == j - i,
        i < steps <= n,
    ensures
        shuffled(n, numbers, steps)[i as int] == shuffled(n, numbers, i)[j],
    decreases steps,
{
    law_shuffle_keeps_positions(n, numbers, i);
    if steps == i + 1 {
        vstd::arithmetic::div_mod::lemma_small_mod((j - i) as nat, (n - i) as nat);
    } else {
        let m = (steps - 1) as nat;
        law_shuffle_keeps_positions(n, numbers, m);
        law_any_position_can_be_drawn(n, numbers, i, j, m);
        vstd::arithmetic::div_mod::lemma_mod_bound(numbers[m] as int, (n - m) as int);
    }
}

/// Numbers that agree up to the rows left pick the same rows.
pub proof fn law_draws_use_numbers_up_to_what_is_left(
    n: nat,
    a: Map<nat, u64>,
    b: Map<nat, u64>,
    steps: nat,
)
    requires
        steps <= n,
        forall|i: nat|
            i < steps ==> (#[trigger] a[i]) as int % (n - i) as int == b[i] as int % (n - i) as int,
    ensures
        shuffled(n, a, steps) == shuffled(n, b, steps),
    decreases steps,
{
    if steps > 0 {
        let i = (steps - 1) as nat;
        law_draws_use_numbers_up_to_what_is_left(n, a, b, i);
        assert(a[i] as int % (n - i) as int == b[i] as int % (n - i) as int);
    }
}

} // verus!
