//! The cell correction of a bagged model: what it corrects, on which rows it is
//! fitted and judged, and how strongly it is kept.
use crate::engine::members::WeightedTree;
use crate::float::F32;
use crate::sort::{lemma_sorted_members, pair_le, sort_pairs};
use vstd::prelude::*;

verus! {

/// Whether some tree splits on an axis.
pub open spec fn axis_used(trees: Seq<WeightedTree>, n: nat, a: u64) -> bool {
    exists|t: int, k: int|
        0 <= t < n && 0 <= k < trees[t].1.splits@.len() && (#[trigger] trees[t].1.splits@[k]).axis == a
}

/// Whether some tree splits on two axes, the first one lower.
pub open spec fn pair_used(trees: Seq<WeightedTree>, n: nat, p: (u64, u64)) -> bool {
    p.0 < p.1 && exists|t: int| 0 <= t < n && #[trigger] tree_uses(trees[t], p.0) && tree_uses(
        trees[t],
        p.1,
    )
}

/// Whether a tree splits on an axis.
pub open spec fn tree_uses(t: WeightedTree, a: u64) -> bool {
    exists|k: int| 0 <= k < t.1.splits@.len() && (#[trigger] t.1.splits@[k]).axis == a
}

/// Whether pairs strictly ascend.
pub open spec fn pairs_ascend(s: Seq<(u64, u64)>) -> bool {
    forall|i: int, j: int|
        0 <= i < j < s.len() ==> pair_le(#[trigger] s[i], #[trigger] s[j]) && s[i] != s[j]
}

/// Sorts pairs and drops repetitions.
fn distinct_pairs(v: Vec<(u64, u64)>) -> (out: Vec<(u64, u64)>)
    ensures
        pairs_ascend(out@),
        forall|p: (u64, u64)| #[trigger] out@.contains(p) <==> v@.contains(p),
{
    let ghost all = v@;
    let sorted = sort_pairs(v);
    proof {
        lemma_sorted_members(all);
    }
    let mut out: Vec<(u64, u64)> = Vec::new();
    let mut i: usize = 0;
    while i < sorted.len()
        invariant
            i <= sorted.len(),
            crate::sort::ascending(sorted@),
            pairs_ascend(out@),
            out@.len() > 0 <==> i > 0,
            i > 0 ==> out@.last() == sorted@[i - 1],
            forall|p: (u64, u64)| #[trigger]
                out@.contains(p) <==> sorted@.take(i as int).contains(p),
        decreases sorted.len() - i,
    {
        let p: (u64, u64) = sorted[i];
        let fresh: bool = i == 0 || out[out.len() - 1].0 != p.0 || out[out.len() - 1].1 != p.1;
        let ghost before = out@;
        if fresh {
            out.push(p);
        }
        proof {
            let head = sorted@.take(i + 1);
            assert(head =~= sorted@.take(i as int).push(p));
            if fresh {
                assert forall|a: int, b: int| 0 <= a < b < out@.len() implies pair_le(
                    #[trigger] out@[a],
                    #[trigger] out@[b],
                ) && out@[a] != out@[b] by {
                    if b == before.len() {
                        assert(pair_le(sorted@[i - 1], sorted@[i as int]));
                        if a < before.len() - 1 {
                            assert(pair_le(before[a], before[before.len() - 1]));
                        }
                    }
                }
            }
            assert forall|q: (u64, u64)| #[trigger] out@.contains(q) <==> head.contains(q) by {
                if head.contains(q) {
                    let k = choose|k: int| 0 <= k < head.len() && head[k] == q;
                    if k < i {
                        assert(sorted@.take(i as int)[k] == q);
                        assert(before.contains(q));
                        let w = choose|w: int| 0 <= w < before.len() && before[w] == q;
                        assert(out@[w] == q);
                    } else if fresh {
                        assert(out@[out@.len() - 1] == q);
                    } else {
                        assert(out@[out@.len() - 1] == q);
                    }
                }
                if out@.contains(q) {
                    let w = choose|w: int| 0 <= w < out@.len() && out@[w] == q;
                    if w < before.len() {
                        assert(before[w] == q);
                        assert(before.contains(q));
                        let k = choose|k: int| 0 <= k < i && sorted@.take(i as int)[k] == q;
                        assert(head[k] == q);
                    } else {
                        assert(head[i as int] == q);
                    }
                }
            }
        }
        i = i + 1;
    }
    assert(sorted@.take(i as int) =~= sorted@);
    out
}

/// The supports that a correction covers: the axes, and the pairs of axes, that
/// trees split on.
#[derive(Debug, Clone, PartialEq)]
pub struct Supports {
    /// In ascending order.
    pub mains: Vec<u32>,
    /// The lower axis first; in ascending order.
    pub pairs: Vec<(u32, u32)>,
}

/// The axes and the pairs of axes that some tree splits on together. Triples are
/// left out.
pub fn correctable_supports(trees: &Vec<WeightedTree>) -> (s: Supports)
    ensures
        forall|i: int, j: int| 0 <= i < j < s.mains@.len() ==> s.mains@[i] < s.mains@[j],
        forall|a: u32| #[trigger]
            s.mains@.contains(a) <==> axis_used(trees@, trees@.len(), a as u64),
        forall|i: int, j: int|
            0 <= i < j < s.pairs@.len() ==> ((#[trigger] s.pairs@[i]).0 < (#[trigger] s.pairs@[j]).0
                || (s.pairs@[i].0 == s.pairs@[j].0 && s.pairs@[i].1 < s.pairs@[j].1)),
        forall|a: u32, b: u32| #[trigger]
            s.pairs@.contains((a, b)) <==> pair_used(trees@, trees@.len(), (a as u64, b as u64)),
{
    let mut mains: Vec<(u64, u64)> = Vec::new();
    let mut pairs: Vec<(u64, u64)> = Vec::new();
    let mut t: usize = 0;
    while t < trees.len()
        invariant
            t <= trees.len(),
            forall|p: (u64, u64)| #[trigger]
                mains@.contains(p) <==> p.1 == 0 && axis_used(trees@, t as nat, p.0),
            forall|p: (u64, u64)| #[trigger] pairs@.contains(p) <==> pair_used(trees@, t as nat, p),
            forall|p: (u64, u64)| #[trigger] mains@.contains(p) ==> p.0 <= u32::MAX,
            forall|p: (u64, u64)| #[trigger]
                pairs@.contains(p) ==> p.0 <= u32::MAX && p.1 <= u32::MAX,
        decreases trees.len() - t,
    {
        add_tree(&trees[t], &mut mains, &mut pairs);
        proof {
            let tree = trees@[t as int];
            assert forall|p: (u64, u64)| #[trigger] mains@.contains(p) <==> p.1 == 0 && axis_used(
                trees@,
                (t + 1) as nat,
                p.0,
            ) by {
                if axis_used(trees@, (t + 1) as nat, p.0) {
                    let (a, k) = choose|a: int, k: int|
                        0 <= a < t + 1 && 0 <= k < trees@[a].1.splits@.len() && (
                        #[trigger] trees@[a].1.splits@[k]).axis == p.0;
                    if a < t {
                        assert(trees@[a].1.splits@[k].axis == p.0);
                        assert(axis_used(trees@, t as nat, p.0));
                    } else {
                        assert(tree.1.splits@[k].axis == p.0);
                        assert(tree_uses(tree, p.0));
                    }
                }
                if axis_used(trees@, t as nat, p.0) {
                    let (a, k) = choose|a: int, k: int|
                        0 <= a < t && 0 <= k < trees@[a].1.splits@.len() && (
                        #[trigger] trees@[a].1.splits@[k]).axis == p.0;
                    assert(trees@[a].1.splits@[k].axis == p.0);
                }
                if tree_uses(tree, p.0) {
                    let k = choose|k: int|
                        0 <= k < tree.1.splits@.len() && (#[trigger] tree.1.splits@[k]).axis == p.0;
                    assert(trees@[t as int].1.splits@[k].axis == p.0);
                }
            }
            assert forall|p: (u64, u64)| #[trigger] pairs@.contains(p) <==> pair_used(
                trees@,
                (t + 1) as nat,
                p,
            ) by {
                if pair_used(trees@, (t + 1) as nat, p) {
                    let a = choose|a: int|
                        0 <= a < t + 1 && #[trigger] tree_uses(trees@[a], p.0) && tree_uses(
                            trees@[a],
                            p.1,
                        );
                    if a < t {
                        assert(pair_used(trees@, t as nat, p));
                    }
                }
                if pair_used(trees@, t as nat, p) {
                    let a = choose|a: int|
                        0 <= a < t && #[trigger] tree_uses(trees@[a], p.0) && tree_uses(
                            trees@[a],
                            p.1,
                        );
                    assert(tree_uses(trees@[a], p.0));
                }
            }
        }
        t = t + 1;
    }
    let ghost main_all = mains@;
    let ghost pair_all = pairs@;
    let m = distinct_pairs(mains);
    let p = distinct_pairs(pairs);
    let mut main_out: Vec<u32> = Vec::with_capacity(m.len());
    let mut i: usize = 0;
    while i < m.len()
        invariant
            i <= m.len(),
            forall|q: (u64, u64)| #[trigger] m@.contains(q) <==> main_all.contains(q),
            forall|q: (u64, u64)| #[trigger] main_all.contains(q) ==> q.0 <= u32::MAX,
            main_out@.len() == i,
            forall|j: int| 0 <= j < i ==> (#[trigger] main_out@[j]) as u64 == m@[j].0,
        decreases m.len() - i,
    {
        assert(m@.contains(m@[i as int]));
        assert(main_all.contains(m@[i as int]));
        main_out.push(m[i].0 as u32);
        i = i + 1;
    }
    let mut pair_out: Vec<(u32, u32)> = Vec::with_capacity(p.len());
    let mut k: usize = 0;
    while k < p.len()
        invariant
            k <= p.len(),
            forall|q: (u64, u64)| #[trigger] p@.contains(q) <==> pair_all.contains(q),
            forall|q: (u64, u64)| #[trigger]
                pair_all.contains(q) ==> q.0 <= u32::MAX && q.1 <= u32::MAX,
            pair_out@.len() == k,
            forall|j: int|
                0 <= j < k ==> (#[trigger] pair_out@[j]).0 as u64 == p@[j].0 && pair_out@[j].1 as u64
                    == p@[j].1,
        decreases p.len() - k,
    {
        assert(p@.contains(p@[k as int]));
        assert(pair_all.contains(p@[k as int]));
        pair_out.push((p[k].0 as u32, p[k].1 as u32));
        k = k + 1;
    }
    proof {
        assert forall|j: int| 0 <= j < m@.len() implies (#[trigger] m@[j]).1 == 0 by {
            assert(m@.contains(m@[j]));
            assert(main_all.contains(m@[j]));
        }
        assert forall|a: int, b: int| 0 <= a < b < main_out@.len() implies main_out@[a]
            < main_out@[b] by {
            assert(pair_le(m@[a], m@[b]) && m@[a] != m@[b]);
        }
        assert forall|a: u32| #[trigger] main_out@.contains(a) <==> axis_used(
            trees@,
            trees@.len(),
            a as u64,
        ) by {
            let q = (a as u64, 0u64);
            assert(m@.contains(q) <==> main_all.contains(q));
            if main_out@.contains(a) {
                let j = choose|j: int| 0 <= j < main_out@.len() && main_out@[j] == a;
                assert(m@[j] == q);
            }
            if m@.contains(q) {
                let j = choose|j: int| 0 <= j < m@.len() && m@[j] == q;
                assert(main_out@[j] == a);
            }
        }
        assert forall|a: int, b: int| 0 <= a < b < pair_out@.len() implies ((
        #[trigger] pair_out@[a]).0 < (#[trigger] pair_out@[b]).0 || (pair_out@[a].0 == pair_out@[b].0
            && pair_out@[a].1 < pair_out@[b].1)) by {
            assert(pair_le(p@[a], p@[b]) && p@[a] != p@[b]);
        }
        assert forall|a: u32, b: u32| #[trigger] pair_out@.contains((a, b)) <==> pair_used(
            trees@,
            trees@.len(),
            (a as u64, b as u64),
        ) by {
            let q = (a as u64, b as u64);
            assert(p@.contains(q) <==> pair_all.contains(q));
            if pair_out@.contains((a, b)) {
                let j = choose|j: int| 0 <= j < pair_out@.len() && pair_out@[j] == (a, b);
                assert(p@[j] == q);
            }
            if p@.contains(q) {
                let j = choose|j: int| 0 <= j < p@.len() && p@[j] == q;
                assert(pair_out@[j] == (a, b));
            }
        }
    }
    Supports { mains: main_out, pairs: pair_out }
}

/// Adds the axes and the pairs of one tree.
fn add_tree(tree: &WeightedTree, mains: &mut Vec<(u64, u64)>, pairs: &mut Vec<(u64, u64)>)
    requires
        forall|p: (u64, u64)| #[trigger] old(mains)@.contains(p) ==> p.0 <= u32::MAX,
        forall|p: (u64, u64)| #[trigger]
            old(pairs)@.contains(p) ==> p.0 <= u32::MAX && p.1 <= u32::MAX,
    ensures
        forall|p: (u64, u64)| #[trigger]
            final(mains)@.contains(p) <==> old(mains)@.contains(p) || (p.1 == 0 && tree_uses(
                *tree,
                p.0,
            )),
        forall|p: (u64, u64)| #[trigger]
            final(pairs)@.contains(p) <==> old(pairs)@.contains(p) || (p.0 < p.1 && tree_uses(
                *tree,
                p.0,
            ) && tree_uses(*tree, p.1)),
        forall|p: (u64, u64)| #[trigger] final(mains)@.contains(p) ==> p.0 <= u32::MAX,
        forall|p: (u64, u64)| #[trigger]
            final(pairs)@.contains(p) ==> p.0 <= u32::MAX && p.1 <= u32::MAX,
{
    let splits = &tree.1.splits;
    let n: usize = splits.len();
    let mut i: usize = 0;
    while i < n
        invariant
            i <= n,
            n == splits@.len(),
            *splits == tree.1.splits,
            forall|p: (u64, u64)| #[trigger]
                mains@.contains(p) <==> old(mains)@.contains(p) || (p.1 == 0 && exists|k: int|
                    0 <= k < i && (#[trigger] splits@[k]).axis == p.0),
            forall|p: (u64, u64)| #[trigger]
                pairs@.contains(p) <==> old(pairs)@.contains(p) || (p.0 < p.1 && exists|a: int,
                    b: int|
                    #![trigger splits@[a], splits@[b]]
                    0 <= a < i && 0 <= b < n && splits@[a].axis == p.0 && splits@[b].axis == p.1),
            forall|p: (u64, u64)| #[trigger] mains@.contains(p) ==> p.0 <= u32::MAX,
            forall|p: (u64, u64)| #[trigger]
                pairs@.contains(p) ==> p.0 <= u32::MAX && p.1 <= u32::MAX,
        decreases n - i,
    {
        let a: u64 = splits[i].axis as u64;
        let ghost m0 = mains@;
        mains.push((a, 0));
        proof {
            lemma_push_contains(m0, (a, 0));
            assert forall|p: (u64, u64)| #[trigger] mains@.contains(p) <==> old(mains)@.contains(p)
                || (p.1 == 0 && exists|k: int| 0 <= k < i + 1 && (#[trigger] splits@[k]).axis == p.0) by {
                if p == (a, 0u64) {
                    assert(splits@[i as int].axis == p.0);
                }
            }
        }
        let mut j: usize = 0;
        while j < n
            invariant
                j <= n,
                i < n,
                n == splits@.len(),
                a == splits@[i as int].axis,
                forall|p: (u64, u64)| #[trigger]
                    pairs@.contains(p) <==> old(pairs)@.contains(p) || (p.0 < p.1 && ((exists|
                        x: int,
                        y: int,
                    |
                        #![trigger splits@[x], splits@[y]]
                        0 <= x < i && 0 <= y < n && splits@[x].axis == p.0 && splits@[y].axis == p.1)
                        || (a == p.0 && exists|y: int|
                        0 <= y < j && (#[trigger] splits@[y]).axis == p.1))),
                forall|p: (u64, u64)| #[trigger]
                    pairs@.contains(p) ==> p.0 <= u32::MAX && p.1 <= u32::MAX,
            decreases n - j,
        {
            let b: u64 = splits[j].axis as u64;
            if a < b {
                let ghost p0 = pairs@;
                pairs.push((a, b));
                proof {
                    lemma_push_contains(p0, (a, b));
                    assert(splits@[j as int].axis == b);
                }
            }
            j = j + 1;
        }
        proof {
            assert forall|p: (u64, u64)| #[trigger] pairs@.contains(p) <==> old(pairs)@.contains(p)
                || (p.0 < p.1 && exists|x: int, y: int|
                #![trigger splits@[x], splits@[y]]
                0 <= x < i + 1 && 0 <= y < n && splits@[x].axis == p.0 && splits@[y].axis == p.1) by {
                if a == p.0 && exists|y: int| 0 <= y < n && (#[trigger] splits@[y]).axis == p.1 {
                    let y = choose|y: int| 0 <= y < n && (#[trigger] splits@[y]).axis == p.1;
                    assert(splits@[i as int].axis == p.0 && splits@[y].axis == p.1);
                }
            }
        }
        i = i + 1;
    }
    proof {
        assert forall|p: (u64, u64)| #[trigger] pairs@.contains(p) <==> old(pairs)@.contains(p) || (p.0
            < p.1 && tree_uses(*tree, p.0) && tree_uses(*tree, p.1)) by {
            if tree_uses(*tree, p.0) && tree_uses(*tree, p.1) {
                let x = choose|x: int|
                    0 <= x < tree.1.splits@.len() && (#[trigger] tree.1.splits@[x]).axis == p.0;
                let y = choose|y: int|
                    0 <= y < tree.1.splits@.len() && (#[trigger] tree.1.splits@[y]).axis == p.1;
                assert(splits@[x].axis == p.0 && splits@[y].axis == p.1);
            }
        }
    }
}

proof fn lemma_push_contains(s: Seq<(u64, u64)>, x: (u64, u64))
    ensures
        forall|p: (u64, u64)| #[trigger] s.push(x).contains(p) <==> s.contains(p) || p == x,
{
    assert forall|p: (u64, u64)| #[trigger] s.push(x).contains(p) <==> s.contains(p) || p == x by {
        let t = s.push(x);
        if s.contains(p) {
            let k = choose|k: int| 0 <= k < s.len() && s[k] == p;
            assert(t[k] == p);
        }
        if p == x {
            assert(t[s.len() as int] == p);
        }
        if t.contains(p) {
            let k = choose|k: int| 0 <= k < t.len() && t[k] == p;
            if k < s.len() {
                assert(s[k] == p);
            }
        }
    }
}

/// Which rows a bag trains on.
pub fn in_bag_mask(rows: &Vec<u32>, n_rows: usize) -> (mask: Vec<bool>)
    ensures
        mask@.len() == n_rows,
        forall|r: u32| r < n_rows ==> #[trigger] mask@[r as int] == rows@.contains(r),
{
    let mut mask: Vec<bool> = Vec::with_capacity(n_rows);
    let mut k: usize = 0;
    while k < n_rows
        invariant
            k <= n_rows,
            mask@.len() == k,
            forall|j: int| 0 <= j < k ==> !(#[trigger] mask@[j]),
        decreases n_rows - k,
    {
        mask.push(false);
        k = k + 1;
    }
    let mut i: usize = 0;
    while i < rows.len()
        invariant
            i <= rows.len(),
            mask@.len() == n_rows,
            forall|r: u32|
                r < n_rows ==> #[trigger] mask@[r as int] == rows@.take(i as int).contains(r),
        decreases rows.len() - i,
    {
        let row: u32 = rows[i];
        let ghost before = mask@;
        if (row as usize) < n_rows {
            mask.set(row as usize, true);
        }
        proof {
            let now = rows@.take(i + 1);
            let was = rows@.take(i as int);
            assert(now =~= was.push(row));
            assert forall|r: u32| r < n_rows implies #[trigger] mask@[r as int] == now.contains(r) by {
                assert(before[r as int] == was.contains(r));
                if was.contains(r) {
                    let q = choose|q: int| 0 <= q < was.len() && was[q] == r;
                    assert(now[q] == r);
                }
                if r == row {
                    assert(now[i as int] == r);
                }
                if now.contains(r) && r != row {
                    let q = choose|q: int| 0 <= q < now.len() && now[q] == r;
                    assert(was[q] == r);
                }
            }
        }
        i = i + 1;
    }
    assert(rows@.take(i as int) =~= rows@);
    mask
}

/// How many of the first `n` bags do not train on a row.
pub open spec fn bags_without(masks: Seq<Vec<bool>>, n: nat, r: int) -> nat
    decreases n,
{
    if n == 0 {
        0
    } else {
        bags_without(masks, (n - 1) as nat, r) + if !masks[n - 1]@[r] {
            1nat
        } else {
            0nat
        }
    }
}

/// For each row, how many bags do not train on it.
pub fn oob_counts(masks: &Vec<Vec<bool>>, n_rows: usize) -> (counts: Vec<u32>)
    requires
        masks@.len() <= u32::MAX,
        forall|b: int| 0 <= b < masks@.len() ==> (#[trigger] masks@[b])@.len() == n_rows,
    ensures
        counts@.len() == n_rows,
        forall|r: int|
            0 <= r < n_rows ==> (#[trigger] counts@[r]) as nat == bags_without(
                masks@,
                masks@.len(),
                r,
            ),
{
    let mut counts: Vec<u32> = Vec::with_capacity(n_rows);
    let mut r: usize = 0;
    while r < n_rows
        invariant
            r <= n_rows,
            masks@.len() <= u32::MAX,
            forall|b: int| 0 <= b < masks@.len() ==> (#[trigger] masks@[b])@.len() == n_rows,
            counts@.len() == r,
            forall|q: int|
                0 <= q < r ==> (#[trigger] counts@[q]) as nat == bags_without(masks@, masks@.len(), q),
        decreases n_rows - r,
    {
        let mut c: u32 = 0;
        let mut b: usize = 0;
        while b < masks.len()
            invariant
                b <= masks.len(),
                r < n_rows,
                masks@.len() <= u32::MAX,
                forall|b: int| 0 <= b < masks@.len() ==> (#[trigger] masks@[b])@.len() == n_rows,
                c as nat == bags_without(masks@, b as nat, r as int),
                c <= b,
            decreases masks.len() - b,
        {
            assert(masks@[b as int]@.len() == n_rows);
            if !masks[b][r] {
                c = c + 1;
            }
            b = b + 1;
        }
        counts.push(c);
        r = r + 1;
    }
    counts
}

/// Whether a row is set aside to judge the correction: about 15 in 100, spread by
/// multiplication.
pub open spec fn judges(r: u64) -> bool {
    r.wrapping_mul(0x9E37_79B9_7F4A_7C15) >> 56 < 38
}

/// Whether a row is set aside to judge the correction.
pub fn is_judge_row(r: u64) -> (b: bool)
    ensures
        b == judges(r),
{
    (r.wrapping_mul(0x9E37_79B9_7F4A_7C15) >> 56) < 38
}

/// The rows that are judged on: covered by some bag that does not train on them,
/// and set aside. The other covered rows are fitted on.
pub fn correction_rows(counts: &Vec<u32>) -> (parts: (Vec<usize>, Vec<usize>))
    ensures
        forall|r: usize| #[trigger]
            parts.0@.contains(r) <==> r < counts@.len() && counts@[r as int] > 0 && !judges(r as u64),
        forall|r: usize| #[trigger]
            parts.1@.contains(r) <==> r < counts@.len() && counts@[r as int] > 0 && judges(r as u64),
        forall|i: int, j: int| 0 <= i < j < parts.0@.len() ==> parts.0@[i] < parts.0@[j],
        forall|i: int, j: int| 0 <= i < j < parts.1@.len() ==> parts.1@[i] < parts.1@[j],
{
    let mut fit: Vec<usize> = Vec::new();
    let mut judge: Vec<usize> = Vec::new();
    let mut r: usize = 0;
    while r < counts.len()
        invariant
            r <= counts.len(),
            forall|q: usize| #[trigger]
                fit@.contains(q) <==> q < r && counts@[q as int] > 0 && !judges(q as u64),
            forall|q: usize| #[trigger]
                judge@.contains(q) <==> q < r && counts@[q as int] > 0 && judges(q as u64),
            forall|i: int, j: int| 0 <= i < j < fit@.len() ==> fit@[i] < fit@[j],
            forall|i: int, j: int| 0 <= i < j < judge@.len() ==> judge@[i] < judge@[j],
            forall|i: int| 0 <= i < fit@.len() ==> (#[trigger] fit@[i]) < r,
            forall|i: int| 0 <= i < judge@.len() ==> (#[trigger] judge@[i]) < r,
        decreases counts.len() - r,
    {
        let ghost f0 = fit@;
        let ghost j0 = judge@;
        if counts[r] > 0 {
            if is_judge_row(r as u64) {
                judge.push(r);
                proof {
                    lemma_push_row(j0, r);
                }
            } else {
                fit.push(r);
                proof {
                    lemma_push_row(f0, r);
                }
            }
        }
        r = r + 1;
    }
    (fit, judge)
}

proof fn lemma_push_row(s: Seq<usize>, x: usize)
    ensures
        forall|p: usize| #[trigger] s.push(x).contains(p) <==> s.contains(p) || p == x,
{
    assert forall|p: usize| #[trigger] s.push(x).contains(p) <==> s.contains(p) || p == x by {
        let t = s.push(x);
        if s.contains(p) {
            let k = choose|k: int| 0 <= k < s.len() && s[k] == p;
            assert(t[k] == p);
        }
        if p == x {
            assert(t[s.len() as int] == p);
        }
        if t.contains(p) {
            let k = choose|k: int| 0 <= k < t.len() && t[k] == p;
            if k < s.len() {
                assert(s[k] == p);
            }
        }
    }
}

/// Positive infinity.
pub open spec fn infinity() -> F32 {
    F32 { bits: 0x7f80_0000 }
}

/// Whether the first lowest deviance, below infinity, stands at `k`.
pub open spec fn lowest_at(deviances: Seq<F32>, k: int) -> bool {
    &&& deviances[k].below(infinity())
    &&& forall|j: int| 0 <= j < deviances.len() ==> !(#[trigger] deviances[j]).below(deviances[k])
    &&& forall|j: int| 0 <= j < k ==> !(#[trigger] deviances[j]).at_most(deviances[k])
}

/// The strength of a correction, as the position in an ascending list of
/// strengths whose first one is zero: the first with the lowest judged deviance,
/// or none at all where no deviance lies below infinity. Ties go to the weaker
/// correction, so that one that does not help is dropped.
pub fn pick_strength(deviances: &Vec<F32>) -> (k: usize)
    requires
        deviances@.len() > 0,
    ensures
        k < deviances@.len(),
        k > 0 ==> lowest_at(deviances@, k as int),
        k == 0 ==> lowest_at(deviances@, 0) || forall|j: int|
            0 <= j < deviances@.len() ==> !(#[trigger] deviances@[j]).below(infinity()),
{
    let mut best: usize = 0;
    let mut dev: F32 = F32 { bits: 0x7f80_0000 };
    let mut found: bool = false;
    let mut i: usize = 0;
    while i < deviances.len()
        invariant
            i <= deviances.len(),
            deviances@.len() > 0,
            !found ==> best == 0 && dev == infinity() && forall|j: int|
                0 <= j < i ==> !(#[trigger] deviances@[j]).below(infinity()),
            found ==> {
                &&& best < i
                &&& dev == deviances@[best as int]
                &&& dev.below(infinity())
                &&& forall|j: int| 0 <= j < i ==> !(#[trigger] deviances@[j]).below(dev)
                &&& forall|j: int| 0 <= j < best ==> !(#[trigger] deviances@[j]).at_most(dev)
            },
        decreases deviances.len() - i,
    {
        if deviances[i].lt(&dev) {
            best = i;
            dev = deviances[i];
            found = true;
        }
        i = i + 1;
    }
    best
}

/// The strengths of a correction that are judged run from none to full, in
/// quarters.
pub const FULL_STRENGTH: usize = 4;

/// How many quarters of a correction are kept: all of them where no row is set
/// aside to judge it, otherwise as many as [`pick_strength`] says of the judged
/// deviances, one per strength.
pub fn kept_quarters(judged_rows: usize, deviances: &Vec<F32>) -> (q: usize)
    requires
        judged_rows > 0 ==> deviances@.len() == FULL_STRENGTH + 1,
    ensures
        q <= FULL_STRENGTH,
        judged_rows == 0 ==> q == FULL_STRENGTH,
        judged_rows > 0 && q > 0 ==> lowest_at(deviances@, q as int),
        judged_rows > 0 && q == 0 ==> lowest_at(deviances@, 0) || forall|j: int|
            0 <= j < deviances@.len() ==> !(#[trigger] deviances@[j]).below(infinity()),
{
    if judged_rows == 0 {
        FULL_STRENGTH
    } else {
        pick_strength(deviances)
    }
}

/// A judged correction does no harm: where the leaves without it have a usable
/// deviance, the kept strength has none above it, and has it lowered unless the
/// correction is dropped.
pub proof fn law_judged_correction_does_no_harm(deviances: Seq<F32>, q: int)
    requires
        0 <= q < deviances.len(),
        deviances[0].below(infinity()),
        q > 0 ==> lowest_at(deviances, q),
        q == 0 ==> lowest_at(deviances, 0) || forall|j: int|
            0 <= j < deviances.len() ==> !(#[trigger] deviances[j]).below(infinity()),
    ensures
        !deviances[0].below(deviances[q]),
        q > 0 ==> deviances[q].below(deviances[0]),
{
    assert(!deviances[0].below(deviances[q]));
    if q > 0 {
        assert(!deviances[0].at_most(deviances[q]));
    }
}

/// A row judges exactly when its scrambled number is among the lowest 38 of 256
/// parts: it is below `38 * 2^56`.
pub proof fn law_judges_are_38_of_256_parts(r: u64)
    ensures
        judges(r) <==> r.wrapping_mul(0x9E37_79B9_7F4A_7C15) < 0x2600_0000_0000_0000,
{
    let h = r.wrapping_mul(0x9E37_79B9_7F4A_7C15);
    assert(h >> 56 < 38 <==> h < 0x2600_0000_0000_0000) by (bit_vector);
}

/// The count of a row is the number of bags without it.
pub proof fn law_bags_without_a_row_are_counted(masks: Seq<Vec<bool>>, n: nat, r: int)
    requires
        n <= masks.len(),
    ensures
        bags_without(masks, n, r) == masks.take(n as int).filter(|m: Vec<bool>| !m@[r]).len(),
    decreases n,
{
    reveal(Seq::filter);
    if n > 0 {
        law_bags_without_a_row_are_counted(masks, (n - 1) as nat, r);
        assert(masks.take(n as int).drop_last() =~= masks.take(n - 1));
    }
}

/// An axis is correctable exactly when some tree splits on it, and a pair of axes
/// when one tree splits on both.
pub proof fn law_correctable_axes_are_split_on(trees: Seq<WeightedTree>, a: u64, b: u64)
    ensures
        axis_used(trees, trees.len(), a) <==> exists|t: int, k: int|
            0 <= t < trees.len() && 0 <= k < trees[t].1.splits@.len() && (
            #[trigger] trees[t].1.splits@[k]).axis == a,
        pair_used(trees, trees.len(), (a, b)) <==> a < b && exists|t: int, j: int, k: int|
            {
                &&& 0 <= t < trees.len()
                &&& 0 <= j < trees[t].1.splits@.len()
                &&& 0 <= k < trees[t].1.splits@.len()
                &&& (#[trigger] trees[t].1.splits@[j]).axis == a
                &&& (#[trigger] trees[t].1.splits@[k]).axis == b
            },
{
    if a < b && exists|t: int, j: int, k: int|
        {
            &&& 0 <= t < trees.len()
            &&& 0 <= j < trees[t].1.splits@.len()
            &&& 0 <= k < trees[t].1.splits@.len()
            &&& (#[trigger] trees[t].1.splits@[j]).axis == a
            &&& (#[trigger] trees[t].1.splits@[k]).axis == b
        } {
        let (t, j, k) = choose|t: int, j: int, k: int|
            {
                &&& 0 <= t < trees.len()
                &&& 0 <= j < trees[t].1.splits@.len()
                &&& 0 <= k < trees[t].1.splits@.len()
                &&& (#[trigger] trees[t].1.splits@[j]).axis == a
                &&& (#[trigger] trees[t].1.splits@[k]).axis == b
            };
        assert(tree_uses(trees[t], a) && tree_uses(trees[t], b));
    }
    if pair_used(trees, trees.len(), (a, b)) {
        let t = choose|t: int|
            0 <= t < trees.len() && #[trigger] tree_uses(trees[t], a) && tree_uses(trees[t], b);
        let j = choose|j: int|
            0 <= j < trees[t].1.splits@.len() && (#[trigger] trees[t].1.splits@[j]).axis == a;
        let k = choose|k: int|
            0 <= k < trees[t].1.splits@.len() && (#[trigger] trees[t].1.splits@[k]).axis == b;
        assert(trees[t].1.splits@[j].axis == a && trees[t].1.splits@[k].axis == b);
    }
}

/// The strength that is kept has the lowest deviance of all, the first of equal
/// ones; without judges all four quarters are kept.
pub proof fn law_the_kept_strength_is_the_lowest(deviances: Seq<F32>, k: int, j: int)
    requires
        0 <= k < deviances.len(),
        lowest_at(deviances, k),
        0 <= j < deviances.len(),
        !deviances[j].nan(),
    ensures
        !deviances[k].nan(),
        deviances[k].key() <= deviances[j].key(),
        j < k ==> deviances[k].key() < deviances[j].key(),
        FULL_STRENGTH == 4,
{
    assert(!deviances[j].below(deviances[k]));
}

/// A finite deviance is always low enough to be kept.
pub proof fn law_finite_deviances_can_be_kept(x: F32)
    requires
        x.finite(),
    ensures
        x.below(infinity()),
{
}

} // verus!
