//! The order of categorical levels and the bins that follow from it.
//!
//! Levels are ordered by encoding and dealt out to at most [`MAX_CAT_BINS`] bins
//! along that order, so that a split of the axis is a split of that order.
use crate::cat::{
    encoding_name, encoding_text, level_views, CatEncoder, CatLevel, LevelView,
};
use crate::data::bin::bin_of;
use crate::data::grid::{
    distinct_of, lemma_borders_below_is, lemma_distinct_ascends, total_ascending,
};
use crate::data::{borders_ascend, feature_name, feature_text, BorderGrid, GridView};
use crate::error::{answers, internal, invalid_input, Fault, PbError};
use crate::float::F32;
use crate::labels::{before, is_label_order, label_lt, label_order, texts};
use crate::sort::{lemma_sorted_members, pair_le, sort_pairs};
use crate::values::{is_midpoint, law_midpoint_lies_between};
use vstd::prelude::*;

verus! {

/// At most this many bins per categorical axis.
pub const MAX_CAT_BINS: usize = 254;

/// The labels of levels.
pub open spec fn level_labels(v: Seq<LevelView>) -> Seq<Seq<char>> {
    v.map_values(|l: LevelView| l.label)
}

/// Whether level `i` stands before level `j`: by encoding in the total order,
/// then by label, then by position.
pub open spec fn level_before(v: Seq<LevelView>, i: usize, j: usize) -> bool {
    ||| v[i as int].encoding.total_key() < v[j as int].encoding.total_key()
    ||| v[i as int].encoding.total_key() == v[j as int].encoding.total_key() && before(
        level_labels(v),
        i,
        j,
    )
}

/// Whether `order` lists the levels in their order, each once.
pub open spec fn is_level_order(order: Seq<usize>, v: Seq<LevelView>) -> bool {
    &&& order.len() == v.len()
    &&& order.no_duplicates()
    &&& forall|i: int| 0 <= i < order.len() ==> #[trigger] order[i] < v.len()
    &&& forall|p: usize| p < v.len() ==> #[trigger] order.contains(p)
    &&& forall|i: int, j: int|
        0 <= i < j < order.len() ==> level_before(v, #[trigger] order[i], #[trigger] order[j])
}

/// The order of the levels.
pub open spec fn level_order_of(v: Seq<LevelView>) -> Seq<usize> {
    choose|order: Seq<usize>| is_level_order(order, v)
}

proof fn lemma_level_order_prefix(a: Seq<usize>, b: Seq<usize>, v: Seq<LevelView>, p: int)
    requires
        is_level_order(a, v),
        is_level_order(b, v),
        0 <= p <= v.len(),
    ensures
        a.take(p) == b.take(p),
    decreases p,
{
    if p > 0 {
        lemma_level_order_prefix(a, b, v, p - 1);
        let x = a[p - 1];
        let y = b[p - 1];
        if x != y {
            assert(b.contains(x));
            assert(a.contains(y));
            let i = choose|i: int| 0 <= i < b.len() && b[i] == x;
            let j = choose|j: int| 0 <= j < a.len() && a[j] == y;
            if i < p - 1 {
                assert(a.take(p - 1)[i] == b.take(p - 1)[i]);
                assert(a[i] == a[p - 1]);
            }
            if j < p - 1 {
                assert(a.take(p - 1)[j] == b.take(p - 1)[j]);
                assert(b[j] == b[p - 1]);
            }
            assert(level_before(v, b[p - 1], b[i]));
            assert(level_before(v, a[p - 1], a[j]));
            crate::labels::lemma_before_total(level_labels(v), x, y, x);
        }
        assert(a.take(p) =~= a.take(p - 1).push(x));
        assert(b.take(p) =~= b.take(p - 1).push(y));
    }
}

/// Levels have one order only.
pub proof fn law_level_order_is_unique(order: Seq<usize>, v: Seq<LevelView>)
    requires
        is_level_order(order, v),
    ensures
        order == level_order_of(v),
{
    let other = level_order_of(v);
    lemma_level_order_prefix(order, other, v, v.len() as int);
    assert(order =~= order.take(v.len() as int));
    assert(other =~= other.take(v.len() as int));
}

/// The positions of the levels in their order.
pub fn level_order(levels: &Vec<CatLevel>) -> (order: Vec<usize>)
    ensures
        is_level_order(order@, level_views(levels@)),
        order@ == level_order_of(level_views(levels@)),
{
    let ghost v = level_views(levels@);
    let n: usize = levels.len();
    let mut labels: Vec<String> = Vec::with_capacity(n);
    let mut i: usize = 0;
    while i < n
        invariant
            i <= n,
            n == levels@.len(),
            labels@.len() == i,
            forall|j: int| 0 <= j < i ==> (#[trigger] labels@[j])@ == levels@[j].label@,
        decreases n - i,
    {
        labels.push(levels[i].label.clone());
        i = i + 1;
    }
    let ghost t = level_labels(v);
    assert(texts(labels@) =~= t);
    let by_label = label_order(&labels);
    let mut pos: Vec<usize> = Vec::with_capacity(n);
    let mut z: usize = 0;
    while z < n
        invariant
            z <= n,
            pos@.len() == z,
        decreases n - z,
    {
        pos.push(0);
        z = z + 1;
    }
    let mut p: usize = 0;
    while p < n
        invariant
            p <= n,
            n == t.len(),
            pos@.len() == n,
            is_label_order(by_label@, t),
            forall|q: int| 0 <= q < p ==> pos@[(#[trigger] by_label@[q]) as int] == q,
        decreases n - p,
    {
        let ghost before_pos = pos@;
        let x: usize = by_label[p];
        pos.set(x, p);
        proof {
            assert forall|q: int| 0 <= q < p + 1 implies pos@[(#[trigger] by_label@[q]) as int]
                == q by {
                if q < p {
                    assert(by_label@[q] != by_label@[p as int]);
                }
            }
        }
        p = p + 1;
    }
    proof {
        assert forall|i: int| 0 <= i < n implies (#[trigger] pos@[i]) < n && by_label@[pos@[i] as int]
            == i by {
            assert(by_label@.contains(i as usize));
            let q = choose|q: int| 0 <= q < by_label@.len() && by_label@[q] == i as usize;
            assert(pos@[by_label@[q] as int] == q);
        }
    }
    let mut keys: Vec<(u64, u64)> = Vec::with_capacity(n);
    let mut k: usize = 0;
    while k < n
        invariant
            k <= n,
            n == levels@.len(),
            v == level_views(levels@),
            pos@.len() == n,
            keys@.len() == k,
            forall|j: int|
                0 <= j < k ==> (#[trigger] keys@[j]).0 as int == v[j].encoding.total_key() + 0x8000_0000
                    && keys@[j].1 == pos@[j],
        decreases n - k,
    {
        keys.push((levels[k].encoding.total_rank() as u64, pos[k] as u64));
        k = k + 1;
    }
    let ghost unsorted = keys@;
    let sorted = sort_pairs(keys);
    proof {
        lemma_sorted_members(unsorted);
        assert forall|j: int| 0 <= j < n implies (#[trigger] sorted@[j]).1 < n && sorted@[j]
            == unsorted[by_label@[sorted@[j].1 as int] as int] by {
            assert(unsorted.contains(sorted@[j]));
            let w = choose|w: int| 0 <= w < unsorted.len() && unsorted[w] == sorted@[j];
            assert(sorted@[j].1 == pos@[w]);
        }
        assert forall|a: int, b: int| 0 <= a < b < unsorted.len() implies unsorted[a]
            != unsorted[b] by {
            assert(unsorted[a].1 == pos@[a] && unsorted[b].1 == pos@[b]);
        }
        assert(unsorted.no_duplicates());
        unsorted.lemma_multiset_has_no_duplicates();
        sorted@.lemma_multiset_has_no_duplicates_conv();
    }
    let mut order: Vec<usize> = Vec::with_capacity(n);
    let mut j: usize = 0;
    while j < n
        invariant
            j <= n,
            sorted@.len() == n,
            by_label@.len() == n,
            forall|q: int| 0 <= q < n ==> (#[trigger] sorted@[q]).1 < n,
            order@.len() == j,
            forall|q: int|
                0 <= q < j ==> #[trigger] order@[q] == by_label@[sorted@[q].1 as int],
        decreases n - j,
    {
        order.push(by_label[sorted[j].1 as usize]);
        j = j + 1;
    }
    proof {
        assert forall|a: int| 0 <= a < n implies (#[trigger] order@[a]) < n && sorted@[a]
            == unsorted[order@[a] as int] by {
            assert(sorted@[a].1 < n);
        }
        assert forall|a: int, b: int| 0 <= a < b < n implies level_before(
            v,
            #[trigger] order@[a],
            #[trigger] order@[b],
        ) && order@[a] != order@[b] by {
            let x = order@[a];
            let y = order@[b];
            assert(sorted@[a] == unsorted[x as int]);
            assert(sorted@[b] == unsorted[y as int]);
            assert(pair_le(sorted@[a], sorted@[b]));
            assert(sorted@[a] != sorted@[b]);
            assert(unsorted[x as int].1 == pos@[x as int]);
            assert(unsorted[y as int].1 == pos@[y as int]);
            if pos@[x as int] < pos@[y as int] {
                assert(before(t, by_label@[pos@[x as int] as int], by_label@[pos@[y as int] as int]));
            }
        }
        assert forall|q: usize| q < n implies #[trigger] order@.contains(q) by {
            assert(unsorted.contains(unsorted[q as int]));
            assert(sorted@.contains(unsorted[q as int]));
            let a = choose|a: int| 0 <= a < sorted@.len() && sorted@[a] == unsorted[q as int];
            assert(sorted@[a] == unsorted[order@[a] as int]);
            assert(unsorted[order@[a] as int].1 == pos@[order@[a] as int]);
            assert(unsorted[q as int].1 == pos@[q as int]);
            assert(by_label@[pos@[q as int] as int] == q);
            assert(by_label@[pos@[order@[a] as int] as int] == order@[a]);
            assert(order@[a] == q);
        }
        assert(is_level_order(order@, v));
        law_level_order_is_unique(order@, v);
    }
    order
}

/// The levels in their order.
pub open spec fn ordered_levels(v: Seq<LevelView>) -> Seq<LevelView> {
    Seq::new(v.len(), |p: int| v[level_order_of(v)[p] as int])
}

/// The encodings of levels.
pub open spec fn encodings_of(v: Seq<LevelView>) -> Seq<F32> {
    v.map_values(|l: LevelView| l.encoding)
}

/// The number of changes of encoding up to position `p` of the order.
pub open spec fn encoding_rank(s: Seq<F32>, p: int) -> nat
    decreases p,
{
    if p <= 0 {
        0
    } else {
        encoding_rank(s, p - 1) + if s[p].same(s[p - 1]) {
            0nat
        } else {
            1nat
        }
    }
}

/// The bin of the level at position `p` of the order: its rank among the
/// distinct encodings, scaled to the number of bins.
pub open spec fn fisher_bin(s: Seq<F32>, p: int) -> int {
    let d = distinct_of(s).len();
    let bins = if d < MAX_CAT_BINS {
        d
    } else {
        MAX_CAT_BINS as nat
    };
    1 + (encoding_rank(s, p) as int * bins as int) / (d as int)
}

/// The first position of the order that holds a non-finite encoding, or the
/// length.
pub open spec fn first_not_finite(s: Seq<F32>, from: int) -> int
    decreases s.len() - from,
{
    if from >= s.len() {
        s.len() as int
    } else if !s[from].finite() {
        from
    } else {
        first_not_finite(s, from + 1)
    }
}

/// Why levels cannot be binned.
pub open spec fn fisher_fault(v: Seq<LevelView>) -> Option<Fault> {
    let o = ordered_levels(v);
    let p = first_not_finite(encodings_of(o), 0);
    if 0 <= p < o.len() {
        Some(
            Fault::InvalidInput(
                "categorical level `"@ + o[p].label + "` has non-finite encoding"@,
            ),
        )
    } else {
        None
    }
}

proof fn lemma_first_not_finite(s: Seq<F32>, from: int, p: int)
    requires
        0 <= from <= p <= s.len(),
        forall|q: int| from <= q < p ==> (#[trigger] s[q]).finite(),
        p < s.len() ==> !s[p].finite(),
    ensures
        first_not_finite(s, from) == p,
    decreases p - from,
{
    if from < p {
        assert(s[from].finite());
        lemma_first_not_finite(s, from + 1, p);
    }
}

/// The encodings in order ascend in the total order.
pub proof fn lemma_ordered_ascend(v: Seq<LevelView>)
    requires
        is_level_order(level_order_of(v), v),
    ensures
        total_ascending(encodings_of(ordered_levels(v))),
{
    let o = level_order_of(v);
    let s = encodings_of(ordered_levels(v));
    assert forall|i: int, j: int| 0 <= i < j < s.len() implies (#[trigger] s[i]).total_key() <= (
    #[trigger] s[j]).total_key() by {
        assert(level_before(v, o[i], o[j]));
    }
}

/// Counting changes of encoding counts the distinct encodings.
pub proof fn lemma_rank_counts_distinct(s: Seq<F32>, p: int)
    requires
        total_ascending(s),
        forall|i: int| 0 <= i < s.len() ==> (#[trigger] s[i]).finite(),
        0 <= p < s.len(),
    ensures
        distinct_of(s.take(p + 1)).len() == encoding_rank(s, p) + 1,
        encoding_rank(s, p) < distinct_of(s).len(),
    decreases s.len() + p,
{
    let now = s.take(p + 1);
    assert(now.drop_last() =~= s.take(p));
    assert(now.last() == s[p]);
    assert(total_ascending(s.take(p)));
    assert forall|i: int| 0 <= i < s.take(p).len() implies (#[trigger] s.take(p)[i]).finite() by {
        assert(s.take(p)[i] == s[i]);
    }
    lemma_distinct_ascends(s.take(p));
    if p > 0 {
        lemma_rank_counts_distinct(s, p - 1);
        assert(s.take(p).last() == s[p - 1]);
        assert(s[p].finite() && s[p - 1].finite());
        assert(distinct_of(s.take(p)).last().same(s[p - 1]));
    } else {
        assert(s.take(0) =~= Seq::<F32>::empty());
    }
    lemma_distinct_grows(s, p + 1);
}

proof fn lemma_distinct_grows(s: Seq<F32>, n: int)
    requires
        0 <= n <= s.len(),
    ensures
        distinct_of(s.take(n)).len() <= distinct_of(s).len(),
    decreases s.len(),
{
    if n < s.len() {
        lemma_distinct_grows(s.drop_last(), n);
        assert(s.drop_last().take(n) =~= s.take(n));
    } else {
        assert(s.take(n) =~= s);
    }
}

/// The bin of every level is a data bin that fits into a byte.
pub proof fn law_fisher_bin_in_range(s: Seq<F32>, p: int)
    requires
        total_ascending(s),
        forall|i: int| 0 <= i < s.len() ==> (#[trigger] s[i]).finite(),
        0 <= p < s.len(),
    ensures
        1 <= fisher_bin(s, p) <= MAX_CAT_BINS,
        fisher_bin(s, p) <= distinct_of(s).len(),
{
    lemma_rank_counts_distinct(s, p);
    let d = distinct_of(s).len() as int;
    let r = encoding_rank(s, p) as int;
    let b = if d < MAX_CAT_BINS {
        d
    } else {
        MAX_CAT_BINS as int
    };
    assert(0 <= r * b && r * b < d * b && (r * b) / d < b && 0 <= (r * b) / d) by (nonlinear_arith)
        requires
            0 <= r < d,
            0 < b,
    ;
}

/// Bins never fall along the order, and levels with equal encodings share one.
pub proof fn law_fisher_bins_follow_encodings(s: Seq<F32>, p: int, q: int)
    requires
        total_ascending(s),
        forall|i: int| 0 <= i < s.len() ==> (#[trigger] s[i]).finite(),
        0 <= p <= q < s.len(),
    ensures
        fisher_bin(s, p) <= fisher_bin(s, q),
        s[p].same(s[q]) ==> fisher_bin(s, p) == fisher_bin(s, q),
    decreases q - p,
{
    if p < q {
        law_fisher_bins_follow_encodings(s, p, q - 1);
        lemma_rank_counts_distinct(s, q);
        let d = distinct_of(s).len() as int;
        let a = encoding_rank(s, q - 1) as int;
        let c = encoding_rank(s, q) as int;
        let b = if d < MAX_CAT_BINS {
            d
        } else {
            MAX_CAT_BINS as int
        };
        assert(a * b <= c * b) by (nonlinear_arith)
            requires
                0 <= a <= c,
                0 < b,
        ;
        vstd::arithmetic::div_mod::lemma_div_is_ordered(a * b, c * b, d);
        assert(s[q - 1].total_key() <= s[q].total_key());
        assert(s[p].total_key() <= s[q - 1].total_key() || p == q - 1);
        assert(s[p].finite() && s[q - 1].finite() && s[q].finite());
        if s[p].same(s[q]) {
            assert(s[p].key() <= s[q - 1].key() <= s[q].key());
        }
    }
}

/// With no more distinct encodings than bins, each has a bin of its own.
pub proof fn law_few_encodings_are_separated(s: Seq<F32>, p: int)
    requires
        total_ascending(s),
        forall|i: int| 0 <= i < s.len() ==> (#[trigger] s[i]).finite(),
        0 <= p < s.len(),
        distinct_of(s).len() <= MAX_CAT_BINS,
    ensures
        fisher_bin(s, p) == encoding_rank(s, p) + 1,
{
    lemma_rank_counts_distinct(s, p);
    let d = distinct_of(s).len() as int;
    let r = encoding_rank(s, p) as int;
    assert((r * d) / d == r) by (nonlinear_arith)
        requires
            0 < d,
            0 <= r,
    ;
}

/// Orders the levels and gives each its bin.
pub fn assign_fisher_bins(levels: &Vec<CatLevel>) -> (r: Result<Vec<CatLevel>, PbError>)
    ensures
        answers(r, fisher_fault(level_views(levels@))),
        r is Ok ==> {
            let o = ordered_levels(level_views(levels@));
            &&& r->Ok_0@.len() == o.len()
            &&& forall|p: int|
                0 <= p < o.len() ==> (#[trigger] r->Ok_0@[p])@ == (LevelView {
                    bin: fisher_bin(encodings_of(o), p) as u8,
                    ..o[p]
                })
        },
{
    let ghost v = level_views(levels@);
    let ghost o = ordered_levels(v);
    let ghost s = encodings_of(o);
    let n: usize = levels.len();
    let order = level_order(levels);
    proof {
        lemma_ordered_ascend(v);
    }
    let mut distinct: usize = 0;
    let mut p: usize = 0;
    while p < n
        invariant
            p <= n,
            n == levels@.len(),
            v == level_views(levels@),
            o == ordered_levels(v),
            s == encodings_of(o),
            is_level_order(order@, v),
            order@ == level_order_of(v),
            total_ascending(s),
            forall|q: int| 0 <= q < p ==> (#[trigger] s[q]).finite(),
            distinct <= p,
            p == 0 ==> distinct == 0,
            p > 0 ==> distinct == encoding_rank(s, p - 1) + 1,
        decreases n - p,
    {
        let x: usize = order[p];
        assert(o[p as int] == levels@[x as int]@);
        assert(s[p as int] == levels@[x as int].encoding);
        if !levels[x].encoding.is_finite() {
            proof {
                lemma_first_not_finite(s, 0, p as int);
            }
            let mut what = String::from_str("categorical level `");
            what.append(levels[x].label.as_str());
            what.append("` has non-finite encoding");
            return Err(PbError::InvalidInput { what });
        }
        let fresh: bool = if p == 0 {
            true
        } else {
            let y: usize = order[p - 1];
            assert(s[p - 1] == levels@[y as int].encoding);
            !levels[x].encoding.ieee_eq(&levels[y].encoding)
        };
        if fresh {
            distinct = distinct + 1;
        }
        p = p + 1;
    }
    proof {
        lemma_first_not_finite(s, 0, n as int);
        if n > 0 {
            lemma_rank_counts_distinct(s, n - 1);
            assert(s.take(n as int) =~= s);
        }
    }
    let bins: usize = if distinct < MAX_CAT_BINS {
        distinct
    } else {
        MAX_CAT_BINS
    };
    let mut out: Vec<CatLevel> = Vec::with_capacity(n);
    let mut rank: usize = 0;
    let mut q: usize = 0;
    while q < n
        invariant
            q <= n,
            n == levels@.len(),
            v == level_views(levels@),
            o == ordered_levels(v),
            s == encodings_of(o),
            is_level_order(order@, v),
            order@ == level_order_of(v),
            total_ascending(s),
            forall|i: int| 0 <= i < s.len() ==> (#[trigger] s[i]).finite(),
            s.len() == n,
            distinct == distinct_of(s).len(),
            bins == (if distinct < MAX_CAT_BINS {
                distinct
            } else {
                MAX_CAT_BINS
            }),
            rank == encoding_rank(s, q - 1),
            out@.len() == q,
            forall|i: int|
                0 <= i < q ==> (#[trigger] out@[i])@ == (LevelView {
                    bin: fisher_bin(s, i) as u8,
                    ..o[i]
                }),
        decreases n - q,
    {
        let x: usize = order[q];
        assert(o[q as int] == levels@[x as int]@);
        assert(s[q as int] == levels@[x as int].encoding);
        if q > 0 {
            let y: usize = order[q - 1];
            assert(s[q - 1] == levels@[y as int].encoding);
            if !levels[x].encoding.ieee_eq(&levels[y].encoding) {
                proof {
                    lemma_rank_counts_distinct(s, q as int);
                }
                rank = rank + 1;
            }
        }
        proof {
            lemma_rank_counts_distinct(s, q as int);
            law_fisher_bin_in_range(s, q as int);
            assert((rank as int) * (bins as int) <= 0xffff_ffff_ffff_ffff * 254) by (nonlinear_arith)
                requires
                    0 <= rank <= 0xffff_ffff_ffff_ffff,
                    0 <= bins <= 254,
            ;
        }
        let scaled: u128 = (rank as u128 * bins as u128) / distinct as u128;
        let bin: u8 = (1 + scaled) as u8;
        out.push(levels[x].in_bin(bin));
        q = q + 1;
    }
    Ok(out)
}

/// The borders that the first `n` levels of the order give, or why they give
/// none: a border stands wherever the bin changes, and `mids[p]` is the number
/// midway between the encodings at positions `p` and `p + 1`.
pub open spec fn level_borders(
    o: Seq<LevelView>,
    mids: Seq<F32>,
    name: Seq<char>,
    n: nat,
) -> Result<Seq<F32>, Fault>
    decreases n,
{
    if n == 0 {
        Ok(Seq::empty())
    } else {
        match level_borders(o, mids, name, (n - 1) as nat) {
            Err(f) => Err(f),
            Ok(borders) => {
                let level = o[n - 1];
                if !level.encoding.finite() {
                    Err(
                        Fault::InvalidInput(
                            "categorical encoder "@ + name + " has non-finite encoding for `"@
                                + level.label + "`"@,
                        ),
                    )
                } else if level.bin == 0 {
                    Err(
                        Fault::InvalidInput(
                            "categorical encoder "@ + name + " assigned reserved bin 0 to `"@
                                + level.label + "`"@,
                        ),
                    )
                } else if n == 1 || level.bin == o[n - 2].bin {
                    Ok(borders)
                } else if level.bin < o[n - 2].bin {
                    Err(
                        Fault::InvalidInput(
                            "categorical encoder bins must be non-decreasing in encoding order"@,
                        ),
                    )
                } else if level.encoding.at_most(o[n - 2].encoding) {
                    Err(
                        Fault::InvalidInput("categorical encoder split tied encodings across bins"@),
                    )
                } else if !mids[n - 2].finite() {
                    Err(Fault::InvalidInput("categorical Fisher border is not finite"@))
                } else if borders.len() > 0 && mids[n - 2].at_most(borders.last()) {
                    Err(
                        Fault::InvalidInput(
                            "categorical Fisher borders must be strictly ascending"@,
                        ),
                    )
                } else {
                    Ok(borders.push(mids[n - 2]))
                }
            },
        }
    }
}

/// The name of an encoder in messages.
pub open spec fn encoder_text(e: CatEncoder) -> Seq<char> {
    feature_text(e.raw) + "/"@ + encoding_text(e.id)
}

/// Why an encoder has no grid.
pub open spec fn border_grid_fault(e: CatEncoder, mids: Seq<F32>) -> Option<Fault> {
    let o = ordered_levels(level_views(e.levels@));
    match level_borders(o, mids, encoder_text(e), o.len()) {
        Err(f) => Some(f),
        Ok(borders) => if borders.len() + 2 > u16::MAX {
            Some(Fault::Internal("categorical n_bins exceeded u16"@))
        } else {
            None
        },
    }
}

/// Bins start at one and leave none out: a level lies in the bin of the one before
/// it, or in the next.
pub proof fn law_fisher_bins_are_contiguous(s: Seq<F32>, p: int)
    requires
        total_ascending(s),
        forall|i: int| 0 <= i < s.len() ==> (#[trigger] s[i]).finite(),
        0 <= p < s.len(),
    ensures
        p == 0 ==> fisher_bin(s, p) == 1,
        p > 0 ==> fisher_bin(s, p - 1) <= fisher_bin(s, p) <= fisher_bin(s, p - 1) + 1,
{
    lemma_rank_counts_distinct(s, p);
    let d = distinct_of(s).len() as int;
    let b = if d < MAX_CAT_BINS {
        d
    } else {
        MAX_CAT_BINS as int
    };
    if p == 0 {
        assert((0 * b) / d == 0) by (nonlinear_arith)
            requires
                d > 0,
        ;
    } else {
        law_fisher_bins_follow_encodings(s, p - 1, p);
        let r = encoding_rank(s, p - 1) as int;
        assert((r + 1) * b <= r * b + d) by (nonlinear_arith)
            requires
                b <= d,
        ;
        vstd::arithmetic::div_mod::lemma_div_is_ordered((r + 1) * b, r * b + d, d);
        assert((r * b + d) / d == (r * b) / d + 1) by (nonlinear_arith)
            requires
                d > 0,
        ;
    }
}

/// Whether the bins of levels in their order start at one and leave none out.
pub open spec fn bins_contiguous(o: Seq<LevelView>) -> bool {
    &&& o.len() > 0 ==> o[0].bin == 1
    &&& forall|p: int|
        0 < p < o.len() ==> o[p - 1].bin <= (#[trigger] o[p]).bin <= o[p - 1].bin + 1
}

/// Whether each number lies between the encodings on its two sides.
pub open spec fn mids_between(o: Seq<LevelView>, mids: Seq<F32>) -> bool {
    forall|p: int|
        0 < p < o.len() && o[p - 1].bin != (#[trigger] o[p]).bin ==> o[p - 1].encoding.at_most(
            mids[p - 1],
        ) && mids[p - 1].below(o[p].encoding)
}

/// The borders of the first `n` levels split the encodings by their bins.
proof fn lemma_borders_split_levels(
    o: Seq<LevelView>,
    mids: Seq<F32>,
    name: Seq<char>,
    n: nat,
    p: int,
)
    requires
        0 <= p < n <= o.len(),
        total_ascending(encodings_of(o)),
        bins_contiguous(o),
        mids_between(o, mids),
        level_borders(o, mids, name, n) is Ok,
    ensures
        ({
            let b = level_borders(o, mids, name, n)->Ok_0;
            &&& borders_ascend(b)
            &&& b.len() == o[n - 1].bin - 1
            &&& forall|i: int| 0 <= i < o[p].bin - 1 ==> (#[trigger] b[i]).below(o[p].encoding)
            &&& forall|i: int|
                o[p].bin - 1 <= i < b.len() ==> !(#[trigger] b[i]).below(o[p].encoding)
            &&& 1 <= o[p].bin <= o[n - 1].bin
        }),
    decreases n,
{
    let s = encodings_of(o);
    assert(forall|i: int| 0 <= i < o.len() ==> s[i] == o[i].encoding);
    if n == 1 {
        assert(level_borders(o, mids, name, 0) is Ok);
    } else {
        let m = (n - 1) as nat;
        let before = level_borders(o, mids, name, m)->Ok_0;
        let b = level_borders(o, mids, name, n)->Ok_0;
        let prev = m - 1;
        lemma_borders_split_levels(o, mids, name, m, prev);
        assert(level_borders(o, mids, name, m) is Ok);
        assert(o[m as int].encoding.finite());
        lemma_levels_finite(o, mids, name, m);
        assert(s[prev].total_key() <= s[m as int].total_key());
        if p < m {
            lemma_borders_split_levels(o, mids, name, m, p);
            assert(p == prev || s[p].total_key() <= s[prev].total_key());
            if b.len() > before.len() {
                assert(b =~= before.push(mids[prev]));
                assert forall|i: int| o[p].bin - 1 <= i < b.len() implies !(#[trigger] b[i]).below(
                    o[p].encoding,
                ) by {
                    if i < before.len() {
                        assert(b[i] == before[i]);
                    }
                }
                assert forall|i: int| 0 <= i < o[p].bin - 1 implies (#[trigger] b[i]).below(
                    o[p].encoding,
                ) by {
                    assert(b[i] == before[i]);
                }
            }
        } else {
            assert forall|i: int| 0 <= i < b.len() implies (#[trigger] b[i]).below(
                o[p].encoding,
            ) by {
                if i < before.len() {
                    assert(b[i] == before[i]);
                    assert(before[i].below(o[prev].encoding));
                }
            }
        }
        if b.len() > before.len() {
            assert(b =~= before.push(mids[prev]));
            assert forall|i: int, j: int| 0 <= i < j < b.len() implies (#[trigger] b[i]).key() < (
            #[trigger] b[j]).key() by {
                assert(b[i] == before[i]);
                assert(before[i].below(o[prev].encoding));
            }
        }
    }
}

proof fn lemma_levels_finite(o: Seq<LevelView>, mids: Seq<F32>, name: Seq<char>, n: nat)
    requires
        n <= o.len(),
        level_borders(o, mids, name, n) is Ok,
    ensures
        forall|i: int| 0 <= i < n ==> (#[trigger] o[i]).encoding.finite(),
    decreases n,
{
    if n > 0 {
        lemma_levels_finite(o, mids, name, (n - 1) as nat);
    }
}

/// Levels with bins that start at one and leave none out have borders: where the
/// encodings are finite and in order, and a number lies between each two
/// neighbours in different bins, nothing is refused, and there is one border less
/// than there are bins.
pub proof fn law_contiguous_bins_have_borders(
    o: Seq<LevelView>,
    mids: Seq<F32>,
    name: Seq<char>,
    n: nat,
)
    requires
        n <= o.len(),
        total_ascending(encodings_of(o)),
        forall|i: int| 0 <= i < o.len() ==> (#[trigger] o[i]).encoding.finite(),
        bins_contiguous(o),
        mids_between(o, mids),
    ensures
        level_borders(o, mids, name, n) is Ok,
        borders_ascend(level_borders(o, mids, name, n)->Ok_0),
        n > 0 ==> level_borders(o, mids, name, n)->Ok_0.len() == o[n - 1].bin - 1,
    decreases n,
{
    if n > 0 {
        let m = (n - 1) as nat;
        law_contiguous_bins_have_borders(o, mids, name, m);
        lemma_bins_start_at_one(o, m as int);
        let before = level_borders(o, mids, name, m)->Ok_0;
        let here = o[m as int];
        assert(here.encoding.finite());
        if m > 0 {
            assert(o[m - 1].encoding.finite());
            lemma_borders_split_levels(o, mids, name, m, m - 1);
            if before.len() > 0 {
                assert(before[before.len() - 1].below(o[m - 1].encoding));
            }
        }
        assert(level_borders(o, mids, name, n) is Ok);
        lemma_borders_split_levels(o, mids, name, n, m as int);
    }
}

proof fn lemma_bins_start_at_one(o: Seq<LevelView>, p: int)
    requires
        bins_contiguous(o),
        0 <= p < o.len(),
    ensures
        o[p].bin >= 1,
    decreases p,
{
    if p > 0 {
        lemma_bins_start_at_one(o, p - 1);
    }
}

/// With a border between each two neighbours in different bins, every level's
/// encoding falls into the level's own bin.
pub proof fn law_encodings_fall_into_their_bins(
    o: Seq<LevelView>,
    mids: Seq<F32>,
    name: Seq<char>,
    g: GridView,
    p: int,
)
    requires
        total_ascending(encodings_of(o)),
        bins_contiguous(o),
        mids_between(o, mids),
        level_borders(o, mids, name, o.len()) == Ok::<Seq<F32>, Fault>(g.borders),
        0 <= p < o.len(),
    ensures
        bin_of(o[p].encoding, g) == o[p].bin,
{
    lemma_borders_split_levels(o, mids, name, o.len(), p);
    lemma_levels_finite(o, mids, name, o.len());
    assert(o[p].encoding.finite());
    lemma_borders_below_is(g.borders, o[p].encoding, (o[p].bin - 1) as nat);
}

/// The levels of a fit fall into their bins: with the bins that
/// [`assign_fisher_bins`] gives, in the order of the encodings, and a border between
/// each two neighbours in different bins, the borders are not refused, and every
/// level's encoding is binned to the level's own bin.
pub proof fn law_fitted_levels_fall_into_their_bins(
    o: Seq<LevelView>,
    mids: Seq<F32>,
    name: Seq<char>,
    g: GridView,
    p: int,
)
    requires
        total_ascending(encodings_of(o)),
        forall|i: int| 0 <= i < o.len() ==> (#[trigger] o[i]).encoding.finite(),
        forall|i: int| 0 <= i < o.len() ==> (#[trigger] o[i]).bin == fisher_bin(encodings_of(o), i),
        mids_between(o, mids),
        0 <= p < o.len(),
    ensures
        level_borders(o, mids, name, o.len()) is Ok,
        g.borders == level_borders(o, mids, name, o.len())->Ok_0 ==> bin_of(o[p].encoding, g)
            == o[p].bin,
{
    let s = encodings_of(o);
    assert forall|i: int| 0 <= i < s.len() implies (#[trigger] s[i]).finite() by {
        assert(o[i].encoding.finite());
    }
    law_fisher_bins_are_contiguous(s, 0);
    assert forall|i: int| 0 < i < o.len() implies o[i - 1].bin <= (#[trigger] o[i]).bin <= o[i
        - 1].bin + 1 by {
        law_fisher_bins_are_contiguous(s, i);
    }
    law_contiguous_bins_have_borders(o, mids, name, o.len());
    if g.borders == level_borders(o, mids, name, o.len())->Ok_0 {
        law_encodings_fall_into_their_bins(o, mids, name, g, p);
    }
}

/// Whether neighbours in different bins are at least two steps apart, and the
/// number for the border between them is their rounded midpoint.
pub open spec fn mids_rounded(o: Seq<LevelView>, mids: Seq<F32>) -> bool {
    forall|p: int|
        0 < p < o.len() && o[p - 1].bin != (#[trigger] o[p]).bin ==> o[p - 1].encoding.key() + 2
            <= o[p].encoding.key() && is_midpoint(
            mids[p - 1],
            o[p - 1].encoding,
            o[p].encoding,
        )
}

/// An encoder with finite encodings, bins that start at one and leave none out,
/// and neighbours in different bins at least two steps apart has its grid: the
/// rounded midpoints are its borders, one less than there are bins, and every
/// level's encoding is binned to the level's own bin.
pub proof fn law_encoder_has_its_grid(e: CatEncoder, mids: Seq<F32>, g: GridView, p: int)
    requires
        ({
            let o = ordered_levels(level_views(e.levels@));
            &&& total_ascending(encodings_of(o))
            &&& forall|i: int| 0 <= i < o.len() ==> (#[trigger] o[i]).encoding.finite()
            &&& bins_contiguous(o)
            &&& mids_rounded(o, mids)
            &&& 0 <= p < o.len()
        }),
    ensures
        border_grid_fault(e, mids) is None,
        ({
            let o = ordered_levels(level_views(e.levels@));
            let borders = level_borders(o, mids, encoder_text(e), o.len());
            &&& borders is Ok
            &&& borders_ascend(borders->Ok_0)
            &&& borders->Ok_0.len() == o.last().bin - 1
            &&& g.borders == borders->Ok_0 ==> bin_of(o[p].encoding, g) == o[p].bin
        }),
{
    let o = ordered_levels(level_views(e.levels@));
    assert forall|i: int| 0 < i < o.len() && o[i - 1].bin != (#[trigger] o[i]).bin implies o[i
        - 1].encoding.at_most(mids[i - 1]) && mids[i - 1].below(o[i].encoding) by {
        assert(o[i - 1].encoding.finite());
        law_midpoint_lies_between(mids[i - 1], o[i - 1].encoding, o[i].encoding);
    }
    law_contiguous_bins_have_borders(o, mids, encoder_text(e), o.len());
    if g.borders == level_borders(o, mids, encoder_text(e), o.len())->Ok_0 {
        law_encodings_fall_into_their_bins(o, mids, encoder_text(e), g, p);
    }
}

fn encoder_message(e: &CatEncoder, mid: &str, label: &str) -> (s: String)
    ensures
        s@ == "categorical encoder "@ + encoder_text(*e) + mid@ + label@ + "`"@,
{
    let mut name = feature_name(e.raw);
    name.append("/");
    name.append(encoding_name(e.id).as_str());
    let mut s = String::from_str("categorical encoder ");
    s.append(name.as_str());
    s.append(mid);
    s.append(label);
    s.append("`");
    s
}

impl CatEncoder {
    /// The encodings of the levels in their order.
    pub fn ordered_encodings(&self) -> (s: Vec<F32>)
        ensures
            s@ == encodings_of(ordered_levels(level_views(self.levels@))),
    {
        let ghost v = level_views(self.levels@);
        let order = level_order(&self.levels);
        let mut s: Vec<F32> = Vec::with_capacity(order.len());
        let mut p: usize = 0;
        while p < order.len()
            invariant
                p <= order.len(),
                v == level_views(self.levels@),
                is_level_order(order@, v),
                s@.len() == p,
                forall|q: int| 0 <= q < p ==> #[trigger] s@[q] == v[order@[q] as int].encoding,
            decreases order.len() - p,
        {
            s.push(self.levels[order[p]].encoding);
            p = p + 1;
        }
        assert(s@ =~= encodings_of(ordered_levels(v)));
        s
    }

    /// The grid of the encoded axis: a border wherever the bin changes along the
    /// order of the levels. `mids[p]` is the number midway between the encodings
    /// at positions `p` and `p + 1` of that order.
    pub fn border_grid(&self, mids: &Vec<F32>) -> (r: Result<BorderGrid, PbError>)
        requires
            mids@.len() + 1 >= self.levels@.len(),
        ensures
            answers(r, border_grid_fault(*self, mids@)),
            r is Ok ==> {
                let o = ordered_levels(level_views(self.levels@));
                &&& r->Ok_0.wf()
                &&& level_borders(o, mids@, encoder_text(*self), o.len()) == Ok::<Seq<F32>, Fault>(
                    r->Ok_0.borders@,
                )
            },
    {
        let ghost v = level_views(self.levels@);
        let ghost o = ordered_levels(v);
        let ghost name = encoder_text(*self);
        let order = level_order(&self.levels);
        let n: usize = order.len();
        let mut borders: Vec<F32> = Vec::new();
        let mut p: usize = 0;
        while p < n
            invariant
                p <= n,
                n == self.levels@.len(),
                mids@.len() + 1 >= n,
                v == level_views(self.levels@),
                o == ordered_levels(v),
                name == encoder_text(*self),
                is_level_order(order@, v),
                order@ == level_order_of(v),
                level_borders(o, mids@, name, p as nat) == Ok::<Seq<F32>, Fault>(borders@),
                borders_ascend(borders@),
                borders@.len() <= p,
            decreases n - p,
        {
            let level = &self.levels[order[p]];
            assert(o[p as int] == level@);
            let ghost step = level_borders(o, mids@, name, (p + 1) as nat);
            if !level.encoding.is_finite() {
                proof {
                    lemma_border_error(o, mids@, name, (p + 1) as nat, o.len());
                }
                let what = encoder_message(self, " has non-finite encoding for `", level.label.as_str());
                return Err(PbError::InvalidInput { what });
            }
            if level.bin == 0 {
                proof {
                    lemma_border_error(o, mids@, name, (p + 1) as nat, o.len());
                }
                let what = encoder_message(self, " assigned reserved bin 0 to `", level.label.as_str());
                return Err(PbError::InvalidInput { what });
            }
            if p > 0 {
                let prev = &self.levels[order[p - 1]];
                assert(o[p - 1] == prev@);
                if level.bin < prev.bin {
                    proof {
                        lemma_border_error(o, mids@, name, (p + 1) as nat, o.len());
                    }
                    return Err(
                        invalid_input(
                            "categorical encoder bins must be non-decreasing in encoding order",
                        ),
                    );
                }
                if level.bin > prev.bin {
                    if level.encoding.le(&prev.encoding) {
                        proof {
                            lemma_border_error(o, mids@, name, (p + 1) as nat, o.len());
                        }
                        return Err(
                            invalid_input("categorical encoder split tied encodings across bins"),
                        );
                    }
                    let border = mids[p - 1];
                    if !border.is_finite() {
                        proof {
                            lemma_border_error(o, mids@, name, (p + 1) as nat, o.len());
                        }
                        return Err(invalid_input("categorical Fisher border is not finite"));
                    }
                    if borders.len() > 0 && border.le(&borders[borders.len() - 1]) {
                        proof {
                            lemma_border_error(o, mids@, name, (p + 1) as nat, o.len());
                        }
                        return Err(
                            invalid_input("categorical Fisher borders must be strictly ascending"),
                        );
                    }
                    borders.push(border);
                }
            }
            p = p + 1;
        }
        if borders.len() as u64 > 65533 {
            return Err(internal("categorical n_bins exceeded u16"));
        }
        let n_bins: u16 = (borders.len() + 2) as u16;
        Ok(BorderGrid { borders, n_bins, missing_bin: 0 })
    }
}

/// A fault among the first levels is the fault of the whole.
proof fn lemma_border_error(o: Seq<LevelView>, mids: Seq<F32>, name: Seq<char>, k: nat, n: nat)
    requires
        k <= n,
        level_borders(o, mids, name, k) is Err,
    ensures
        level_borders(o, mids, name, n) == level_borders(o, mids, name, k),
    decreases n - k,
{
    if k < n {
        lemma_border_error(o, mids, name, k, (n - 1) as nat);
    }
}

/// Up to 254 distinct encodings have a bin each; more share 254 bins evenly: the
/// bin of an encoding with `r` distinct ones below it is the one that holds share
/// `r` of them all.
pub proof fn law_encodings_share_the_bins_evenly(s: Seq<F32>, p: int)
    requires
        total_ascending(s),
        forall|i: int| 0 <= i < s.len() ==> (#[trigger] s[i]).finite(),
        0 <= p < s.len(),
    ensures
        ({
            let d = distinct_of(s).len();
            let r = distinct_of(s.take(p + 1)).len() - 1;
            &&& 0 <= r < d
            &&& d <= 254 ==> fisher_bin(s, p) == r + 1
            &&& d > 254 ==> (fisher_bin(s, p) - 1) * d <= r * 254 < fisher_bin(s, p) * d
            &&& 1 <= fisher_bin(s, p) <= 254
        }),
{
    lemma_rank_counts_distinct(s, p);
    law_fisher_bin_in_range(s, p);
    let d = distinct_of(s).len() as int;
    let r = encoding_rank(s, p) as int;
    if d <= 254 {
        law_few_encodings_are_separated(s, p);
    } else {
        let x = r * 254;
        vstd::arithmetic::div_mod::lemma_fundamental_div_mod(x, d);
        let q = x / d;
        assert(fisher_bin(s, p) == 1 + q);
        assert((1 + q - 1) * d == d * q && (1 + q) * d == d * q + d) by (nonlinear_arith);
    }
}

/// The level of the highest encoding has the last bin: as many as there are
/// distinct encodings, but no more than 254.
pub proof fn law_the_last_bin_is_used(s: Seq<F32>)
    requires
        total_ascending(s),
        forall|i: int| 0 <= i < s.len() ==> (#[trigger] s[i]).finite(),
        s.len() > 0,
    ensures
        distinct_of(s).len() <= 254 ==> fisher_bin(s, s.len() - 1) == distinct_of(s).len(),
        distinct_of(s).len() > 254 ==> fisher_bin(s, s.len() - 1) == 254,
{
    let p = s.len() - 1;
    law_encodings_share_the_bins_evenly(s, p);
    assert(s.take(p + 1) =~= s);
    let d = distinct_of(s).len() as int;
    let b = fisher_bin(s, p);
    if d > 254 && b < 254 {
        assert(b * d <= (d - 1) * 254) by (nonlinear_arith)
            requires
                b <= 253,
                d > 254,
        ;
        assert(false);
    }
}

/// Levels are binned exactly when every encoding is finite.
pub proof fn law_finite_encodings_are_binned(v: Seq<LevelView>)
    requires
        is_level_order(level_order_of(v), v),
        v.len() <= usize::MAX,
    ensures
        fisher_fault(v) is None <==> forall|i: int|
            0 <= i < v.len() ==> (#[trigger] v[i]).encoding.finite(),
{
    let o = level_order_of(v);
    let s = encodings_of(ordered_levels(v));
    if forall|i: int| 0 <= i < v.len() ==> (#[trigger] v[i]).encoding.finite() {
        assert forall|q: int| 0 <= q < s.len() implies (#[trigger] s[q]).finite() by {
            assert(v[o[q] as int].encoding.finite());
        }
        lemma_first_not_finite(s, 0, s.len() as int);
    } else {
        let i = choose|i: int| 0 <= i < v.len() && !((#[trigger] v[i]).encoding.finite());
        assert(o.contains(i as usize));
        let p = choose|p: int| 0 <= p < o.len() && o[p] == i as usize;
        assert(!s[p].finite());
        lemma_not_finite_found(s, 0, p);
    }
}

/// A number that is not finite is found, or one before it.
proof fn lemma_not_finite_found(s: Seq<F32>, from: int, p: int)
    requires
        0 <= from <= p < s.len(),
        !s[p].finite(),
    ensures
        0 <= first_not_finite(s, from) <= p,
    decreases p - from,
{
    if from < p && s[from].finite() {
        lemma_not_finite_found(s, from + 1, p);
    }
}

/// Levels are ordered by encoding, then by label, then by position, each once.
pub proof fn law_levels_are_ordered_by_encoding(order: Seq<usize>, v: Seq<LevelView>, i: int, j: int)
    requires
        is_level_order(order, v),
        0 <= i < j < order.len(),
    ensures
        order.len() == v.len(),
        order[i] < v.len() && order[j] < v.len() && order[i] != order[j],
        ({
            let a = v[order[i] as int];
            let b = v[order[j] as int];
            &&& a.encoding.total_key() <= b.encoding.total_key()
            &&& a.encoding.total_key() == b.encoding.total_key() ==> label_lt(a.label, b.label) || (
            a.label == b.label && order[i] < order[j])
        }),
{
    assert(level_before(v, order[i], order[j]));
}

} // verus!
