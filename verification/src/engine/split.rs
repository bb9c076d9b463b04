//! Finding the split of a level.
//!
//! [`scan_level`] lists every candidate of a level with the sums of both sides in
//! every leaf. The caller turns those sums into gains and scores;
//! [`select_candidate`] then picks the split: the first one with the best score
//! among those that are allowed.
use crate::backend::{pb_seed, seed_of, Stage};
use crate::constraints::MonoSign;
use crate::data::{BinnedMatrix, BorderGrid};
use crate::engine::hist::{
    axis_input, cell, lemma_cell_bound, rows_in, sum_g, AxisInput, Hist, QuantGradHess,
};
use crate::engine::goes_low;
use crate::engine::level_hist::{cell_holds, hist_holds};
use crate::engine::subtracted::leaves_at;
use crate::error::{answers, first_fault, internal, lemma_first_fault, Fault, PbError};
use crate::float::F64;
use crate::seed_laws::lemma_mul_undone;
use vstd::arithmetic::power2::*;
use vstd::prelude::*;

verus! {

/// The sums of one side of a split in one leaf.
#[derive(Debug, Clone, Copy, PartialEq, Eq, Structural)]
pub struct Side {
    pub g: i128,
    pub h: i128,
    pub count: u128,
}

/// One candidate of a level: a split of an axis, and the sums of its two sides in
/// every leaf.
#[derive(Debug, Clone, PartialEq)]
pub struct ScanItem {
    /// The position of the axis in the histogram.
    pub p: usize,
    pub axis: u32,
    pub bin_le: usize,
    pub missing_left: bool,
    pub low: Vec<Side>,
    pub high: Vec<Side>,
}

/// The sum of the gradients of bins `from..to` of a leaf.
pub open spec fn bins_g(hist: Hist, leaf: int, p: int, from: int, to: int) -> int
    decreases to - from,
{
    if to <= from {
        0
    } else {
        bins_g(hist, leaf, p, from, to - 1) + hist.g@[hist.pos(leaf, p, to - 1)]
    }
}

/// The sum of the hessians of bins `from..to` of a leaf.
pub open spec fn bins_h(hist: Hist, leaf: int, p: int, from: int, to: int) -> int
    decreases to - from,
{
    if to <= from {
        0
    } else {
        bins_h(hist, leaf, p, from, to - 1) + hist.h@[hist.pos(leaf, p, to - 1)]
    }
}

/// The number of rows of bins `from..to` of a leaf.
pub open spec fn bins_count(hist: Hist, leaf: int, p: int, from: int, to: int) -> int
    decreases to - from,
{
    if to <= from {
        0
    } else {
        bins_count(hist, leaf, p, from, to - 1) + hist.count@[hist.pos(leaf, p, to - 1)]
    }
}

/// Whether `s` holds the sums of the low side: data bins up to `v`, and the
/// missing bin when it goes left.
pub open spec fn is_low_side(s: Side, hist: Hist, leaf: int, p: int, v: int, ml: bool) -> bool {
    let from = if ml {
        0int
    } else {
        1int
    };
    &&& s.g == bins_g(hist, leaf, p, 1, v + 1) + bins_g(hist, leaf, p, 0, 1 - from)
    &&& s.h == bins_h(hist, leaf, p, 1, v + 1) + bins_h(hist, leaf, p, 0, 1 - from)
    &&& s.count == bins_count(hist, leaf, p, 1, v + 1) + bins_count(hist, leaf, p, 0, 1 - from)
}

/// Whether `s` holds what the low side leaves of a leaf.
pub open spec fn is_high_side(s: Side, low: Side, hist: Hist, leaf: int, p: int) -> bool {
    &&& s.g == bins_g(hist, leaf, p, 0, hist.n_bins as int) - low.g
    &&& s.h == bins_h(hist, leaf, p, 0, hist.n_bins as int) - low.h
    &&& s.count == bins_count(hist, leaf, p, 0, hist.n_bins as int) - low.count
}

/// Whether an item holds the sums of its split.
pub open spec fn item_holds(it: ScanItem, hist: Hist) -> bool {
    &&& it.low@.len() == hist.n_leaves
    &&& it.high@.len() == hist.n_leaves
    &&& forall|leaf: int|
        0 <= leaf < hist.n_leaves ==> is_low_side(
            #[trigger] it.low@[leaf],
            hist,
            leaf,
            it.p as int,
            it.bin_le as int,
            it.missing_left,
        ) && is_high_side(it.high@[leaf], it.low@[leaf], hist, leaf, it.p as int)
}

/// The number of candidates of an axis: two missing directions for every data
/// bin but the last.
pub open spec fn axis_items(n_data_bins: int) -> nat {
    if n_data_bins < 2 {
        0
    } else {
        (2 * (n_data_bins - 1)) as nat
    }
}

/// The number of candidates of the first `n` axes.
pub open spec fn items_before(n_data_bins: Seq<usize>, n: nat) -> nat
    decreases n,
{
    if n == 0 {
        0
    } else {
        items_before(n_data_bins, (n - 1) as nat) + axis_items(n_data_bins[n - 1] as int)
    }
}

/// The position of a candidate in the list: axis by axis, bin by bin, missing
/// right before missing left.
pub open spec fn item_at(n_data_bins: Seq<usize>, p: nat, v: int, ml: bool) -> int {
    items_before(n_data_bins, p) + 2 * (v - 1) + if ml {
        1int
    } else {
        0int
    }
}

/// Why the candidates of an axis cannot be listed.
pub open spec fn scan_fault(hist: Hist, axes: Seq<u32>, n_data_bins: Seq<usize>, p: int) -> Option<
    Fault,
> {
    if p >= axes.len() {
        Some(Fault::Internal("axis index"@))
    } else if p >= n_data_bins.len() {
        Some(Fault::Internal("n_data_bins index"@))
    } else if n_data_bins[p] < 2 || hist.n_leaves == 0 {
        None
    } else if hist.n_bins == 0 {
        Some(Fault::Internal("miss offset"@))
    } else if n_data_bins[p] > hist.n_bins {
        Some(Fault::Internal("prefix offset"@))
    } else {
        None
    }
}

/// Sums of bins stay within the range of their types.
proof fn lemma_bins_bounds(hist: Hist, leaf: int, p: int, from: int, to: int)
    requires
        hist.wf(),
        0 <= leaf < hist.n_leaves,
        0 <= p < hist.n_axes,
        0 <= from <= to <= hist.n_bins,
    ensures
        -0x8000_0000_0000_0000 * (to - from) <= bins_g(hist, leaf, p, from, to)
            <= 0x7fff_ffff_ffff_ffff * (to - from),
        -0x8000_0000_0000_0000 * (to - from) <= bins_h(hist, leaf, p, from, to)
            <= 0x7fff_ffff_ffff_ffff * (to - from),
        0 <= bins_count(hist, leaf, p, from, to) <= 0xffff_ffff * (to - from),
    decreases to - from,
{
    if from < to {
        lemma_bins_bounds(hist, leaf, p, from, to - 1);
    }
}

/// A range of bins can be cut in two.
proof fn lemma_bins_cut(hist: Hist, leaf: int, p: int, from: int, mid: int, to: int)
    requires
        from <= mid <= to,
    ensures
        bins_g(hist, leaf, p, from, to) == bins_g(hist, leaf, p, from, mid) + bins_g(
            hist,
            leaf,
            p,
            mid,
            to,
        ),
        bins_h(hist, leaf, p, from, to) == bins_h(hist, leaf, p, from, mid) + bins_h(
            hist,
            leaf,
            p,
            mid,
            to,
        ),
        bins_count(hist, leaf, p, from, to) == bins_count(hist, leaf, p, from, mid) + bins_count(
            hist,
            leaf,
            p,
            mid,
            to,
        ),
    decreases to - mid,
{
    if mid < to {
        lemma_bins_cut(hist, leaf, p, from, mid, to - 1);
    }
}

/// Sums the bins `from..to` of a leaf.
fn sum_bins(hist: &Hist, leaf: usize, p: usize, from: usize, to: usize) -> (s: Side)
    requires
        hist.wf(),
        leaf < hist.n_leaves,
        p < hist.n_axes,
        from <= to <= hist.n_bins,
    ensures
        s.g == bins_g(*hist, leaf as int, p as int, from as int, to as int),
        s.h == bins_h(*hist, leaf as int, p as int, from as int, to as int),
        s.count == bins_count(*hist, leaf as int, p as int, from as int, to as int),
{
    let mut g: i128 = 0;
    let mut h: i128 = 0;
    let mut count: u128 = 0;
    let mut b: usize = from;
    while b < to
        invariant
            from <= b <= to <= hist.n_bins,
            hist.wf(),
            leaf < hist.n_leaves,
            p < hist.n_axes,
            g == bins_g(*hist, leaf as int, p as int, from as int, b as int),
            h == bins_h(*hist, leaf as int, p as int, from as int, b as int),
            count == bins_count(*hist, leaf as int, p as int, from as int, b as int),
        decreases to - b,
    {
        proof {
            lemma_cell_bound(
                leaf as int,
                p as int,
                b as int,
                hist.n_leaves as int,
                hist.n_axes as int,
                hist.n_bins as int,
            );
            assert(hist.g.len() == hist.g@.len());
            lemma_bins_bounds(*hist, leaf as int, p as int, from as int, b as int);
            lemma_bins_bounds(*hist, leaf as int, p as int, from as int, b as int + 1);
        }
        let o: usize = (leaf * hist.n_axes + p) * hist.n_bins + b;
        g = g + hist.g[o] as i128;
        h = h + hist.h[o] as i128;
        count = count + hist.count[o] as u128;
        b = b + 1;
    }
    Side { g, h, count }
}

/// One candidate of an axis.
fn scan_item(hist: &Hist, axis: u32, p: usize, v: usize, ml: bool) -> (it: ScanItem)
    requires
        hist.wf(),
        p < hist.n_axes,
        1 <= v,
        hist.n_leaves > 0 ==> v < hist.n_bins,
    ensures
        it.p == p,
        it.axis == axis,
        it.bin_le == v,
        it.missing_left == ml,
        item_holds(it, *hist),
{
    let nl: usize = hist.n_leaves;
    let mut low: Vec<Side> = Vec::with_capacity(nl);
    let mut high: Vec<Side> = Vec::with_capacity(nl);
    let mut leaf: usize = 0;
    while leaf < nl
        invariant
            leaf <= nl == hist.n_leaves,
            hist.wf(),
            p < hist.n_axes,
            1 <= v,
            hist.n_leaves > 0 ==> v < hist.n_bins,
            low@.len() == leaf,
            high@.len() == leaf,
            forall|l: int|
                0 <= l < leaf ==> is_low_side(
                    #[trigger] low@[l],
                    *hist,
                    l,
                    p as int,
                    v as int,
                    ml,
                ) && is_high_side(high@[l], low@[l], *hist, l, p as int),
        decreases nl - leaf,
    {
        let data = sum_bins(hist, leaf, p, 1, v + 1);
        let miss = sum_bins(hist, leaf, p, 0, 1);
        let total = sum_bins(hist, leaf, p, 0, hist.n_bins);
        proof {
            let h = *hist;
            let (l, q) = (leaf as int, p as int);
            let n = hist.n_bins as int;
            lemma_bins_cut(h, l, q, 0, 1, n);
            lemma_bins_cut(h, l, q, 1, v as int + 1, n);
            lemma_bins_bounds(h, l, q, 0, 1);
            lemma_bins_bounds(h, l, q, 1, v as int + 1);
            lemma_bins_bounds(h, l, q, v as int + 1, n);
            lemma_bins_bounds(h, l, q, 0, n);
            lemma_bins_cut(h, l, q, 0, 1, v as int + 1);
            lemma_bins_bounds(h, l, q, 0, v as int + 1);
            assert(bins_g(h, l, q, 0, 0) == 0 && bins_h(h, l, q, 0, 0) == 0 && bins_count(
                h,
                l,
                q,
                0,
                0,
            ) == 0);
        }
        let lo: Side = if ml {
            Side { g: data.g + miss.g, h: data.h + miss.h, count: data.count + miss.count }
        } else {
            data
        };
        let hi = Side { g: total.g - lo.g, h: total.h - lo.h, count: total.count - lo.count };
        low.push(lo);
        high.push(hi);
        leaf = leaf + 1;
    }
    ScanItem { p, axis, bin_le: v, missing_left: ml, low, high }
}

/// Whether the list holds every candidate of the first `n` axes, in order.
pub open spec fn lists_axes(
    items: Seq<ScanItem>,
    hist: Hist,
    axes: Seq<u32>,
    n_data_bins: Seq<usize>,
    n: nat,
) -> bool {
    &&& items.len() == items_before(n_data_bins, n)
    &&& forall|p: nat, v: int, ml: bool|
        p < n && 1 <= v < n_data_bins[p as int] ==> lists_one(
            items,
            hist,
            axes,
            n_data_bins,
            p,
            v,
            ml,
            #[trigger] item_at(n_data_bins, p, v, ml),
        )
}

/// Whether the list holds one candidate at its position.
pub open spec fn lists_one(
    items: Seq<ScanItem>,
    hist: Hist,
    axes: Seq<u32>,
    n_data_bins: Seq<usize>,
    p: nat,
    v: int,
    ml: bool,
    at: int,
) -> bool {
    &&& 0 <= at < items.len()
    &&& items[at].p == p
    &&& items[at].axis == axes[p as int]
    &&& items[at].bin_le == v
    &&& items[at].missing_left == ml
    &&& item_holds(items[at], hist)
}

/// Every listed candidate splits a listed axis at one of its inner borders.
pub proof fn law_candidates_split_at_borders(
    items: Seq<ScanItem>,
    hist: Hist,
    axes: Seq<u32>,
    n_data_bins: Seq<usize>,
    n: nat,
    i: int,
)
    requires
        lists_axes(items, hist, axes, n_data_bins, n),
        0 <= i < items.len(),
    ensures
        items[i].p < n,
        items[i].axis == axes[items[i].p as int],
        1 <= items[i].bin_le < n_data_bins[items[i].p as int],
{
    let (p, v, ml) = lemma_position_of_item(n_data_bins, n, i);
    assert(lists_one(items, hist, axes, n_data_bins, p, v, ml, item_at(n_data_bins, p, v, ml)));
}

/// Every position in the list belongs to a candidate.
pub proof fn lemma_position_of_item(n_data_bins: Seq<usize>, n: nat, i: int) -> (at: (nat, int, bool))
    requires
        0 <= i < items_before(n_data_bins, n),
    ensures
        at.0 < n,
        1 <= at.1 < n_data_bins[at.0 as int],
        item_at(n_data_bins, at.0, at.1, at.2) == i,
    decreases n,
{
    let m = (n - 1) as nat;
    let before = items_before(n_data_bins, m);
    if i < before {
        lemma_position_of_item(n_data_bins, m, i)
    } else {
        let rest = i - before;
        (m, rest / 2 + 1, rest % 2 == 1)
    }
}

/// Lists every candidate of a level: axis by axis, bin by bin, missing right
/// before missing left, each with the sums of its two sides in every leaf.
pub fn scan_level(hist: &Hist, axes: &Vec<u32>, n_data_bins: &Vec<usize>) -> (r: Result<
    Vec<ScanItem>,
    PbError,
>)
    requires
        hist.wf(),
        hist.n_bins < usize::MAX,
    ensures
        answers(
            r,
            first_fault(
                |p: int| scan_fault(*hist, axes@, n_data_bins@, p),
                0,
                hist.n_axes as int,
            ),
        ),
        r is Ok ==> lists_axes(r->Ok_0@, *hist, axes@, n_data_bins@, hist.n_axes as nat),
{
    let ghost f = |p: int| scan_fault(*hist, axes@, n_data_bins@, p);
    let mut items: Vec<ScanItem> = Vec::new();
    let mut p: usize = 0;
    while p < hist.n_axes
        invariant
            p <= hist.n_axes,
            hist.wf(),
            hist.n_bins < usize::MAX,
            f == (|p: int| scan_fault(*hist, axes@, n_data_bins@, p)),
            forall|q: int| 0 <= q < p ==> (#[trigger] f(q)) is None,
            p <= n_data_bins@.len(),
            p <= axes@.len(),
            lists_axes(items@, *hist, axes@, n_data_bins@, p as nat),
        decreases hist.n_axes - p,
    {
        proof {
            lemma_first_fault(f, 0, p as int, hist.n_axes as int);
        }
        if p >= axes.len() {
            assert(f(p as int) is Some);
            return Err(internal("axis index"));
        }
        if p >= n_data_bins.len() {
            assert(f(p as int) is Some);
            return Err(internal("n_data_bins index"));
        }
        let axis: u32 = axes[p];
        let ndb: usize = n_data_bins[p];
        if ndb >= 2 {
            if hist.n_leaves > 0 {
                if hist.n_bins == 0 {
                    assert(f(p as int) is Some);
                    return Err(internal("miss offset"));
                }
                if ndb > hist.n_bins {
                    assert(f(p as int) is Some);
                    return Err(internal("prefix offset"));
                }
            }
            assert(f(p as int) is None);
            let ghost start = items@;
            let mut v: usize = 1;
            while v < ndb
                invariant
                    1 <= v <= ndb,
                    ndb >= 2,
                    p < hist.n_axes,
                    p < axes@.len(),
                    p < n_data_bins@.len(),
                    axis == axes@[p as int],
                    ndb == n_data_bins@[p as int],
                    hist.wf(),
                    hist.n_leaves > 0 ==> ndb <= hist.n_bins,
                    lists_axes(start, *hist, axes@, n_data_bins@, p as nat),
                    start.len() <= items@.len(),
                    forall|i: int| 0 <= i < start.len() ==> #[trigger] items@[i] == start[i],
                    items@.len() == start.len() + 2 * (v - 1),
                    forall|w: int, ml: bool|
                        1 <= w < v ==> lists_one(
                            items@,
                            *hist,
                            axes@,
                            n_data_bins@,
                            p as nat,
                            w,
                            ml,
                            #[trigger] item_at(n_data_bins@, p as nat, w, ml),
                        ),
                decreases ndb - v,
            {
                let ghost before = items@;
                let a = scan_item(hist, axis, p, v, false);
                let b = scan_item(hist, axis, p, v, true);
                items.push(a);
                items.push(b);
                proof {
                    assert forall|w: int, ml: bool| 1 <= w < v + 1 implies lists_one(
                        items@,
                        *hist,
                        axes@,
                        n_data_bins@,
                        p as nat,
                        w,
                        ml,
                        #[trigger] item_at(n_data_bins@, p as nat, w, ml),
                    ) by {
                        let at = item_at(n_data_bins@, p as nat, w, ml);
                        if w < v {
                            assert(lists_one(
                                before,
                                *hist,
                                axes@,
                                n_data_bins@,
                                p as nat,
                                w,
                                ml,
                                at,
                            ));
                            assert(items@[at] == before[at]);
                        }
                    }
                }
                v = v + 1;
            }
            proof {
                assert forall|q: nat, w: int, ml: bool|
                    q < p + 1 && 1 <= w < n_data_bins@[q as int] implies lists_one(
                    items@,
                    *hist,
                    axes@,
                    n_data_bins@,
                    q,
                    w,
                    ml,
                    #[trigger] item_at(n_data_bins@, q, w, ml),
                ) by {
                    if q < p {
                        let at = item_at(n_data_bins@, q, w, ml);
                        assert(lists_one(start, *hist, axes@, n_data_bins@, q, w, ml, at));
                        assert(items@[at] == start[at]);
                    }
                }
            }
        } else {
            assert(f(p as int) is None);
        }
        p = p + 1;
    }
    proof {
        lemma_first_fault(f, 0, hist.n_axes as int, hist.n_axes as int);
    }
    Ok(items)
}

/// The rows of a leaf that a split sends low.
pub open spec fn rows_low(x: AxisInput, rows: Seq<u32>, leaf: int, v: int, ml: bool) -> nat
    decreases rows.len(),
{
    if rows.len() == 0 {
        0
    } else {
        let r = rows.last() as int;
        rows_low(x, rows.drop_last(), leaf, v, ml) + if x.leaf_of[r] as int == leaf && goes_low(
            x.col[r],
            v as u8,
            ml,
        ) {
            1nat
        } else {
            0nat
        }
    }
}

/// The gradients of the rows of a leaf that a split sends low.
pub open spec fn g_low(x: AxisInput, rows: Seq<u32>, leaf: int, v: int, ml: bool) -> int
    decreases rows.len(),
{
    if rows.len() == 0 {
        0
    } else {
        let r = rows.last() as int;
        g_low(x, rows.drop_last(), leaf, v, ml) + if x.leaf_of[r] as int == leaf && goes_low(
            x.col[r],
            v as u8,
            ml,
        ) {
            x.g[r] as int
        } else {
            0
        }
    }
}

/// The sum of the row counts of bins `from..to`.
pub open spec fn rows_in_bins(x: AxisInput, rows: Seq<u32>, leaf: int, from: int, to: int) -> int
    decreases to - from,
{
    if to <= from {
        0
    } else {
        rows_in_bins(x, rows, leaf, from, to - 1) + rows_in(x, rows, leaf, to - 1)
    }
}

/// The sum of the gradients of bins `from..to`.
pub open spec fn g_in_bins(x: AxisInput, rows: Seq<u32>, leaf: int, from: int, to: int) -> int
    decreases to - from,
{
    if to <= from {
        0
    } else {
        g_in_bins(x, rows, leaf, from, to - 1) + sum_g(x, rows, leaf, to - 1)
    }
}

proof fn lemma_range_step(x: AxisInput, rows: Seq<u32>, leaf: int, from: int, to: int)
    requires
        rows.len() > 0,
    ensures
        ({
            let r = rows.last() as int;
            let hit = x.leaf_of[r] as int == leaf && from <= x.col[r] as int && (x.col[r] as int)
                < to;
            &&& rows_in_bins(x, rows, leaf, from, to) == rows_in_bins(
                x,
                rows.drop_last(),
                leaf,
                from,
                to,
            ) + if hit {
                1int
            } else {
                0int
            }
            &&& g_in_bins(x, rows, leaf, from, to) == g_in_bins(
                x,
                rows.drop_last(),
                leaf,
                from,
                to,
            ) + if hit {
                x.g[r] as int
            } else {
                0
            }
        }),
    decreases to - from,
{
    if from < to {
        lemma_range_step(x, rows, leaf, from, to - 1);
    }
}

proof fn lemma_range_empty(x: AxisInput, rows: Seq<u32>, leaf: int, from: int, to: int)
    requires
        rows.len() == 0,
    ensures
        rows_in_bins(x, rows, leaf, from, to) == 0,
        g_in_bins(x, rows, leaf, from, to) == 0,
    decreases to - from,
{
    if from < to {
        lemma_range_empty(x, rows, leaf, from, to - 1);
    }
}

/// The bins that the scan adds up on the low side are those whose rows the
/// routing rule sends low: scan and routing agree.
pub proof fn law_scan_agrees_with_routing(
    x: AxisInput,
    rows: Seq<u32>,
    leaf: int,
    v: int,
    ml: bool,
)
    requires
        1 <= v <= 255,
    ensures
        rows_low(x, rows, leaf, v, ml) == rows_in_bins(x, rows, leaf, 1, v + 1) + (if ml {
            rows_in_bins(x, rows, leaf, 0, 1)
        } else {
            0
        }),
        g_low(x, rows, leaf, v, ml) == g_in_bins(x, rows, leaf, 1, v + 1) + (if ml {
            g_in_bins(x, rows, leaf, 0, 1)
        } else {
            0
        }),
    decreases rows.len(),
{
    if rows.len() == 0 {
        lemma_range_empty(x, rows, leaf, 1, v + 1);
        lemma_range_empty(x, rows, leaf, 0, 1);
    } else {
        law_scan_agrees_with_routing(x, rows.drop_last(), leaf, v, ml);
        lemma_range_step(x, rows, leaf, 1, v + 1);
        lemma_range_step(x, rows, leaf, 0, 1);
    }
}

/// The sums of a histogram over a range of bins are the sums over the rows.
pub proof fn law_bins_sum_rows(
    hist: Hist,
    data: Seq<Vec<u8>>,
    q: QuantGradHess,
    leaf_of_row: Seq<u8>,
    rows: Seq<u32>,
    axes: Seq<u32>,
    leaf: int,
    p: int,
    from: int,
    to: int,
)
    requires
        hist_holds(hist, data, q, leaf_of_row, rows, axes),
        0 <= leaf < hist.n_leaves,
        0 <= p < hist.n_axes,
        0 <= from,
        to <= hist.n_bins,
    ensures
        bins_count(hist, leaf, p, from, to) == rows_in_bins(
            axis_input(data, q, leaf_of_row, axes[p] as int),
            rows,
            leaf,
            from,
            to,
        ),
        bins_g(hist, leaf, p, from, to) == g_in_bins(
            axis_input(data, q, leaf_of_row, axes[p] as int),
            rows,
            leaf,
            from,
            to,
        ),
    decreases to - from,
{
    if from < to {
        law_bins_sum_rows(hist, data, q, leaf_of_row, rows, axes, leaf, p, from, to - 1);
        assert(hist.within(leaf, p, to - 1));
        assert(cell_holds(hist, data, q, leaf_of_row, rows, axes[p], leaf, p, to - 1));
    }
}

/// Whether both sides of a candidate hold enough rows in every leaf.
pub fn counts_credible(it: &ScanItem, min_data: u32) -> (b: bool)
    requires
        it.low@.len() == it.high@.len(),
    ensures
        b == forall|leaf: int|
            0 <= leaf < it.low@.len() ==> (#[trigger] it.low@[leaf]).count >= min_data
                && it.high@[leaf].count >= min_data,
{
    let mut leaf: usize = 0;
    while leaf < it.low.len()
        invariant
            leaf <= it.low.len(),
            it.low@.len() == it.high@.len(),
            forall|l: int|
                0 <= l < leaf ==> (#[trigger] it.low@[l]).count >= min_data && it.high@[l].count
                    >= min_data,
        decreases it.low.len() - leaf,
    {
        if it.low[leaf].count < min_data as u128 || it.high[leaf].count < min_data as u128 {
            assert(it.low@[leaf as int].count < min_data || it.high@[leaf as int].count < min_data);
            return false;
        }
        leaf = leaf + 1;
    }
    true
}

/// Whether no number is below a floor.
pub open spec fn none_below(sums: Seq<F64>, floor: F64) -> bool {
    forall|leaf: int| 0 <= leaf < sums.len() ==> !(#[trigger] sums[leaf]).below(floor)
}

fn clears_floor(sums: &Vec<F64>, floor: F64) -> (b: bool)
    ensures
        b == none_below(sums@, floor),
{
    let mut leaf: usize = 0;
    while leaf < sums.len()
        invariant
            leaf <= sums.len(),
            forall|l: int| 0 <= l < leaf ==> !(#[trigger] sums@[l]).below(floor),
        decreases sums.len() - leaf,
    {
        if sums[leaf].lt(&floor) {
            assert(sums@[leaf as int].below(floor));
            return false;
        }
        leaf = leaf + 1;
    }
    true
}

/// Whether both sides of a candidate hold enough curvature and enough weight in
/// every leaf: no sum lies below its floor.
pub fn sums_credible(
    low_h: &Vec<F64>,
    high_h: &Vec<F64>,
    low_w: &Vec<F64>,
    high_w: &Vec<F64>,
    min_hess: F64,
    min_weight: F64,
) -> (b: bool)
    ensures
        b == {
            &&& none_below(low_h@, min_hess)
            &&& none_below(high_h@, min_hess)
            &&& none_below(low_w@, min_weight)
            &&& none_below(high_w@, min_weight)
        },
{
    clears_floor(low_h, min_hess) && clears_floor(high_h, min_hess) && clears_floor(
        low_w,
        min_weight,
    ) && clears_floor(high_w, min_weight)
}

/// What the caller makes of a candidate.
#[derive(Debug, Clone, Copy, PartialEq, Eq, Structural)]
pub struct Scored {
    pub gain: F64,
    /// Whether both sides are large enough everywhere.
    pub credible: bool,
    /// Whether the leaf values it leads to respect the monotone signs.
    pub monotone_ok: bool,
    /// What candidates are ranked by.
    pub score: F64,
}

/// The chosen split of a level.
#[derive(Debug, Clone, Copy, PartialEq, Eq, Structural)]
pub struct Candidate {
    pub axis: u32,
    pub bin_le: u8,
    pub missing_left: bool,
    pub gain: F64,
}

/// Whether a candidate may be chosen: its gain is finite and above the floor, and
/// nothing rules it out.
pub open spec fn eligible(s: Scored, min_split_gain: F64) -> bool {
    s.gain.finite() && !s.gain.at_most(min_split_gain) && s.credible && s.monotone_ok
}

/// Whether candidate `i` is better than the best one before it.
pub open spec fn improves(scored: Seq<Scored>, min_split_gain: F64, i: int) -> bool {
    &&& eligible(scored[i], min_split_gain)
    &&& match best_before(scored, min_split_gain, i) {
        Some(b) => scored[b].score.below(scored[i].score),
        None => true,
    }
}

/// The position of the best of the first `n` candidates: a later one replaces an
/// earlier one only with a strictly higher score.
pub open spec fn best_before(scored: Seq<Scored>, min_split_gain: F64, n: int) -> Option<int>
    decreases n,
{
    if n <= 0 {
        None
    } else {
        let before = best_before(scored, min_split_gain, n - 1);
        if eligible(scored[n - 1], min_split_gain) && match before {
            Some(b) => scored[b].score.below(scored[n - 1].score),
            None => true,
        } {
            Some(n - 1)
        } else {
            before
        }
    }
}

proof fn lemma_best_is_eligible(scored: Seq<Scored>, min_split_gain: F64, n: int)
    ensures
        match best_before(scored, min_split_gain, n) {
            None => true,
            Some(b) => 0 <= b < n && eligible(scored[b], min_split_gain),
        },
    decreases n,
{
    if n > 0 {
        lemma_best_is_eligible(scored, min_split_gain, n - 1);
    }
}

/// The choice rests on the order of the scores alone: two scorings that allow the
/// same candidates and put them in the same order choose the same one. So sums
/// with a rounding error that changes no order lead to the same split.
pub proof fn law_same_order_chooses_the_same(
    a: Seq<Scored>,
    b: Seq<Scored>,
    min_split_gain: F64,
    n: int,
)
    requires
        0 <= n <= a.len(),
        a.len() == b.len(),
        forall|i: int|
            0 <= i < n ==> eligible(#[trigger] a[i], min_split_gain) == eligible(
                b[i],
                min_split_gain,
            ),
        forall|i: int, j: int|
            0 <= i < j < n && eligible(a[i], min_split_gain) && eligible(a[j], min_split_gain)
                ==> (#[trigger] a[i]).score.below((#[trigger] a[j]).score) == b[i].score.below(
                b[j].score,
            ),
    ensures
        best_before(a, min_split_gain, n) == best_before(b, min_split_gain, n),
    decreases n,
{
    if n > 0 {
        law_same_order_chooses_the_same(a, b, min_split_gain, n - 1);
        lemma_best_is_eligible(a, min_split_gain, n - 1);
        assert(eligible(a[n - 1], min_split_gain) == eligible(b[n - 1], min_split_gain));
        match best_before(a, min_split_gain, n - 1) {
            Some(k) => {
                assert(eligible(a[k], min_split_gain));
            },
            None => {},
        }
    }
}

/// The split that is taken: the best candidate, where there is one.
pub open spec fn taken(items: Seq<ScanItem>, scored: Seq<Scored>, min_split_gain: F64) -> Option<
    Candidate,
> {
    match best_before(scored, min_split_gain, scored.len() as int) {
        None => None,
        Some(b) => Some(
            Candidate {
                axis: items[b].axis,
                bin_le: items[b].bin_le as u8,
                missing_left: items[b].missing_left,
                gain: scored[b].gain,
            },
        ),
    }
}

proof fn lemma_best_before(scored: Seq<Scored>, min_split_gain: F64, n: int)
    requires
        0 <= n <= scored.len(),
    ensures
        match best_before(scored, min_split_gain, n) {
            None => forall|j: int|
                0 <= j < n ==> !(#[trigger] scored[j]).gain.finite() || scored[j].gain.at_most(
                    min_split_gain,
                ) || !scored[j].credible || !scored[j].monotone_ok,
            Some(b) => {
                &&& 0 <= b < n
                &&& scored[b].gain.finite()
                &&& !scored[b].gain.at_most(min_split_gain)
                &&& scored[b].credible
                &&& scored[b].monotone_ok
                &&& (forall|j: int| 0 <= j < n ==> !(#[trigger] scored[j]).score.nan())
                    ==> forall|j: int|
                    0 <= j < n && j != b && (#[trigger] scored[j]).gain.finite()
                        && !scored[j].gain.at_most(min_split_gain) && scored[j].credible
                        && scored[j].monotone_ok ==> scored[j].score.key()
                        < scored[b].score.key() || scored[j].score.key()
                        == scored[b].score.key() && b < j
            },
        },
    decreases n,
{
    if n > 0 {
        lemma_best_before(scored, min_split_gain, n - 1);
    }
}

/// A level takes a split exactly when some candidate has a finite gain above the
/// floor, is credible and breaks no monotone sign. What it takes is the place and
/// the gain of such a candidate: of those, the one with the highest score, and the
/// first of equal ones.
pub proof fn law_taken_split_clears_every_bar(
    items: Seq<ScanItem>,
    scored: Seq<Scored>,
    min_split_gain: F64,
    b: int,
)
    requires
        items.len() == scored.len(),
    ensures
        taken(items, scored, min_split_gain) is None <==> forall|j: int|
            0 <= j < scored.len() ==> !(#[trigger] scored[j]).gain.finite()
                || scored[j].gain.at_most(min_split_gain) || !scored[j].credible
                || !scored[j].monotone_ok,
        taken(items, scored, min_split_gain) matches Some(c) ==> {
            &&& c.gain.finite()
            &&& !min_split_gain.nan() ==> c.gain.key() > min_split_gain.key()
            &&& exists|i: int|
                {
                    &&& 0 <= i < scored.len()
                    &&& (#[trigger] scored[i]).credible
                    &&& scored[i].monotone_ok
                    &&& c.gain == scored[i].gain
                    &&& c.axis == items[i].axis
                    &&& c.bin_le == items[i].bin_le as u8
                    &&& c.missing_left == items[i].missing_left
                }
        },
        // The first candidate of the highest score is the one.
        0 <= b < scored.len() && scored[b].gain.finite() && !scored[b].gain.at_most(min_split_gain)
            && scored[b].credible && scored[b].monotone_ok && (forall|j: int|
            0 <= j < scored.len() ==> !(#[trigger] scored[j]).score.nan() && (j != b
                && scored[j].gain.finite() && !scored[j].gain.at_most(min_split_gain)
                && scored[j].credible && scored[j].monotone_ok ==> scored[j].score.key()
                < scored[b].score.key() || scored[j].score.key() == scored[b].score.key() && b < j))
            ==> taken(items, scored, min_split_gain) == Some(
            Candidate {
                axis: items[b].axis,
                bin_le: items[b].bin_le as u8,
                missing_left: items[b].missing_left,
                gain: scored[b].gain,
            },
        ),
{
    lemma_best_before(scored, min_split_gain, scored.len() as int);
    match best_before(scored, min_split_gain, scored.len() as int) {
        Some(i) => {
            assert(scored[i].credible);
        },
        None => {},
    }
}

/// Raising the floor can only end a level: a split taken above the higher floor
/// is one that the lower floor allows as well.
pub proof fn law_a_higher_floor_takes_less(
    items: Seq<ScanItem>,
    scored: Seq<Scored>,
    floor: F64,
    higher: F64,
)
    requires
        items.len() == scored.len(),
        floor.at_most(higher),
        taken(items, scored, higher) is Some,
    ensures
        taken(items, scored, floor) is Some,
{
    lemma_best_before(scored, floor, scored.len() as int);
    lemma_best_before(scored, higher, scored.len() as int);
    let b = best_before(scored, higher, scored.len() as int)->0;
    assert(scored[b].gain.finite());
}

/// Why no split can be chosen.
pub open spec fn select_fault(
    items: Seq<ScanItem>,
    scored: Seq<Scored>,
    min_split_gain: F64,
    i: int,
) -> Option<Fault> {
    if improves(scored, min_split_gain, i) && items[i].bin_le > u8::MAX {
        Some(Fault::Internal("bin_le exceeded u8"@))
    } else {
        None
    }
}

/// Picks the split of a level.
pub fn select_candidate(items: &Vec<ScanItem>, scored: &Vec<Scored>, min_split_gain: F64) -> (r: Result<
    Option<Candidate>,
    PbError,
>)
    requires
        items@.len() == scored@.len(),
    ensures
        answers(
            r,
            first_fault(
                |i: int| select_fault(items@, scored@, min_split_gain, i),
                0,
                items@.len() as int,
            ),
        ),
        r is Ok ==> match best_before(scored@, min_split_gain, scored@.len() as int) {
            None => r->Ok_0 is None,
            Some(b) => r->Ok_0 == Some(
                (Candidate {
                    axis: items@[b].axis,
                    bin_le: items@[b].bin_le as u8,
                    missing_left: items@[b].missing_left,
                    gain: scored@[b].gain,
                }),
            ),
        },
        r is Ok ==> r->Ok_0 == taken(items@, scored@, min_split_gain),
        r is Ok && r->Ok_0 is None ==> forall|j: int|
            0 <= j < scored@.len() ==> !(#[trigger] scored@[j]).gain.finite()
                || scored@[j].gain.at_most(min_split_gain) || !scored@[j].credible
                || !scored@[j].monotone_ok,
        r matches Ok(Some(c)) ==> c.gain.finite() && !c.gain.at_most(min_split_gain) && exists|i: int|
            0 <= i < scored@.len() && (#[trigger] scored@[i]).credible && scored@[i].monotone_ok
                && c.gain == scored@[i].gain && c.axis == items@[i].axis && c.bin_le
                == items@[i].bin_le && c.missing_left == items@[i].missing_left,
{
    let ghost f = |i: int| select_fault(items@, scored@, min_split_gain, i);
    let mut best: Option<usize> = None;
    let mut i: usize = 0;
    while i < items.len()
        invariant
            i <= items.len(),
            items@.len() == scored@.len(),
            f == (|i: int| select_fault(items@, scored@, min_split_gain, i)),
            forall|j: int| 0 <= j < i ==> (#[trigger] f(j)) is None,
            best_before(scored@, min_split_gain, i as int) == (match best {
                Some(b) => Some(b as int),
                None => None::<int>,
            }),
            best is Some ==> best->0 < i && items@[best->0 as int].bin_le <= u8::MAX,
        decreases items.len() - i,
    {
        proof {
            lemma_first_fault(f, 0, i as int, items@.len() as int);
        }
        let s = scored[i];
        if s.gain.is_finite() && !s.gain.le(&min_split_gain) && s.credible && s.monotone_ok {
            let better: bool = match best {
                Some(b) => scored[b].score.lt(&s.score),
                None => true,
            };
            if better {
                if items[i].bin_le > 255 {
                    assert(f(i as int) is Some);
                    return Err(internal("bin_le exceeded u8"));
                }
                best = Some(i);
            }
        }
        assert(f(i as int) is None);
        i = i + 1;
    }
    proof {
        lemma_first_fault(f, 0, items@.len() as int, items@.len() as int);
        lemma_best_before(scored@, min_split_gain, scored@.len() as int);
        match best {
            Some(b) => {
                assert(scored@[b as int].credible);
            },
            None => {},
        }
    }
    match best {
        Some(b) => Ok(
            Some(
                Candidate {
                    axis: items[b].axis,
                    bin_le: items[b].bin_le as u8,
                    missing_left: items[b].missing_left,
                    gain: scored[b].gain,
                },
            ),
        ),
        None => Ok(None),
    }
}

/// The chosen candidate is allowed, no allowed candidate scores higher, and none
/// before it scores as high; and one is chosen whenever one is allowed.
pub proof fn law_best_is_first_of_the_highest(scored: Seq<Scored>, min_split_gain: F64, n: int)
    requires
        0 <= n <= scored.len(),
        forall|i: int| 0 <= i < n ==> !(#[trigger] scored[i]).score.nan(),
    ensures
        match best_before(scored, min_split_gain, n) {
            None => forall|i: int|
                0 <= i < n ==> !eligible(#[trigger] scored[i], min_split_gain),
            Some(b) => {
                &&& 0 <= b < n
                &&& eligible(scored[b], min_split_gain)
                &&& forall|i: int|
                    0 <= i < n && eligible(#[trigger] scored[i], min_split_gain)
                        ==> scored[i].score.key() <= scored[b].score.key()
                &&& forall|i: int|
                    0 <= i < b && eligible(#[trigger] scored[i], min_split_gain)
                        ==> scored[i].score.key() < scored[b].score.key()
            },
        },
    decreases n,
{
    if n > 0 {
        law_best_is_first_of_the_highest(scored, min_split_gain, n - 1);
        assert(!scored[n - 1].score.nan());
        match best_before(scored, min_split_gain, n - 1) {
            Some(b) => {
                assert(!scored[b].score.nan());
            },
            None => {},
        }
    }
}

/// Whether two values of a pair respect a sign: `low` belongs to the smaller
/// feature values.
pub open spec fn pair_ok(sign: MonoSign, low: F64, high: F64) -> bool {
    match sign {
        MonoSign::Increasing => low.at_most(high),
        MonoSign::Decreasing => high.at_most(low),
        MonoSign::Free => true,
    }
}

/// Whether bit `weight` of a leaf is clear.
pub open spec fn bit_clear(leaf: int, weight: int) -> bool {
    (leaf / weight) % 2 == 0
}

/// Whether leaf values respect the sign of one level.
pub open spec fn level_ok(values: Seq<F64>, level: int, sign: Option<MonoSign>) -> bool {
    sign is Some ==> forall|high: int|
        0 <= high < values.len() && bit_clear(high, pow2(level as nat) as int) ==> pair_ok(
            sign->0,
            values[high + pow2(level as nat)],
            #[trigger] values[high],
        )
}

/// Whether leaf values respect the signs of all levels.
pub open spec fn monotone_values(values: Seq<F64>, signs: Seq<Option<MonoSign>>) -> bool {
    forall|level: int|
        0 <= level < signs.len() ==> level_ok(values, level, #[trigger] signs[level])
}

/// A leaf whose bit is clear has its partner within the leaves.
proof fn lemma_partner_bound(high: int, weight: int, n: int, k: int)
    requires
        0 <= high < n,
        weight > 0,
        n == 2 * weight * k,
        bit_clear(high, weight),
    ensures
        high + weight < n,
{
    let q = high / weight;
    assert(high == q * weight + high % weight && 0 <= high % weight < weight) by (nonlinear_arith)
        requires
            q == high / weight,
            weight > 0,
    ;
    assert(q < 2 * k) by (nonlinear_arith)
        requires
            high == q * weight + high % weight,
            0 <= high % weight,
            high < 2 * weight * k,
            weight > 0,
    ;
    assert(q % 2 == 0);
    assert(q + 1 < 2 * k);
    assert(high + weight < 2 * weight * k) by (nonlinear_arith)
        requires
            high == q * weight + high % weight,
            high % weight < weight,
            q + 2 <= 2 * k,
            weight > 0,
    ;
}

proof fn lemma_monotone_values(values: Seq<F64>, signs: Seq<Option<MonoSign>>)
    ensures
        monotone_values(values, signs) <==> forall|level: int, leaf: int|
            0 <= level < signs.len() && 0 <= leaf < values.len() && (leaf / pow2(level as nat) as int)
                % 2 == 0 ==> {
                &&& signs[level] == Some(MonoSign::Increasing) ==> values[leaf + pow2(
                    level as nat,
                )].at_most(#[trigger] values[leaf])
                &&& (#[trigger] signs[level]) == Some(MonoSign::Decreasing)
                    ==> values[leaf].at_most(values[leaf + pow2(level as nat)])
            },
{
    if monotone_values(values, signs) {
        assert forall|level: int, leaf: int|
            0 <= level < signs.len() && 0 <= leaf < values.len() && (leaf / pow2(level as nat) as int)
                % 2 == 0 implies {
            &&& signs[level] == Some(MonoSign::Increasing) ==> values[leaf + pow2(
                level as nat,
            )].at_most(#[trigger] values[leaf])
            &&& (#[trigger] signs[level]) == Some(MonoSign::Decreasing) ==> values[leaf].at_most(
                values[leaf + pow2(level as nat)],
            )
        } by {
            assert(level_ok(values, level, signs[level]));
        }
    } else {
        let level = choose|level: int|
            0 <= level < signs.len() && !level_ok(values, level, #[trigger] signs[level]);
        let leaf = choose|leaf: int|
            0 <= leaf < values.len() && bit_clear(leaf, pow2(level as nat) as int) && !pair_ok(
                signs[level]->0,
                values[leaf + pow2(level as nat)],
                #[trigger] values[leaf],
            );
        assert(signs[level] is Some);
        assert(values[leaf] == values[leaf]);
    }
}

/// Leaf values pass exactly when no level is broken: in every level with an
/// increasing sign the leaf of the low side is at most that of the high side, in
/// every level with a decreasing sign at least, for every leaf on the high side.
pub proof fn law_values_pass_when_no_level_is_broken(
    values: Seq<F64>,
    signs: Seq<Option<MonoSign>>,
    level: int,
    leaf: int,
)
    requires
        0 <= level < signs.len(),
        0 <= leaf < values.len(),
        (leaf / pow2(level as nat) as int) % 2 == 0,
    ensures
        monotone_values(values, signs) && signs[level] == Some(MonoSign::Increasing)
            ==> values[leaf + pow2(level as nat)].at_most(values[leaf]),
        monotone_values(values, signs) && signs[level] == Some(MonoSign::Decreasing)
            ==> values[leaf].at_most(values[leaf + pow2(level as nat)]),
        !monotone_values(values, signs) ==> exists|l: int, h: int|
            {
                &&& 0 <= l < signs.len()
                &&& 0 <= h < values.len()
                &&& (h / pow2(l as nat) as int) % 2 == 0
                &&& {
                    ||| (#[trigger] signs[l]) == Some(MonoSign::Increasing) && !values[h + pow2(
                        l as nat,
                    )].at_most(#[trigger] values[h])
                    ||| signs[l] == Some(MonoSign::Decreasing) && !values[h].at_most(
                        values[h + pow2(l as nat)],
                    )
                }
            },
{
    lemma_monotone_values(values, signs);
    assert(signs[level] == signs[level] && values[leaf] == values[leaf]);
}

/// Why leaf values cannot be held against signs.
pub open spec fn monotone_fault(n_values: nat, depth: nat, n_signs: nat) -> Option<Fault> {
    if n_values != pow2(depth) || n_signs != depth {
        Some(Fault::Internal("monotone candidate shape mismatch"@))
    } else {
        None
    }
}

/// Whether the leaf values of a candidate respect the monotone signs of its
/// levels.
pub fn candidate_monotone_ok(values: &Vec<F64>, depth: usize, signs: &Vec<Option<MonoSign>>) -> (r:
    Result<bool, PbError>)
    requires
        depth <= 8,
    ensures
        answers(r, monotone_fault(values@.len(), depth as nat, signs@.len())),
        r is Ok ==> r->Ok_0 == monotone_values(values@, signs@),
        r is Ok ==> (r->Ok_0 <==> forall|level: int, leaf: int|
            0 <= level < depth && 0 <= leaf < values@.len() && (leaf / pow2(level as nat) as int) % 2
                == 0 ==> {
                &&& signs@[level] == Some(MonoSign::Increasing) ==> values@[leaf + pow2(
                    level as nat,
                )].at_most(#[trigger] values@[leaf])
                &&& (#[trigger] signs@[level]) == Some(MonoSign::Decreasing)
                    ==> values@[leaf].at_most(values@[leaf + pow2(level as nat)])
            }),
{
    proof {
        if values@.len() == pow2(depth as nat) && signs@.len() == depth {
            lemma_monotone_values(values@, signs@);
        }
    }
    let n: usize = leaves_at(depth);
    if values.len() != n || signs.len() != depth {
        return Err(internal("monotone candidate shape mismatch"));
    }
    let mut level: usize = 0;
    while level < depth
        invariant
            level <= depth <= 8,
            n == pow2(depth as nat),
            values@.len() == n,
            signs@.len() == depth,
            forall|l: int| 0 <= l < level ==> level_ok(values@, l, #[trigger] signs@[l]),
        decreases depth - level,
    {
        let bit: usize = leaves_at(level);
        let ghost k = pow2((depth - level - 1) as nat) as int;
        proof {
            lemma_pow2_adds((level + 1) as nat, (depth - level - 1) as nat);
            lemma_pow2_unfold((level + 1) as nat);
            assert(n as int == 2 * (bit as int) * k) by (nonlinear_arith)
                requires
                    n == pow2((level + 1) as nat) * k,
                    pow2((level + 1) as nat) == 2 * bit,
            ;
        }
        match signs[level] {
            None => {},
            Some(sign) => {
                let mut high: usize = 0;
                while high < n
                    invariant
                        high <= n,
                        level < depth <= 8,
                        bit == pow2(level as nat),
                        bit >= 1,
                        n == pow2(depth as nat),
                        values@.len() == n,
                        signs@.len() == depth,
                        signs@[level as int] == Some(sign),
                        n as int == 2 * (bit as int) * k,
                        forall|h: int|
                            0 <= h < high && bit_clear(h, bit as int) ==> pair_ok(
                                sign,
                                values@[h + bit],
                                #[trigger] values@[h],
                            ),
                    decreases n - high,
                {
                    if (high / bit) % 2 == 0 {
                        proof {
                            lemma_partner_bound(high as int, bit as int, n as int, k);
                        }
                        let low_v = values[high + bit];
                        let high_v = values[high];
                        let ok: bool = match sign {
                            MonoSign::Increasing => low_v.le(&high_v),
                            MonoSign::Decreasing => high_v.le(&low_v),
                            MonoSign::Free => true,
                        };
                        if !ok {
                            assert(!level_ok(values@, level as int, signs@[level as int]));
                            return Ok(false);
                        }
                    }
                    high = high + 1;
                }
                assert(level_ok(values@, level as int, signs@[level as int]));
            },
        }
        level = level + 1;
    }
    Ok(true)
}

/// The salt that tells the candidates of one axis apart.
pub open spec fn noise_salt(level: u64, axis: u32, bin: u64, ml: bool) -> u64 {
    (axis as u64).wrapping_mul(0x9E37_79B9_7F4A_7C15) ^ bin.wrapping_mul(0xBF58_476D_1CE4_E5B9)
        ^ level.wrapping_mul(0x94D0_49BB_1331_11EB) ^ (if ml {
        1u64
    } else {
        0u64
    })
}

/// The random bits of a candidate: the 53 high bits of its seed.
pub fn noise_bits(seed: u64, round: u32, level: usize, axis: u32, bin_le: usize, missing_left: bool) -> (bits:
    u64)
    ensures
        bits == seed_of(
            seed ^ noise_salt(level as u64, axis, bin_le as u64, missing_left),
            round,
            Stage::SplitNoise.code(),
            axis,
        ) >> 11,
{
    let m: u64 = if missing_left {
        1
    } else {
        0
    };
    let salt: u64 = (axis as u64).wrapping_mul(0x9E37_79B9_7F4A_7C15) ^ (bin_le as u64).wrapping_mul(
        0xBF58_476D_1CE4_E5B9,
    ) ^ (level as u64).wrapping_mul(0x94D0_49BB_1331_11EB) ^ m;
    let stage = Stage::SplitNoise;
    pb_seed(seed ^ salt, round, stage.number(), axis) >> 11
}

/// The cells of the table over the first `n` axes of a list.
pub open spec fn cells_over(grids: Seq<BorderGrid>, axes: Seq<u32>, n: nat) -> nat
    decreases n,
{
    if n == 0 {
        1
    } else {
        cells_over(grids, axes, (n - 1) as nat) * (grids[axes[n - 1] as int].n_bins as nat)
    }
}

/// Why the size of a table cannot be projected.
pub open spec fn cells_fault(grids: Seq<BorderGrid>, axes: Seq<u32>, i: int) -> Option<Fault> {
    if axes[i] >= grids.len() {
        Some(Fault::Internal("budget-prior axis grid"@))
    } else if cells_over(grids, axes, (i + 1) as nat) > u64::MAX {
        Some(Fault::Internal("budget-prior projected cell count overflowed u64"@))
    } else {
        None
    }
}

/// The number of cells of the table that a tree on the used axes and one more
/// would need.
pub fn projected_cells(x: &BinnedMatrix, used_axes: &Vec<u32>, candidate_axis: u32) -> (r: Result<
    u64,
    PbError,
>)
    ensures
        answers(
            r,
            first_fault(
                |i: int| cells_fault(x.grids@, used_axes@.push(candidate_axis), i),
                0,
                used_axes@.len() as int + 1,
            ),
        ),
        r is Ok ==> r->Ok_0 == cells_over(
            x.grids@,
            used_axes@.push(candidate_axis),
            used_axes@.len() + 1,
        ),
{
    let ghost all = used_axes@.push(candidate_axis);
    let ghost f = |i: int| cells_fault(x.grids@, all, i);
    let n: usize = used_axes.len();
    let mut cells: u64 = 1;
    let mut i: usize = 0;
    let mut done: bool = false;
    while !done
        invariant
            n == used_axes@.len(),
            all == used_axes@.push(candidate_axis),
            f == (|i: int| cells_fault(x.grids@, all, i)),
            i <= n,
            !done ==> cells == cells_over(x.grids@, all, i as nat) && forall|j: int|
                0 <= j < i ==> (#[trigger] f(j)) is None,
            done ==> i == n && cells == cells_over(x.grids@, all, n as nat + 1) && forall|j: int|
                0 <= j < n + 1 ==> (#[trigger] f(j)) is None,
        decreases (if done { 0 } else { n - i + 1 }),
    {
        proof {
            lemma_first_fault(f, 0, i as int, n as int + 1);
        }
        let axis: u32 = if i < n {
            used_axes[i]
        } else {
            candidate_axis
        };
        assert(all[i as int] == axis);
        if axis as usize >= x.grids.len() {
            assert(f(i as int) is Some);
            return Err(internal("budget-prior axis grid"));
        }
        match cells.checked_mul(x.grids[axis as usize].n_bins as u64) {
            Some(c) => {
                assert(c == cells_over(x.grids@, all, (i + 1) as nat));
                assert(f(i as int) is None);
                cells = c;
            },
            None => {
                assert(f(i as int) is Some);
                return Err(internal("budget-prior projected cell count overflowed u64"));
            },
        }
        if i < n {
            i = i + 1;
        } else {
            done = true;
        }
    }
    proof {
        lemma_first_fault(f, 0, n as int + 1, n as int + 1);
    }
    Ok(cells)
}

/// Every border of every axis is a candidate, once with missing values on its low
/// side and once without, and no two candidates are the same.
pub proof fn law_every_border_is_a_candidate(
    items: Seq<ScanItem>,
    hist: Hist,
    axes: Seq<u32>,
    n_data_bins: Seq<usize>,
    n: nat,
    p: nat,
    v: int,
    ml: bool,
    i: int,
    j: int,
)
    requires
        lists_axes(items, hist, axes, n_data_bins, n),
    ensures
        p < n && 1 <= v < n_data_bins[p as int] ==> exists|k: int|
            0 <= k < items.len() && (#[trigger] items[k]).p == p && items[k].axis == axes[p as int]
                && items[k].bin_le == v && items[k].missing_left == ml,
        0 <= i < j < items.len() ==> items[i].p != items[j].p || items[i].bin_le != items[j].bin_le
            || items[i].missing_left != items[j].missing_left,
{
    if p < n && 1 <= v < n_data_bins[p as int] {
        let k = item_at(n_data_bins, p, v, ml);
        assert(lists_one(items, hist, axes, n_data_bins, p, v, ml, k));
        assert(items[k].p == p);
    }
    if 0 <= i < j < items.len() {
        let a = lemma_position_of_item(n_data_bins, n, i);
        let b = lemma_position_of_item(n_data_bins, n, j);
        assert(lists_one(
            items,
            hist,
            axes,
            n_data_bins,
            a.0,
            a.1,
            a.2,
            item_at(n_data_bins, a.0, a.1, a.2),
        ));
        assert(lists_one(
            items,
            hist,
            axes,
            n_data_bins,
            b.0,
            b.1,
            b.2,
            item_at(n_data_bins, b.0, b.1, b.2),
        ));
    }
}

proof fn lemma_rows_low(x: AxisInput, rows: Seq<u32>, leaf: int, v: int, ml: bool)
    requires
        1 <= v <= 255,
    ensures
        rows_low(x, rows, leaf, v, ml) == rows.filter(
            |r: u32|
                x.leaf_of[r as int] as int == leaf && ((x.col[r as int] == 0 && ml) || 1
                    <= x.col[r as int] <= v),
        ).len(),
    decreases rows.len(),
{
    reveal(Seq::filter);
    if rows.len() > 0 {
        lemma_rows_low(x, rows.drop_last(), leaf, v, ml);
    }
}

/// The low side of a candidate holds, in every leaf, the rows whose bin is at most
/// the border's, with the missing ones where they go low; the two sides share the
/// rows, the gradients and the curvatures of the leaf between them.
pub proof fn law_a_candidate_parts_the_rows(
    it: ScanItem,
    hist: Hist,
    data: Seq<Vec<u8>>,
    q: QuantGradHess,
    leaf_of_row: Seq<u8>,
    rows: Seq<u32>,
    axes: Seq<u32>,
    leaf: int,
)
    requires
        hist_holds(hist, data, q, leaf_of_row, rows, axes),
        item_holds(it, hist),
        it.p < hist.n_axes,
        1 <= it.bin_le < hist.n_bins,
        it.bin_le <= 255,
        0 <= leaf < hist.n_leaves,
    ensures
        ({
            let col = data[axes[it.p as int] as int]@;
            &&& it.low@[leaf].count == rows.filter(
                |r: u32|
                    leaf_of_row[r as int] as int == leaf && ((col[r as int] == 0 && it.missing_left)
                        || 1 <= col[r as int] <= it.bin_le),
            ).len()
            &&& it.low@[leaf].count + it.high@[leaf].count == bins_count(
                hist,
                leaf,
                it.p as int,
                0,
                hist.n_bins as int,
            )
            &&& it.low@[leaf].g + it.high@[leaf].g == bins_g(
                hist,
                leaf,
                it.p as int,
                0,
                hist.n_bins as int,
            )
            &&& it.low@[leaf].h + it.high@[leaf].h == bins_h(
                hist,
                leaf,
                it.p as int,
                0,
                hist.n_bins as int,
            )
        }),
{
    let p = it.p as int;
    let v = it.bin_le as int;
    let ml = it.missing_left;
    let x = axis_input(data, q, leaf_of_row, axes[p] as int);
    assert(is_low_side(it.low@[leaf], hist, leaf, p, v, ml));
    assert(is_high_side(it.high@[leaf], it.low@[leaf], hist, leaf, p));
    law_bins_sum_rows(hist, data, q, leaf_of_row, rows, axes, leaf, p, 1, v + 1);
    law_bins_sum_rows(hist, data, q, leaf_of_row, rows, axes, leaf, p, 0, 1);
    law_scan_agrees_with_routing(x, rows, leaf, v, ml);
    lemma_rows_low(x, rows, leaf, v, ml);
    let col = data[axes[p] as int]@;
    assert(rows.filter(
        |r: u32|
            x.leaf_of[r as int] as int == leaf && ((x.col[r as int] == 0 && ml) || 1
                <= x.col[r as int] <= v),
    ) =~= rows.filter(
        |r: u32|
            leaf_of_row[r as int] as int == leaf && ((col[r as int] == 0 && it.missing_left) || 1
                <= col[r as int] <= it.bin_le),
    )) by {
        let a = |r: u32|
            x.leaf_of[r as int] as int == leaf && ((x.col[r as int] == 0 && ml) || 1
                <= x.col[r as int] <= v);
        let b = |r: u32|
            leaf_of_row[r as int] as int == leaf && ((col[r as int] == 0 && it.missing_left) || 1
                <= col[r as int] <= it.bin_le);
        assert(a =~= b);
    }
}

/// Sums pass their floors exactly when none of them lies below its floor.
pub proof fn law_floors_hold_in_every_leaf(sums: Seq<F64>, floor: F64)
    requires
        !floor.nan(),
        forall|leaf: int| 0 <= leaf < sums.len() ==> !(#[trigger] sums[leaf]).nan(),
    ensures
        none_below(sums, floor) <==> forall|leaf: int|
            0 <= leaf < sums.len() ==> (#[trigger] sums[leaf]).key() >= floor.key(),
{
}

/// The table of a candidate has the product of the bins of all its axes.
pub proof fn law_projected_cells_are_a_product(grids: Seq<BorderGrid>, axes: Seq<u32>)
    requires
        1 <= axes.len() <= 3,
    ensures
        ({
            let a = grids[axes[0] as int].n_bins as nat;
            let b = grids[axes[1] as int].n_bins as nat;
            let c = grids[axes[2] as int].n_bins as nat;
            &&& axes.len() == 1 ==> cells_over(grids, axes, axes.len()) == a
            &&& axes.len() == 2 ==> cells_over(grids, axes, axes.len()) == a * b
            &&& axes.len() == 3 ==> cells_over(grids, axes, axes.len()) == a * b * c
        }),
{
    reveal_with_fuel(cells_over, 4);
    let a = grids[axes[0] as int].n_bins as nat;
    assert(1 * a == a);
}

/// An axis is scanned exactly when it is listed with its bins, and, where it has a
/// border and there are leaves, the histogram has a cell for each of its bins.
pub proof fn law_scanned_axes_have_their_bins(
    hist: Hist,
    axes: Seq<u32>,
    n_data_bins: Seq<usize>,
    p: int,
)
    requires
        0 <= p,
    ensures
        scan_fault(hist, axes, n_data_bins, p) is None <==> {
            &&& p < axes.len() && p < n_data_bins.len()
            &&& n_data_bins[p] >= 2 && hist.n_leaves >= 1 ==> n_data_bins[p] <= hist.n_bins
        },
{
}

/// Values are compared exactly when there is one for each leaf and a sign for each
/// level.
pub proof fn law_compared_values_fill_the_leaves(n_values: nat, depth: nat, n_signs: nat)
    ensures
        monotone_fault(n_values, depth, n_signs) is None <==> n_values == pow2(depth) && n_signs
            == depth,
{
}

/// Cells are projected exactly when the axes have grids and the product fits into
/// 64 bits.
pub proof fn law_projected_cells_fit(grids: Seq<BorderGrid>, axes: Seq<u32>, i: int)
    ensures
        cells_fault(grids, axes, i) is None <==> axes[i] < grids.len() && cells_over(
            grids,
            axes,
            (i + 1) as nat,
        ) <= 0xffff_ffff_ffff_ffff,
{
}

/// Candidates of one level that differ in one thing, their axis, their bin or their
/// side for missing values, have different salts, and so have levels.
pub proof fn law_candidates_have_their_own_salt(
    level: u64,
    axis: u32,
    bin: u64,
    ml: bool,
    level2: u64,
    axis2: u32,
    bin2: u64,
)
    ensures
        noise_salt(level, axis, bin, true) != noise_salt(level, axis, bin, false),
        axis != axis2 ==> noise_salt(level, axis, bin, ml) != noise_salt(level, axis2, bin, ml),
        bin != bin2 ==> noise_salt(level, axis, bin, ml) != noise_salt(level, axis, bin2, ml),
        level != level2 ==> noise_salt(level, axis, bin, ml) != noise_salt(level2, axis, bin, ml),
{
    let a = (axis as u64).wrapping_mul(0x9E37_79B9_7F4A_7C15);
    let a2 = (axis2 as u64).wrapping_mul(0x9E37_79B9_7F4A_7C15);
    let b = bin.wrapping_mul(0xBF58_476D_1CE4_E5B9);
    let b2 = bin2.wrapping_mul(0xBF58_476D_1CE4_E5B9);
    let c = level.wrapping_mul(0x94D0_49BB_1331_11EB);
    let c2 = level2.wrapping_mul(0x94D0_49BB_1331_11EB);
    let s = if ml {
        1u64
    } else {
        0u64
    };
    assert(a ^ b ^ c ^ 1u64 != a ^ b ^ c ^ 0u64) by (bit_vector);
    lemma_mul_undone(axis as u64, 0x9E37_79B9_7F4A_7C15, 0xF1DE_83E1_9937_733D);
    lemma_mul_undone(axis2 as u64, 0x9E37_79B9_7F4A_7C15, 0xF1DE_83E1_9937_733D);
    lemma_mul_undone(bin, 0xBF58_476D_1CE4_E5B9, 0x96DE_1B17_3F11_9089);
    lemma_mul_undone(bin2, 0xBF58_476D_1CE4_E5B9, 0x96DE_1B17_3F11_9089);
    lemma_mul_undone(level, 0x94D0_49BB_1331_11EB, 0x3196_42B2_D24D_8EC3);
    lemma_mul_undone(level2, 0x94D0_49BB_1331_11EB, 0x3196_42B2_D24D_8EC3);
    assert((a ^ b ^ c ^ s == a2 ^ b ^ c ^ s ==> a == a2) && (a ^ b ^ c ^ s == a ^ b2 ^ c ^ s ==> b
        == b2) && (a ^ b ^ c ^ s == a ^ b ^ c2 ^ s ==> c == c2)) by (bit_vector);
}

/// A range of bins has what its two parts have together, and one bin has what its
/// cell has.
pub proof fn law_ranges_of_bins_add_up(hist: Hist, leaf: int, p: int, from: int, mid: int, to: int)
    requires
        from <= mid <= to,
    ensures
        bins_g(hist, leaf, p, from, to) == bins_g(hist, leaf, p, from, mid) + bins_g(
            hist,
            leaf,
            p,
            mid,
            to,
        ),
        bins_h(hist, leaf, p, from, to) == bins_h(hist, leaf, p, from, mid) + bins_h(
            hist,
            leaf,
            p,
            mid,
            to,
        ),
        bins_count(hist, leaf, p, from, to) == bins_count(hist, leaf, p, from, mid) + bins_count(
            hist,
            leaf,
            p,
            mid,
            to,
        ),
        bins_g(hist, leaf, p, mid, mid + 1) == hist.g@[hist.pos(leaf, p, mid)],
        bins_h(hist, leaf, p, mid, mid + 1) == hist.h@[hist.pos(leaf, p, mid)],
        bins_count(hist, leaf, p, mid, mid + 1) == hist.count@[hist.pos(leaf, p, mid)],
    decreases to - mid,
{
    reveal_with_fuel(bins_g, 2);
    reveal_with_fuel(bins_h, 2);
    reveal_with_fuel(bins_count, 2);
    if mid < to {
        law_ranges_of_bins_add_up(hist, leaf, p, from, mid, to - 1);
    }
}

} // verus!
