//! Runs of growth: which splits a tree gets depends on the sums of its levels
//! alone, however these were had.
use crate::constraints::FeatureSet;
use crate::data::{AxisProvenance, BinnedMatrix, BorderGrid};
use crate::engine::grow::{
    admissible, admissible_axes, after_split, data_bins_of, group_allows, group_holds, grown,
    moved_leaf, order_cap, Growth,
};
use crate::engine::hist::{
    axis_fault, axis_input, cell, chunk_start, lemma_sum_bounds, n_chunks, overflow_fault,
    range_fault, row_fault, rows_in, sum_g, sum_h, AxisInput, Hist, QuantGradHess,
    ROW_PAR_MIN_ROWS,
};
use crate::engine::level_hist::{build_fault, cell_holds, hist_holds, max_bins_of};
use crate::engine::split::{
    bins_count, bins_g, bins_h, is_high_side, is_low_side, item_at, item_holds,
    lemma_position_of_item, lists_axes, lists_one, Candidate, ScanItem, Side,
};
use crate::engine::subtracted::{
    axis_absent, leaf_fault, parent_map, small_rows, subtracted_fault, usable_parent,
};
use crate::engine::ObliviousTree;
use crate::error::{lemma_all_none, lemma_first_fault};
use crate::float::F32;
use vstd::arithmetic::power2::*;
use vstd::prelude::*;

verus! {

/// Whether two histograms hold the same sums.
pub open spec fn same_sums(a: Hist, b: Hist) -> bool {
    &&& a.n_leaves == b.n_leaves
    &&& a.n_axes == b.n_axes
    &&& a.n_bins == b.n_bins
    &&& a.g@ == b.g@
    &&& a.h@ == b.h@
    &&& a.count@ == b.count@
}

/// The axes that growth offers.
pub open spec fn offered(
    x: BinnedMatrix,
    axes: Seq<u32>,
    groups: Option<Seq<FeatureSet>>,
    g: Growth,
) -> Seq<u32> {
    admissible_axes(x.provenance@, axes, g.used, groups, axes.len())
}

/// Whether a histogram holds the sums of the current level, as a full build and a
/// build with the help of the level above both promise.
pub open spec fn level_holds(
    h: Hist,
    x: BinnedMatrix,
    q: QuantGradHess,
    rows: Seq<u32>,
    g: Growth,
    axes: Seq<u32>,
) -> bool {
    &&& h.n_leaves == pow2(g.levels.len())
    &&& h.n_bins == max_bins_of(x.grids@, axes, axes.len())
    &&& hist_holds(h, x.data@, q, g.map, rows, axes)
}

/// Every position of a tensor belongs to a cell.
proof fn lemma_cell_at(p: int, n_leaves: int, n_axes: int, n_bins: int) -> (c: (int, int, int))
    requires
        0 <= p < n_leaves * n_axes * n_bins,
        0 <= n_leaves,
        0 <= n_axes,
        0 <= n_bins,
    ensures
        0 <= c.0 < n_leaves,
        0 <= c.1 < n_axes,
        0 <= c.2 < n_bins,
        p == cell(c.0, c.1, c.2, n_axes, n_bins),
{
    let m = n_leaves * n_axes;
    assert(n_bins > 0) by (nonlinear_arith)
        requires
            0 <= p < m * n_bins,
            0 <= n_bins,
    ;
    let q = p / n_bins;
    let bin = p % n_bins;
    assert(p == q * n_bins + bin && 0 <= bin < n_bins && 0 <= q) by (nonlinear_arith)
        requires
            n_bins > 0,
            p >= 0,
            q == p / n_bins,
            bin == p % n_bins,
    ;
    assert(q < m) by (nonlinear_arith)
        requires
            p == q * n_bins + bin,
            0 <= bin,
            p < m * n_bins,
            n_bins > 0,
    ;
    assert(n_axes > 0) by (nonlinear_arith)
        requires
            0 <= q < m,
            m == n_leaves * n_axes,
            0 <= n_axes,
    ;
    let leaf = q / n_axes;
    let axis = q % n_axes;
    assert(q == leaf * n_axes + axis && 0 <= axis < n_axes && 0 <= leaf) by (nonlinear_arith)
        requires
            n_axes > 0,
            q >= 0,
            leaf == q / n_axes,
            axis == q % n_axes,
    ;
    assert(leaf < n_leaves) by (nonlinear_arith)
        requires
            q == leaf * n_axes + axis,
            0 <= axis,
            q < n_leaves * n_axes,
            n_axes > 0,
    ;
    (leaf, axis, bin)
}

/// A level has one histogram: whether it is built in full or with the help of the
/// level above, it holds the same sums.
pub proof fn law_level_has_one_histogram(
    a: Hist,
    b: Hist,
    x: BinnedMatrix,
    q: QuantGradHess,
    rows: Seq<u32>,
    g: Growth,
    axes: Seq<u32>,
)
    requires
        level_holds(a, x, q, rows, g, axes),
        level_holds(b, x, q, rows, g, axes),
    ensures
        same_sums(a, b),
{
    assert forall|p: int| 0 <= p < a.cells() implies (#[trigger] a.g@[p]) == b.g@[p] && a.h@[p]
        == b.h@[p] && a.count@[p] == b.count@[p] by {
        let (leaf, axis, bin) = lemma_cell_at(
            p,
            a.n_leaves as int,
            a.n_axes as int,
            a.n_bins as int,
        );
        assert(a.within(leaf, axis, bin) && b.within(leaf, axis, bin));
        assert(cell_holds(a, x.data@, q, g.map, rows, axes[axis], leaf, axis, bin));
        assert(cell_holds(b, x.data@, q, g.map, rows, axes[axis], leaf, axis, bin));
    }
    assert forall|p: int| 0 <= p < a.cells() implies #[trigger] a.h@[p] == b.h@[p] by {
        assert(a.g@[p] == b.g@[p]);
    }
    assert forall|p: int| 0 <= p < a.cells() implies #[trigger] a.count@[p] == b.count@[p] by {
        assert(a.g@[p] == b.g@[p]);
    }
    assert(a.g@ =~= b.g@);
    assert(a.h@ =~= b.h@);
    assert(a.count@ =~= b.count@);
}

/// What is offered after a split was offered before it.
proof fn lemma_offers_shrink(
    provenance: Seq<AxisProvenance>,
    axes: Seq<u32>,
    used: Seq<u32>,
    raw: u32,
    groups: Option<Seq<FeatureSet>>,
    n: nat,
)
    requires
        n <= axes.len(),
    ensures
        forall|i: int|
            0 <= i < admissible_axes(provenance, axes, used.push(raw), groups, n).len()
                ==> admissible_axes(provenance, axes, used, groups, n).contains(
                #[trigger] admissible_axes(provenance, axes, used.push(raw), groups, n)[i],
            ),
    decreases n,
{
    if n > 0 {
        let more = used.push(raw);
        lemma_offers_shrink(provenance, axes, used, raw, groups, (n - 1) as nat);
        let axis = axes[n - 1];
        let wide = admissible_axes(provenance, axes, used, groups, (n - 1) as nat);
        let wide_now = admissible_axes(provenance, axes, used, groups, n);
        let few = admissible_axes(provenance, axes, more, groups, (n - 1) as nat);
        let few_now = admissible_axes(provenance, axes, more, groups, n);
        if admissible(provenance, axis, more, groups) {
            let r = provenance[axis as int].raw;
            assert(!used.contains(r.0)) by {
                if used.contains(r.0) {
                    let k = choose|k: int| 0 <= k < used.len() && used[k] == r.0;
                    assert(more[k] == r.0);
                }
            }
            if groups is Some {
                let k = choose|k: int|
                    0 <= k < groups->0.len() && #[trigger] group_holds(groups->0[k], r, more);
                assert(group_holds(groups->0[k], r, used)) by {
                    assert forall|i: int| 0 <= i < used.len() implies groups->0[k].ids@.contains(
                        crate::data::FeatureId(#[trigger] used[i]),
                    ) by {
                        assert(more[i] == used[i]);
                    }
                }
                assert(group_allows(groups->0, r, used));
            }
            assert(admissible(provenance, axis, used, groups));
            assert(wide_now[wide.len() as int] == axis);
        }
        assert forall|i: int| 0 <= i < few_now.len() implies wide_now.contains(
            #[trigger] few_now[i],
        ) by {
            if i < few.len() {
                assert(few_now[i] == few[i]);
                assert(wide.contains(few[i]));
                let j = choose|j: int| 0 <= j < wide.len() && wide[j] == few[i];
                assert(wide_now[j] == few[i]);
            }
        }
    }
}

proof fn lemma_max_bins_reaches(grids: Seq<BorderGrid>, axes: Seq<u32>, n: nat, i: int)
    requires
        0 <= i < n <= axes.len(),
    ensures
        grids[axes[i] as int].n_bins <= max_bins_of(grids, axes, n),
    decreases n,
{
    if i < n - 1 {
        lemma_max_bins_reaches(grids, axes, (n - 1) as nat, i);
    }
}

proof fn lemma_fewer_axes_fewer_bins(
    grids: Seq<BorderGrid>,
    few: Seq<u32>,
    many: Seq<u32>,
    n: nat,
)
    requires
        n <= few.len(),
        forall|i: int| 0 <= i < few.len() ==> many.contains(#[trigger] few[i]),
    ensures
        max_bins_of(grids, few, n) <= max_bins_of(grids, many, many.len()),
    decreases n,
{
    if n > 0 {
        lemma_fewer_axes_fewer_bins(grids, few, many, (n - 1) as nat);
        assert(many.contains(few[n - 1]));
        let j = choose|j: int| 0 <= j < many.len() && many[j] == few[n - 1];
        lemma_max_bins_reaches(grids, many, many.len(), j);
    }
}

/// The histogram of a level serves the next one: after a split, the level above
/// holds what building with its help needs, and every axis that is still offered.
pub proof fn law_level_above_is_usable(
    h: Hist,
    x: BinnedMatrix,
    q: QuantGradHess,
    rows: Seq<u32>,
    axes: Seq<u32>,
    groups: Option<Seq<FeatureSet>>,
    g: Growth,
    cand: Candidate,
)
    requires
        level_holds(h, x, q, rows, g, offered(x, axes, groups, g)),
        g.levels.len() < 3,
        forall|r: int| 0 <= r < g.map.len() ==> (#[trigger] g.map[r]) < pow2(g.levels.len()),
    ensures
        ({
            let next = after_split(g, x, rows, cand);
            let above = offered(x, axes, groups, g);
            let now = offered(x, axes, groups, next);
            &&& usable_parent(
                h,
                x,
                q,
                rows,
                next.map,
                pow2(g.levels.len()) as int,
                now,
                above,
            )
            &&& forall|i: int| 0 <= i < now.len() ==> above.contains(#[trigger] now[i])
        }),
{
    let next = after_split(g, x, rows, cand);
    let above = offered(x, axes, groups, g);
    let now = offered(x, axes, groups, next);
    let half = pow2(g.levels.len()) as int;
    lemma2_to64();
    if g.levels.len() < 2 {
        lemma_pow2_strictly_increases(g.levels.len(), 2);
    }
    lemma_pow2_pos(g.levels.len());
    lemma_offers_shrink(
        x.provenance@,
        axes,
        g.used,
        x.provenance@[cand.axis as int].raw.0,
        groups,
        axes.len(),
    );
    lemma_fewer_axes_fewer_bins(x.grids@, now, above, now.len());
    assert forall|r: int| 0 <= r < g.map.len() implies #[trigger] parent_map(next.map, half)[r]
        == g.map[r] by {
        assert(g.map[r] < half);
        let m = g.map[r] as int;
        assert(next.map[r] == moved_leaf(g, x, rows, cand, r));
        vstd::arithmetic::div_mod::lemma_small_mod(m as nat, half as nat);
        vstd::arithmetic::div_mod::lemma_mod_add_multiples_vanish(m, half);
    }
    assert(parent_map(next.map, half) =~= g.map);
}

/// Rows that could be summed are in range, and few enough in every cell.
proof fn lemma_summed_rows(
    data: Seq<Vec<u8>>,
    q: QuantGradHess,
    rows: Seq<u32>,
    leaf_of_row: Seq<u8>,
    n_leaves: nat,
    axis: u32,
    n_bins: nat,
)
    requires
        axis_fault(data, q, rows, leaf_of_row, n_leaves, axis, n_bins) is None,
    ensures
        ({
            let x = axis_input(data, q, leaf_of_row, axis as int);
            &&& forall|i: int|
                0 <= i < rows.len() ==> range_fault(
                    x,
                    #[trigger] rows[i],
                    n_leaves as int,
                    n_bins as int,
                ) is None
            &&& forall|leaf: int, bin: int|
                0 <= leaf < n_leaves && 0 <= bin < n_bins ==> #[trigger] rows_in(
                    x,
                    rows,
                    leaf,
                    bin,
                ) <= u32::MAX
        }),
{
    let x = axis_input(data, q, leaf_of_row, axis as int);
    let (nl, nb) = (n_leaves as int, n_bins as int);
    let n = rows.len() as int;
    if n < ROW_PAR_MIN_ROWS {
        let f = |i: int| row_fault(x, rows.take(i), rows[i], nl, nb);
        lemma_all_none(f, 0, n);
        assert forall|i: int| 0 <= i < n implies range_fault(x, #[trigger] rows[i], nl, nb)
            is None by {
            assert(f(i) is None);
        }
        assert forall|leaf: int, bin: int|
            0 <= leaf < n_leaves && 0 <= bin < n_bins implies #[trigger] rows_in(
            x,
            rows,
            leaf,
            bin,
        ) <= u32::MAX by {
            lemma_sum_bounds(x, rows, leaf, bin);
        }
    } else {
        let f = |i: int| range_fault(x, rows[i], nl, nb);
        lemma_all_none(f, 0, n);
        assert forall|i: int| 0 <= i < n implies range_fault(x, #[trigger] rows[i], nl, nb)
            is None by {
            assert(f(i) is None);
        }
        let c = |j: int| overflow_fault(x, rows.take(chunk_start(j + 1, n)), nl, nb);
        lemma_all_none(c, 0, n_chunks(n));
        let last = n_chunks(n) - 1;
        assert(c(last) is None);
        assert(chunk_start(last + 1, n) == n);
        assert(rows.take(n) =~= rows);
    }
}

/// Leaving rows out lowers no count below that of the rest.
proof fn lemma_fewer_rows(x: AxisInput, rows: Seq<u32>, half: int, n: nat, m: int, leaf: int, bin: int)
    requires
        n <= rows.len(),
        0 <= m <= small_rows(x.leaf_of, rows, half, n).len(),
    ensures
        rows_in(x, small_rows(x.leaf_of, rows, half, n).take(m), leaf, bin) <= rows_in(
            x,
            rows.take(n as int),
            leaf,
            bin,
        ),
    decreases n,
{
    let small = small_rows(x.leaf_of, rows, half, n);
    if n == 0 {
        assert(small.take(m) =~= Seq::<u32>::empty());
    } else {
        let before = small_rows(x.leaf_of, rows, half, (n - 1) as nat);
        let now = rows.take(n as int);
        assert(now.drop_last() =~= rows.take(n - 1));
        assert(now.last() == rows[n - 1]);
        if m <= before.len() {
            lemma_fewer_rows(x, rows, half, (n - 1) as nat, m, leaf, bin);
            assert(small.take(m) =~= before.take(m));
        } else {
            lemma_fewer_rows(x, rows, half, (n - 1) as nat, before.len() as int, leaf, bin);
            assert(small.take(m) =~= before.push(rows[n - 1]));
            assert(small.take(m).drop_last() =~= before.take(before.len() as int));
            assert(small.take(m).last() == rows[n - 1]);
        }
    }
}

proof fn lemma_small_rows_are_rows(leaf_of: Seq<u8>, rows: Seq<u32>, half: int, n: nat)
    requires
        n <= rows.len(),
    ensures
        small_rows(leaf_of, rows, half, n).len() <= n,
        forall|i: int|
            0 <= i < small_rows(leaf_of, rows, half, n).len() ==> rows.contains(
                #[trigger] small_rows(leaf_of, rows, half, n)[i],
            ),
    decreases n,
{
    if n > 0 {
        lemma_small_rows_are_rows(leaf_of, rows, half, (n - 1) as nat);
        let before = small_rows(leaf_of, rows, half, (n - 1) as nat);
        let now = small_rows(leaf_of, rows, half, n);
        assert forall|i: int| 0 <= i < now.len() implies rows.contains(#[trigger] now[i]) by {
            if i < before.len() {
                assert(now[i] == before[i]);
            } else {
                assert(now[i] == rows[n - 1]);
            }
        }
    }
}

/// Summing the smaller children fails nowhere where summing all rows does not.
proof fn lemma_small_rows_can_be_summed(
    data: Seq<Vec<u8>>,
    q: QuantGradHess,
    rows: Seq<u32>,
    leaf_of_row: Seq<u8>,
    half: int,
    n_leaves: nat,
    axis: u32,
    n_bins: nat,
)
    requires
        axis_fault(data, q, rows, leaf_of_row, n_leaves, axis, n_bins) is None,
    ensures
        axis_fault(
            data,
            q,
            small_rows(leaf_of_row, rows, half, rows.len()),
            leaf_of_row,
            n_leaves,
            axis,
            n_bins,
        ) is None,
{
    let x = axis_input(data, q, leaf_of_row, axis as int);
    let (nl, nb) = (n_leaves as int, n_bins as int);
    let small = small_rows(leaf_of_row, rows, half, rows.len());
    let n = small.len() as int;
    lemma_summed_rows(data, q, rows, leaf_of_row, n_leaves, axis, n_bins);
    lemma_small_rows_are_rows(leaf_of_row, rows, half, rows.len());
    assert forall|i: int| 0 <= i < n implies range_fault(x, #[trigger] small[i], nl, nb) is None by {
        assert(rows.contains(small[i]));
        let k = choose|k: int| 0 <= k < rows.len() && rows[k] == small[i];
        assert(range_fault(x, rows[k], nl, nb) is None);
    }
    if n < ROW_PAR_MIN_ROWS {
        let f = |i: int| row_fault(x, small.take(i), small[i], nl, nb);
        assert forall|i: int| 0 <= i < n implies (#[trigger] f(i)) is None by {
            assert(range_fault(x, small[i], nl, nb) is None);
            let r = small[i] as int;
            lemma_sum_bounds(x, small.take(i), x.leaf_of[r] as int, x.col[r] as int);
        }
        lemma_first_fault(f, 0, n, n);
    } else {
        let f = |i: int| range_fault(x, small[i], nl, nb);
        assert forall|i: int| 0 <= i < n implies (#[trigger] f(i)) is None by {
            assert(range_fault(x, small[i], nl, nb) is None);
        }
        lemma_first_fault(f, 0, n, n);
        let c = |j: int| overflow_fault(x, small.take(chunk_start(j + 1, n)), nl, nb);
        assert forall|j: int| 0 <= j < n_chunks(n) implies (#[trigger] c(j)) is None by {
            let m = chunk_start(j + 1, n);
            let head = small.take(m);
            assert(0 <= m <= n);
            assert(rows.take(rows.len() as int) =~= rows);
            assert forall|leaf: int, bin: int|
                #![trigger sum_g(x, head, leaf, bin)]
                #![trigger sum_h(x, head, leaf, bin)]
                #![trigger rows_in(x, head, leaf, bin)]
                0 <= leaf < nl && 0 <= bin < nb implies rows_in(x, head, leaf, bin) <= u32::MAX
                && i64::MIN <= sum_g(x, head, leaf, bin) <= i64::MAX && i64::MIN <= sum_h(
                x,
                head,
                leaf,
                bin,
            ) <= i64::MAX by {
                lemma_fewer_rows(x, rows, half, rows.len(), m, leaf, bin);
                assert(rows_in(x, rows, leaf, bin) <= u32::MAX);
                lemma_sum_bounds(x, head, leaf, bin);
            }
        }
        lemma_first_fault(c, 0, n_chunks(n), n_chunks(n));
    }
}

/// Building with the help of the level above fails nowhere where a full build
/// does not.
pub proof fn law_subtraction_succeeds_where_a_full_build_does(
    x: BinnedMatrix,
    q: QuantGradHess,
    rows: Seq<u32>,
    leaf_of_row: Seq<u8>,
    half: nat,
    axes: Seq<u32>,
    above: Seq<u32>,
)
    requires
        axes.len() > 0,
        build_fault(x, q, rows, leaf_of_row, 2 * half, axes) is None,
        forall|i: int| 0 <= i < axes.len() ==> above.contains(#[trigger] axes[i]),
    ensures
        subtracted_fault(x, q, rows, leaf_of_row, half, axes, above) is None,
{
    let n = rows.len() as int;
    let m = axes.len() as int;
    let nb = max_bins_of(x.grids@, axes, axes.len());
    let small = small_rows(leaf_of_row, rows, half as int, rows.len());
    let sums = |i: int| axis_fault(x.data@, q, rows, leaf_of_row, 2 * half, axes[i], nb);
    lemma_all_none(sums, 0, m);
    assert(sums(0) is None);
    lemma_summed_rows(x.data@, q, rows, leaf_of_row, 2 * half, axes[0], nb);
    let leaves = |i: int| leaf_fault(leaf_of_row, rows, 2 * half as int, i);
    assert forall|i: int| 0 <= i < n implies (#[trigger] leaves(i)) is None by {
        let inp = axis_input(x.data@, q, leaf_of_row, axes[0] as int);
        assert(range_fault(inp, rows[i], (2 * half) as int, nb as int) is None);
    }
    lemma_first_fault(leaves, 0, n, n);
    let part = |i: int| axis_fault(x.data@, q, small, leaf_of_row, 2 * half, axes[i], nb);
    assert forall|i: int| 0 <= i < m implies (#[trigger] part(i)) is None by {
        assert(sums(i) is None);
        lemma_small_rows_can_be_summed(
            x.data@,
            q,
            rows,
            leaf_of_row,
            half as int,
            2 * half,
            axes[i],
            nb,
        );
    }
    lemma_first_fault(part, 0, m, m);
    let absent = |i: int| axis_absent(axes, above, i);
    assert forall|i: int| 0 <= i < m implies (#[trigger] absent(i)) is None by {
        assert(above.contains(axes[i]));
    }
    lemma_first_fault(absent, 0, m, m);
}

proof fn lemma_same_bins(a: Hist, b: Hist, leaf: int, p: int, from: int, to: int)
    requires
        same_sums(a, b),
    ensures
        bins_g(a, leaf, p, from, to) == bins_g(b, leaf, p, from, to),
        bins_h(a, leaf, p, from, to) == bins_h(b, leaf, p, from, to),
        bins_count(a, leaf, p, from, to) == bins_count(b, leaf, p, from, to),
    decreases to - from,
{
    if from < to {
        lemma_same_bins(a, b, leaf, p, from, to - 1);
    }
}

/// What a candidate shows to its scoring.
#[verifier::ext_equal]
pub struct ItemView {
    pub p: usize,
    pub axis: u32,
    pub bin_le: usize,
    pub missing_left: bool,
    pub low: Seq<Side>,
    pub high: Seq<Side>,
}

impl View for ScanItem {
    type V = ItemView;

    open spec fn view(&self) -> ItemView {
        ItemView {
            p: self.p,
            axis: self.axis,
            bin_le: self.bin_le,
            missing_left: self.missing_left,
            low: self.low@,
            high: self.high@,
        }
    }
}

/// What candidates show to their scoring.
pub open spec fn item_views(items: Seq<ScanItem>) -> Seq<ItemView> {
    items.map_values(|it: ScanItem| it@)
}

/// Candidates are listed alike over the same sums.
pub proof fn law_same_sums_scan_alike(
    a: Hist,
    b: Hist,
    items_a: Seq<ScanItem>,
    items_b: Seq<ScanItem>,
    axes: Seq<u32>,
    n_data_bins: Seq<usize>,
    n: nat,
)
    requires
        same_sums(a, b),
        lists_axes(items_a, a, axes, n_data_bins, n),
        lists_axes(items_b, b, axes, n_data_bins, n),
    ensures
        item_views(items_a) == item_views(items_b),
{
    assert forall|i: int| 0 <= i < items_a.len() implies (#[trigger] items_a[i])@
        == items_b[i]@ by {
        let (p, v, ml) = lemma_position_of_item(n_data_bins, n, i);
        let at = item_at(n_data_bins, p, v, ml);
        assert(lists_one(items_a, a, axes, n_data_bins, p, v, ml, at));
        assert(lists_one(items_b, b, axes, n_data_bins, p, v, ml, at));
        let (s, t) = (items_a[i], items_b[i]);
        assert(item_holds(s, a) && item_holds(t, b));
        assert forall|leaf: int| 0 <= leaf < s.low@.len() implies (#[trigger] s.low@[leaf])
            == t.low@[leaf] && s.high@[leaf] == t.high@[leaf] by {
            assert(is_low_side(s.low@[leaf], a, leaf, s.p as int, v, ml));
            assert(is_low_side(t.low@[leaf], b, leaf, t.p as int, v, ml));
            assert(is_high_side(s.high@[leaf], s.low@[leaf], a, leaf, s.p as int));
            assert(is_high_side(t.high@[leaf], t.low@[leaf], b, leaf, t.p as int));
            lemma_same_bins(a, b, leaf, p as int, 1, v + 1);
            lemma_same_bins(a, b, leaf, p as int, 0, 0);
            lemma_same_bins(a, b, leaf, p as int, 0, 1);
            lemma_same_bins(a, b, leaf, p as int, 0, a.n_bins as int);
        }
        assert forall|leaf: int| 0 <= leaf < s.high@.len() implies #[trigger] s.high@[leaf]
            == t.high@[leaf] by {
            assert(s.low@[leaf] == t.low@[leaf]);
        }
        assert(s.low@ =~= t.low@);
        assert(s.high@ =~= t.high@);
    }
    assert(item_views(items_a) =~= item_views(items_b));
}

/// A run of growth: the histogram and the candidates of each level, and the
/// splits that were chosen.
pub struct Run {
    pub hists: Seq<Hist>,
    pub scans: Seq<Seq<ScanItem>>,
    pub course: Seq<Candidate>,
}

/// What all runs of one growth share.
pub struct Setting {
    pub x: BinnedMatrix,
    pub q: QuantGradHess,
    pub rows: Seq<u32>,
    pub n_rows: nat,
    pub axes: Seq<u32>,
    pub groups: Option<Seq<FeatureSet>>,
    pub max_order: u8,
    /// The choice of a split among the candidates of a level.
    pub pick: spec_fn(Growth, Seq<ItemView>) -> Option<Candidate>,
}

/// What the tree of a run holds before level `k`.
pub open spec fn growth_at(s: Setting, run: Run, k: int) -> Growth {
    grown(s.x, s.rows, s.n_rows, run.course.take(k))
}

/// Whether growth ends for want of levels or axes.
pub open spec fn growth_ends(s: Setting, g: Growth) -> bool {
    g.levels.len() >= order_cap(s.max_order) || offered(s.x, s.axes, s.groups, g).len() == 0
}

/// Whether level `k` of a run was summed and scanned.
pub open spec fn level_scanned(s: Setting, run: Run, k: int) -> bool {
    let g = growth_at(s, run, k);
    let axes = offered(s.x, s.axes, s.groups, g);
    &&& k < run.hists.len() && k < run.scans.len()
    &&& level_holds(run.hists[k], s.x, s.q, s.rows, g, axes)
    &&& lists_axes(run.scans[k], run.hists[k], axes, data_bins_of(s.x.grids@, axes), axes.len())
}

/// What is chosen at level `k` of a run.
pub open spec fn chosen_at(s: Setting, run: Run, k: int) -> Option<Candidate> {
    (s.pick)(growth_at(s, run, k), item_views(run.scans[k]))
}

/// Whether a run took the chosen split at each level, and stopped where growth
/// ends or nothing is chosen.
pub open spec fn is_run(s: Setting, run: Run) -> bool {
    &&& forall|k: int|
        0 <= k < run.course.len() ==> !growth_ends(s, #[trigger] growth_at(s, run, k))
            && level_scanned(s, run, k) && chosen_at(s, run, k) == Some(run.course[k])
    &&& {
        let n = run.course.len() as int;
        growth_ends(s, growth_at(s, run, n)) || (level_scanned(s, run, n) && chosen_at(s, run, n)
            is None)
    }
}

proof fn lemma_runs_agree(s: Setting, a: Run, b: Run, k: int)
    requires
        is_run(s, a),
        is_run(s, b),
        0 <= k <= a.course.len(),
        k <= b.course.len(),
    ensures
        a.course.take(k) == b.course.take(k),
        level_scanned(s, a, k) && level_scanned(s, b, k) ==> chosen_at(s, a, k) == chosen_at(
            s,
            b,
            k,
        ),
    decreases k,
{
    if k == 0 {
        assert(a.course.take(0) =~= b.course.take(0));
    } else {
        lemma_runs_agree(s, a, b, k - 1);
        assert(!growth_ends(s, growth_at(s, a, k - 1)));
        assert(!growth_ends(s, growth_at(s, b, k - 1)));
        assert(a.course.take(k) =~= a.course.take(k - 1).push(a.course[k - 1]));
        assert(b.course.take(k) =~= b.course.take(k - 1).push(b.course[k - 1]));
    }
    if level_scanned(s, a, k) && level_scanned(s, b, k) {
        let g = growth_at(s, a, k);
        let axes = offered(s.x, s.axes, s.groups, g);
        law_level_has_one_histogram(a.hists[k], b.hists[k], s.x, s.q, s.rows, g, axes);
        law_same_sums_scan_alike(
            a.hists[k],
            b.hists[k],
            a.scans[k],
            b.scans[k],
            axes,
            data_bins_of(s.x.grids@, axes),
            axes.len(),
        );
    }
}

/// Building levels in full or with the help of the level above grows the same
/// tree: any two runs over the same data, with the same choice among candidates,
/// take the same splits and lead every row to the same leaf.
pub proof fn law_runs_grow_the_same_tree(s: Setting, a: Run, b: Run)
    requires
        is_run(s, a),
        is_run(s, b),
    ensures
        a.course == b.course,
        grown(s.x, s.rows, s.n_rows, a.course) == grown(s.x, s.rows, s.n_rows, b.course),
{
    let (m, n) = (a.course.len() as int, b.course.len() as int);
    let k = if m < n {
        m
    } else {
        n
    };
    lemma_runs_agree(s, a, b, k);
    if m < n {
        assert(!growth_ends(s, growth_at(s, b, k)));
        assert(growth_at(s, a, k) == growth_at(s, b, k));
    } else if n < m {
        assert(!growth_ends(s, growth_at(s, a, k)));
        assert(growth_at(s, a, k) == growth_at(s, b, k));
    }
    assert(a.course.take(m) =~= a.course);
    assert(b.course.take(n) =~= b.course);
}

/// Whatever solves leaves from the splits and the leaf of every row, runs over the
/// same data end with the same tree, leaves and all.
pub proof fn law_runs_finish_the_same_tree(
    s: Setting,
    a: Run,
    b: Run,
    solve: spec_fn(Growth) -> Seq<F32>,
    tree_a: ObliviousTree,
    tree_b: ObliviousTree,
)
    requires
        is_run(s, a),
        is_run(s, b),
        tree_a.wf(),
        tree_b.wf(),
        tree_a.splits@ == grown(s.x, s.rows, s.n_rows, a.course).levels,
        tree_b.splits@ == grown(s.x, s.rows, s.n_rows, b.course).levels,
        tree_a.leaves@ == solve(grown(s.x, s.rows, s.n_rows, a.course)),
        tree_b.leaves@ == solve(grown(s.x, s.rows, s.n_rows, b.course)),
    ensures
        tree_a.splits@ == tree_b.splits@,
        tree_a.leaves@ == tree_b.leaves@,
        tree_a.depth == tree_b.depth,
{
    law_runs_grow_the_same_tree(s, a, b);
}

} // verus!
