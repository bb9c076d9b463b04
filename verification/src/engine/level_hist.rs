//! Building the histogram of a level, and having a child's from its parent's.
use crate::data::{BinnedMatrix, BorderGrid};
use crate::engine::hist::{
    accumulate_axis_quantized, axis_fault, axis_input, cell, law_cells_are_disjoint,
    lemma_cell_bound, rows_in, shape_fault, sum_g, sum_h, AxisQHist, Hist, QuantGradHess,
};
use crate::error::{
    answers, first_fault, internal, lemma_first_fault, shape_mismatch, Fault, PbError,
};

use vstd::prelude::*;

verus! {

/// The largest number of bins among the first `n` axes.
pub open spec fn max_bins_of(grids: Seq<BorderGrid>, axes: Seq<u32>, n: nat) -> nat
    decreases n,
{
    if n == 0 {
        0
    } else {
        let before = max_bins_of(grids, axes, (n - 1) as nat);
        let here = grids[axes[n - 1] as int].n_bins as nat;
        if here > before {
            here
        } else {
            before
        }
    }
}

/// Why an axis has no bins.
pub open spec fn grid_missing(grids: Seq<BorderGrid>, axes: Seq<u32>, i: int) -> Option<Fault> {
    if axes[i] >= grids.len() {
        Some(Fault::Internal("axis has no grid"@))
    } else {
        None
    }
}

/// Why the histogram of a level cannot be built.
pub open spec fn build_fault(
    x: BinnedMatrix,
    q: QuantGradHess,
    rows: Seq<u32>,
    leaf_of_row: Seq<u8>,
    n_leaves: nat,
    axes: Seq<u32>,
) -> Option<Fault> {
    let missing = first_fault(
        |i: int| grid_missing(x.grids@, axes, i),
        0,
        axes.len() as int,
    );
    let nb = max_bins_of(x.grids@, axes, axes.len());
    let sums = first_fault(
        |i: int| axis_fault(x.data@, q, rows, leaf_of_row, n_leaves, axes[i], nb),
        0,
        axes.len() as int,
    );
    if missing is Some {
        missing
    } else if sums is Some {
        sums
    } else {
        shape_fault(n_leaves, axes.len(), nb)
    }
}

/// Whether a cell of a histogram holds the sums over `rows`.
pub open spec fn cell_holds(
    hist: Hist,
    data: Seq<Vec<u8>>,
    q: QuantGradHess,
    leaf_of_row: Seq<u8>,
    rows: Seq<u32>,
    axis: u32,
    leaf: int,
    a: int,
    bin: int,
) -> bool {
    let inp = axis_input(data, q, leaf_of_row, axis as int);
    let p = hist.pos(leaf, a, bin);
    &&& hist.g@[p] == sum_g(inp, rows, leaf, bin)
    &&& hist.h@[p] == sum_h(inp, rows, leaf, bin)
    &&& hist.count@[p] == rows_in(inp, rows, leaf, bin)
}

/// Whether a histogram holds the sums over `rows` of every leaf, axis and bin.
pub open spec fn hist_holds(
    hist: Hist,
    data: Seq<Vec<u8>>,
    q: QuantGradHess,
    leaf_of_row: Seq<u8>,
    rows: Seq<u32>,
    axes: Seq<u32>,
) -> bool {
    &&& hist.wf()
    &&& hist.n_axes == axes.len()
    &&& forall|leaf: int, a: int, bin: int|
        hist.within(leaf, a, bin) ==> #[trigger] cell_holds(
            hist,
            data,
            q,
            leaf_of_row,
            rows,
            axes[a],
            leaf,
            a,
            bin,
        )
}

/// Whether a cell of the tensor holds a cell of the sums of one axis.
spec fn took(hist: Hist, p: int, sub: AxisQHist, s: int) -> bool {
    hist.g@[p] == sub.g@[s] && hist.h@[p] == sub.h@[s] && hist.count@[p] == sub.count@[s]
}

/// Whether a cell is the same in both histograms.
spec fn kept(hist: Hist, before: Hist, p: int) -> bool {
    hist.g@[p] == before.g@[p] && hist.h@[p] == before.h@[p] && hist.count@[p] == before.count@[p]
}

/// Copies the sums of one axis into its place in the tensor.
fn place_axis(hist: &mut Hist, a: usize, sub: &AxisQHist)
    requires
        old(hist).wf(),
        a < old(hist).n_axes,
        sub.g@.len() == old(hist).n_leaves * old(hist).n_bins,
        sub.h@.len() == old(hist).n_leaves * old(hist).n_bins,
        sub.count@.len() == old(hist).n_leaves * old(hist).n_bins,
    ensures
        final(hist).wf(),
        final(hist).n_leaves == old(hist).n_leaves,
        final(hist).n_axes == old(hist).n_axes,
        final(hist).n_bins == old(hist).n_bins,
        forall|leaf: int, bin: int|
            old(hist).within(leaf, a as int, bin) ==> #[trigger] took(
                *final(hist),
                old(hist).pos(leaf, a as int, bin),
                *sub,
                cell(leaf, 0, bin, 1, old(hist).n_bins as int),
            ),
        forall|leaf: int, b: int, bin: int|
            old(hist).within(leaf, b, bin) && b != a ==> #[trigger] kept(
                *final(hist),
                *old(hist),
                old(hist).pos(leaf, b, bin),
            ),
{
    let nl: usize = hist.n_leaves;
    let na: usize = hist.n_axes;
    let nb: usize = hist.n_bins;
    let ghost start = *hist;
    let mut leaf: usize = 0;
    while leaf < nl
        invariant
            leaf <= nl,
            a < na,
            start == *old(hist),
            start.wf(),
            nl == start.n_leaves,
            na == start.n_axes,
            nb == start.n_bins,
            hist.wf(),
            hist.n_leaves == nl,
            hist.n_axes == na,
            hist.n_bins == nb,
            sub.g@.len() == nl * nb,
            sub.h@.len() == nl * nb,
            sub.count@.len() == nl * nb,
            forall|l: int, b: int|
                0 <= l < leaf && 0 <= b < nb ==> #[trigger] took(*hist, start.pos(l, a as int, b), *sub, cell(l, 0, b, 1, nb as int)),
            forall|l: int, c: int, b: int|
                start.within(l, c, b) && (c != a || l >= leaf) ==> #[trigger] kept(*hist, start, start.pos(l, c, b)),
        decreases nl - leaf,
    {
        let mut bin: usize = 0;
        while bin < nb
            invariant
                bin <= nb,
                leaf < nl,
                a < na,
                start == *old(hist),
                start.wf(),
                nl == start.n_leaves,
                na == start.n_axes,
                nb == start.n_bins,
                hist.wf(),
                hist.n_leaves == nl,
                hist.n_axes == na,
                hist.n_bins == nb,
                sub.g@.len() == nl * nb,
                sub.h@.len() == nl * nb,
                sub.count@.len() == nl * nb,
                forall|l: int, b: int|
                    0 <= l <= leaf && 0 <= b < nb && (l < leaf || b < bin) ==> #[trigger] took(*hist, start.pos(l, a as int, b), *sub, cell(l, 0, b, 1, nb as int)),
                forall|l: int, c: int, b: int|
                    start.within(l, c, b) && (c != a || l > leaf || (l == leaf && b >= bin)) ==> #[trigger] kept(*hist, start, start.pos(l, c, b)),
            decreases nb - bin,
        {
            proof {
                lemma_cell_bound(leaf as int, 0, bin as int, nl as int, 1, nb as int);
                lemma_cell_bound(leaf as int, a as int, bin as int, nl as int, na as int, nb as int);
                assert(leaf as int * 1 == leaf as int);
                assert(nl as int * 1 == nl as int);
                assert(0 <= leaf * nb) by (nonlinear_arith);
                assert(hist.g.len() == hist.g@.len());
                assert(sub.g.len() == sub.g@.len());
                assert(start.pos(leaf as int, a as int, bin as int) <= usize::MAX);
            }
            let src: usize = leaf * nb + bin;
            let dst: usize = (leaf * na + a) * nb + bin;
            let ghost before = *hist;
            hist.g.set(dst, sub.g[src]);
            hist.h.set(dst, sub.h[src]);
            hist.count.set(dst, sub.count[src]);
            proof {
                assert(dst == start.pos(leaf as int, a as int, bin as int));
                assert forall|l: int, c: int, b: int|
                    start.within(l, c, b) && !(l == leaf && c == a && b == bin) implies kept(
                    *hist,
                    before,
                    #[trigger] start.pos(l, c, b),
                ) by {
                    lemma_cell_bound(l, c, b, nl as int, na as int, nb as int);
                    if start.pos(l, c, b) == dst {
                        law_cells_are_disjoint(
                            l,
                            c,
                            b,
                            leaf as int,
                            a as int,
                            bin as int,
                            na as int,
                            nb as int,
                        );
                    }
                }
                assert forall|l: int, b: int|
                    0 <= l <= leaf && 0 <= b < nb && (l < leaf || b < bin + 1) implies #[trigger] took(
                    *hist,
                    start.pos(l, a as int, b),
                    *sub,
                    cell(l, 0, b, 1, nb as int),
                ) by {
                    assert(start.within(l, a as int, b));
                    if !(l == leaf && b == bin) {
                        assert(took(
                            before,
                            start.pos(l, a as int, b),
                            *sub,
                            cell(l, 0, b, 1, nb as int),
                        ));
                    }
                }
                assert forall|l: int, c: int, b: int|
                    start.within(l, c, b) && (c != a || l > leaf || (l == leaf && b >= bin
                        + 1)) implies #[trigger] kept(*hist, start, start.pos(l, c, b)) by {
                    assert(kept(before, start, start.pos(l, c, b)));
                }
            }
            bin = bin + 1;
        }
        leaf = leaf + 1;
    }
}

/// Sums the rows of a level over every leaf, axis and bin.
pub fn build_quantized_histogram(
    x: &BinnedMatrix,
    qgh: &QuantGradHess,
    rows: &Vec<u32>,
    leaf_of_row: &Vec<u8>,
    n_leaves: usize,
    axes: &Vec<u32>,
) -> (r: Result<Hist, PbError>)
    ensures
        answers(
            r,
            build_fault(*x, *qgh, rows@, leaf_of_row@, n_leaves as nat, axes@),
        ),
        r is Ok ==> {
            &&& r->Ok_0.n_leaves == n_leaves
            &&& r->Ok_0.n_bins == max_bins_of(x.grids@, axes@, axes@.len())
            &&& hist_holds(r->Ok_0, x.data@, *qgh, leaf_of_row@, rows@, axes@)
        },
{
    let ghost missing = |i: int| grid_missing(x.grids@, axes@, i);
    let n_axes: usize = axes.len();
    let mut max_bins: usize = 0;
    let mut i: usize = 0;
    while i < n_axes
        invariant
            i <= n_axes,
            n_axes == axes@.len(),
            missing == (|i: int| grid_missing(x.grids@, axes@, i)),
            forall|j: int| 0 <= j < i ==> (#[trigger] missing(j)) is None,
            max_bins == max_bins_of(x.grids@, axes@, i as nat),
        decreases n_axes - i,
    {
        proof {
            lemma_first_fault(missing, 0, i as int, n_axes as int);
        }
        let a: u32 = axes[i];
        if a as usize >= x.grids.len() {
            assert(missing(i as int) is Some);
            return Err(internal("axis has no grid"));
        }
        assert(missing(i as int) is None);
        let here: usize = x.grids[a as usize].n_bins as usize;
        if here > max_bins {
            max_bins = here;
        }
        i = i + 1;
    }
    let ghost sums = |i: int|
        axis_fault(
            x.data@,
            *qgh,
            rows@,
            leaf_of_row@,
            n_leaves as nat,
            axes@[i],
            max_bins as nat,
        );
    proof {
        lemma_first_fault(missing, 0, n_axes as int, n_axes as int);
    }
    let mut subs: Vec<AxisQHist> = Vec::with_capacity(n_axes);
    let mut k: usize = 0;
    while k < n_axes
        invariant
            k <= n_axes,
            n_axes == axes@.len(),
            max_bins == max_bins_of(x.grids@, axes@, axes@.len()),
            missing == (|i: int| grid_missing(x.grids@, axes@, i)),
            first_fault(missing, 0, n_axes as int) is None,
            sums == (|i: int|
                axis_fault(
                    x.data@,
                    *qgh,
                    rows@,
                    leaf_of_row@,
                    n_leaves as nat,
                    axes@[i],
                    max_bins as nat,
                )),
            forall|j: int| 0 <= j < k ==> (#[trigger] sums(j)) is None,
            subs@.len() == k,
            forall|j: int|
                0 <= j < k ==> (#[trigger] subs@[j]).holds(
                    axis_input(x.data@, *qgh, leaf_of_row@, axes@[j] as int),
                    rows@,
                    n_leaves as int,
                    max_bins as int,
                ),
        decreases n_axes - k,
    {
        proof {
            lemma_first_fault(sums, 0, k as int, n_axes as int);
        }
        match accumulate_axis_quantized(x, qgh, rows, leaf_of_row, n_leaves, axes[k], max_bins) {
            Ok(s) => {
                assert(sums(k as int) is None);
                subs.push(s);
            },
            Err(e) => {
                assert(sums(k as int) is Some);
                return Err(e);
            },
        }
        k = k + 1;
    }
    proof {
        lemma_first_fault(sums, 0, n_axes as int, n_axes as int);
    }
    let mut hist = match Hist::try_zeros(n_leaves, n_axes, max_bins) {
        Ok(h) => h,
        Err(e) => return Err(e),
    };
    let mut a: usize = 0;
    while a < n_axes
        invariant
            a <= n_axes,
            n_axes == axes@.len(),
            hist.wf(),
            hist.n_leaves == n_leaves,
            hist.n_axes == n_axes,
            hist.n_bins == max_bins,
            max_bins == max_bins_of(x.grids@, axes@, axes@.len()),
            subs@.len() == n_axes,
            forall|j: int|
                0 <= j < n_axes ==> (#[trigger] subs@[j]).holds(
                    axis_input(x.data@, *qgh, leaf_of_row@, axes@[j] as int),
                    rows@,
                    n_leaves as int,
                    max_bins as int,
                ),
            forall|leaf: int, b: int, bin: int|
                hist.within(leaf, b, bin) && b < a ==> #[trigger] cell_holds(
                    hist,
                    x.data@,
                    *qgh,
                    leaf_of_row@,
                    rows@,
                    axes@[b],
                    leaf,
                    b,
                    bin,
                ),
        decreases n_axes - a,
    {
        let ghost before = hist;
        assert(subs@[a as int].holds(
            axis_input(x.data@, *qgh, leaf_of_row@, axes@[a as int] as int),
            rows@,
            n_leaves as int,
            max_bins as int,
        ));
        place_axis(&mut hist, a, &subs[a]);
        proof {
            assert forall|leaf: int, b: int, bin: int| hist.within(leaf, b, bin) && b < a
                + 1 implies #[trigger] cell_holds(
                hist,
                x.data@,
                *qgh,
                leaf_of_row@,
                rows@,
                axes@[b],
                leaf,
                b,
                bin,
            ) by {
                let p = before.pos(leaf, b, bin);
                assert(hist.pos(leaf, b, bin) == p);
                if b == a {
                    assert(before.within(leaf, a as int, bin));
                    let s = cell(leaf, 0, bin, 1, max_bins as int);
                    assert(took(hist, p, subs@[a as int], s));
                    assert(subs@[a as int].g@[s] == sum_g(
                        axis_input(x.data@, *qgh, leaf_of_row@, axes@[a as int] as int),
                        rows@,
                        leaf,
                        bin,
                    ));
                } else {
                    assert(before.within(leaf, b, bin));
                    assert(kept(hist, before, p));
                    assert(cell_holds(
                        before,
                        x.data@,
                        *qgh,
                        leaf_of_row@,
                        rows@,
                        axes@[b],
                        leaf,
                        b,
                        bin,
                    ));
                }
            }
        }
        a = a + 1;
    }
    Ok(hist)
}

/// Why one histogram cannot be subtracted from another.
pub open spec fn subtract_fault(parent: Hist, left: Hist) -> Option<Fault> {
    if parent.n_leaves != left.n_leaves || parent.n_axes != left.n_axes || parent.n_bins
        != left.n_bins {
        Some(Fault::ShapeMismatch("histogram subtraction: parent/left shape mismatch"@))
    } else if exists|i: int|
        0 <= i < parent.count@.len() && (#[trigger] parent.count@[i]) < left.count@[i] {
        Some(Fault::Internal("count underflow in histogram subtraction"@))
    } else {
        None
    }
}

/// The other child of a node: the parent's histogram minus that of one child.
pub fn subtract(parent: &Hist, left: &Hist) -> (r: Result<Hist, PbError>)
    requires
        parent.wf(),
        left.wf(),
    ensures
        answers(r, subtract_fault(*parent, *left)),
        r is Ok ==> {
            let o = r->Ok_0;
            &&& o.wf()
            &&& o.n_leaves == parent.n_leaves && o.n_axes == parent.n_axes && o.n_bins
                == parent.n_bins
            &&& forall|i: int|
                0 <= i < o.g@.len() ==> #[trigger] o.g@[i] == parent.g@[i].wrapping_sub(left.g@[i])
            &&& forall|i: int|
                0 <= i < o.h@.len() ==> #[trigger] o.h@[i] == parent.h@[i].wrapping_sub(left.h@[i])
            &&& forall|i: int|
                0 <= i < o.count@.len() ==> #[trigger] o.count@[i] == parent.count@[i]
                    - left.count@[i]
        },
{
    if parent.n_leaves != left.n_leaves || parent.n_axes != left.n_axes || parent.n_bins
        != left.n_bins {
        return Err(shape_mismatch("histogram subtraction: parent/left shape mismatch"));
    }
    let n: usize = parent.g.len();
    let mut g: Vec<i64> = Vec::with_capacity(n);
    let mut h: Vec<i64> = Vec::with_capacity(n);
    let mut count: Vec<u32> = Vec::with_capacity(n);
    let mut i: usize = 0;
    while i < n
        invariant
            i <= n,
            parent.wf(),
            left.wf(),
            parent.n_leaves == left.n_leaves,
            parent.n_axes == left.n_axes,
            parent.n_bins == left.n_bins,
            n == parent.g@.len(),
            g@.len() == i,
            h@.len() == i,
            count@.len() == i,
            forall|j: int|
                0 <= j < i ==> #[trigger] g@[j] == parent.g@[j].wrapping_sub(left.g@[j]),
            forall|j: int|
                0 <= j < i ==> #[trigger] h@[j] == parent.h@[j].wrapping_sub(left.h@[j]),
            forall|j: int| 0 <= j < i ==> #[trigger] count@[j] == parent.count@[j] - left.count@[j],
            forall|j: int| 0 <= j < i ==> (#[trigger] parent.count@[j]) >= left.count@[j],
        decreases n - i,
    {
        g.push(parent.g[i].wrapping_sub(left.g[i]));
        h.push(parent.h[i].wrapping_sub(left.h[i]));
        match parent.count[i].checked_sub(left.count[i]) {
            Some(c) => {
                count.push(c);
            },
            None => {
                return Err(internal("count underflow in histogram subtraction"));
            },
        }
        i = i + 1;
    }
    Ok(
        Hist {
            g,
            h,
            count,
            n_leaves: parent.n_leaves,
            n_axes: parent.n_axes,
            n_bins: parent.n_bins,
        },
    )
}

/// A histogram is as wide as the widest of its axes.
pub proof fn law_the_widest_axis_sets_the_width(grids: Seq<BorderGrid>, axes: Seq<u32>, n: nat, i: int)
    requires
        n <= axes.len(),
        0 <= i < n,
    ensures
        grids[axes[i] as int].n_bins <= max_bins_of(grids, axes, n),
        exists|j: int|
            0 <= j < n && grids[(#[trigger] axes[j]) as int].n_bins == max_bins_of(grids, axes, n),
    decreases n,
{
    if n > 1 {
        let k = if i < n - 1 {
            i
        } else {
            0
        };
        law_the_widest_axis_sets_the_width(grids, axes, (n - 1) as nat, k);
        let j = choose|j: int|
            0 <= j < n - 1 && grids[(#[trigger] axes[j]) as int].n_bins == max_bins_of(
                grids,
                axes,
                (n - 1) as nat,
            );
        if max_bins_of(grids, axes, n) == max_bins_of(grids, axes, (n - 1) as nat) {
            assert(grids[axes[j] as int].n_bins == max_bins_of(grids, axes, n));
        } else {
            assert(grids[axes[n - 1] as int].n_bins == max_bins_of(grids, axes, n));
        }
    } else {
        assert(max_bins_of(grids, axes, 0) == 0);
        assert(grids[axes[0] as int].n_bins == max_bins_of(grids, axes, n));
    }
}

/// Histograms are subtracted exactly when they have one shape and no cell would hold
/// less than no rows.
pub proof fn law_subtracted_histograms_keep_counts(parent: Hist, left: Hist)
    ensures
        subtract_fault(parent, left) is None <==> {
            &&& parent.n_leaves == left.n_leaves
            &&& parent.n_axes == left.n_axes
            &&& parent.n_bins == left.n_bins
            &&& forall|i: int|
                0 <= i < parent.count@.len() ==> left.count@[i] <= (#[trigger] parent.count@[i])
        },
{
}

} // verus!
