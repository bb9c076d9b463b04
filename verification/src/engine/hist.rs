//! Integer histograms.
//!
//! Gradients and hessians are summed as integers, per leaf, axis and bin. Integer
//! sums do not depend on the order or the grouping of the additions, so a
//! histogram is the same however the rows are cut into chunks, and a child's
//! histogram can be had from its parent's and its sibling's by subtraction.
use crate::data::BinnedMatrix;
use crate::error::{answers, first_fault, internal, lemma_first_fault, Fault, PbError};
use crate::float::F32;

use vstd::prelude::*;

verus! {

/// From this many rows on, rows are summed in chunks.
pub const ROW_PAR_MIN_ROWS: usize = 32_768;

/// The number of rows of a chunk.
pub const ROW_PAR_CHUNK_ROWS: usize = 8_192;

/// The scale of quantised gradients and hessians.
#[derive(Debug, Clone, Copy, PartialEq, Eq, Structural)]
pub struct GradScale {
    pub g_scale: F32,
    pub h_scale: F32,
}

/// Quantised gradients and hessians, one of each per row.
#[derive(Debug, Clone, PartialEq)]
pub struct QuantGradHess {
    pub g_q: Vec<i32>,
    pub h_q: Vec<i32>,
    pub scale: GradScale,
}

/// Sums per leaf, axis and bin, with the bin running fastest.
#[derive(Debug, Clone, PartialEq, Default)]
pub struct Hist {
    pub g: Vec<i64>,
    pub h: Vec<i64>,
    pub count: Vec<u32>,
    pub n_leaves: usize,
    pub n_axes: usize,
    pub n_bins: usize,
}

/// The position of a cell.
pub open spec fn cell(leaf: int, axis: int, bin: int, n_axes: int, n_bins: int) -> int {
    (leaf * n_axes + axis) * n_bins + bin
}

/// A cell within the shape lies within the tensor.
pub proof fn lemma_cell_bound(leaf: int, axis: int, bin: int, n_leaves: int, n_axes: int, n_bins: int)
    requires
        0 <= leaf < n_leaves,
        0 <= axis < n_axes,
        0 <= bin < n_bins,
    ensures
        0 <= cell(leaf, axis, bin, n_axes, n_bins) < n_leaves * n_axes * n_bins,
        0 <= leaf * n_axes <= leaf * n_axes + axis,
        leaf * n_axes + axis <= (leaf * n_axes + axis) * n_bins,
{
    assert(0 <= leaf * n_axes) by (nonlinear_arith)
        requires
            0 <= leaf,
            0 <= n_axes,
    ;
    let q = leaf * n_axes + axis;
    assert(q + 1 <= n_leaves * n_axes) by (nonlinear_arith)
        requires
            q == leaf * n_axes + axis,
            0 <= leaf < n_leaves,
            0 <= axis < n_axes,
    ;
    assert(q * n_bins + n_bins <= (n_leaves * n_axes) * n_bins) by (nonlinear_arith)
        requires
            q + 1 <= n_leaves * n_axes,
            0 < n_bins,
    ;
    assert(0 <= q * n_bins && q <= q * n_bins) by (nonlinear_arith)
        requires
            0 <= q,
            0 < n_bins,
    ;
}

/// No two cells of the shape share a position.
pub proof fn law_cells_are_disjoint(
    l1: int,
    a1: int,
    b1: int,
    l2: int,
    a2: int,
    b2: int,
    n_axes: int,
    n_bins: int,
)
    requires
        0 <= a1 < n_axes,
        0 <= a2 < n_axes,
        0 <= b1 < n_bins,
        0 <= b2 < n_bins,
        cell(l1, a1, b1, n_axes, n_bins) == cell(l2, a2, b2, n_axes, n_bins),
    ensures
        l1 == l2,
        a1 == a2,
        b1 == b2,
{
    let p = l1 * n_axes + a1;
    let q = l2 * n_axes + a2;
    assert(p == q) by (nonlinear_arith)
        requires
            0 <= b1 < n_bins,
            0 <= b2 < n_bins,
            p * n_bins + b1 == q * n_bins + b2,
    ;
    assert(l1 == l2) by (nonlinear_arith)
        requires
            0 <= a1 < n_axes,
            0 <= a2 < n_axes,
            l1 * n_axes + a1 == l2 * n_axes + a2,
    ;
}

/// Why a shape cannot be held.
pub open spec fn shape_fault(n_leaves: nat, n_axes: nat, n_bins: nat) -> Option<Fault> {
    if n_leaves * n_axes > usize::MAX || n_leaves * n_axes * n_bins > usize::MAX {
        Some(Fault::Internal("histogram shape overflows usize"@))
    } else {
        None
    }
}

/// The number of cells of a shape.
pub fn checked_cell_count(n_leaves: usize, n_axes: usize, n_bins: usize) -> (r: Result<
    usize,
    PbError,
>)
    ensures
        answers(r, shape_fault(n_leaves as nat, n_axes as nat, n_bins as nat)),
        r is Ok ==> r->Ok_0 == n_leaves * n_axes * n_bins,
{
    match n_leaves.checked_mul(n_axes) {
        Some(c) => match c.checked_mul(n_bins) {
            Some(cells) => Ok(cells),
            None => Err(internal("histogram shape overflows usize")),
        },
        None => Err(internal("histogram shape overflows usize")),
    }
}

fn zeros_i64(n: usize) -> (v: Vec<i64>)
    ensures
        v@.len() == n,
        forall|i: int| 0 <= i < n ==> #[trigger] v@[i] == 0,
{
    let mut v: Vec<i64> = Vec::with_capacity(n);
    let mut i: usize = 0;
    while i < n
        invariant
            i <= n,
            v@.len() == i,
            forall|j: int| 0 <= j < i ==> #[trigger] v@[j] == 0,
        decreases n - i,
    {
        v.push(0);
        i = i + 1;
    }
    v
}

fn zeros_u32(n: usize) -> (v: Vec<u32>)
    ensures
        v@.len() == n,
        forall|i: int| 0 <= i < n ==> #[trigger] v@[i] == 0,
{
    let mut v: Vec<u32> = Vec::with_capacity(n);
    let mut i: usize = 0;
    while i < n
        invariant
            i <= n,
            v@.len() == i,
            forall|j: int| 0 <= j < i ==> #[trigger] v@[j] == 0,
        decreases n - i,
    {
        v.push(0);
        i = i + 1;
    }
    v
}

impl Hist {
    /// The number of cells of the shape.
    pub open spec fn cells(&self) -> int {
        self.n_leaves * self.n_axes * self.n_bins
    }

    /// Every buffer has one entry per cell.
    pub open spec fn wf(&self) -> bool {
        &&& self.g@.len() == self.cells()
        &&& self.h@.len() == self.cells()
        &&& self.count@.len() == self.cells()
    }

    /// Whether the indices lie within the shape.
    pub open spec fn within(&self, leaf: int, axis: int, bin: int) -> bool {
        0 <= leaf < self.n_leaves && 0 <= axis < self.n_axes && 0 <= bin < self.n_bins
    }

    /// The position of a cell.
    pub open spec fn pos(&self, leaf: int, axis: int, bin: int) -> int {
        cell(leaf, axis, bin, self.n_axes as int, self.n_bins as int)
    }

    /// A histogram of zeros.
    pub fn try_zeros(n_leaves: usize, n_axes: usize, n_bins: usize) -> (r: Result<Hist, PbError>)
        ensures
            answers(r, shape_fault(n_leaves as nat, n_axes as nat, n_bins as nat)),
            r is Ok ==> {
                let z = r->Ok_0;
                &&& z.wf()
                &&& z.n_leaves == n_leaves && z.n_axes == n_axes && z.n_bins == n_bins
                &&& forall|i: int| 0 <= i < z.g@.len() ==> #[trigger] z.g@[i] == 0
                &&& forall|i: int| 0 <= i < z.h@.len() ==> #[trigger] z.h@[i] == 0
                &&& forall|i: int| 0 <= i < z.count@.len() ==> #[trigger] z.count@[i] == 0
            },
    {
        match checked_cell_count(n_leaves, n_axes, n_bins) {
            Ok(cells) => Ok(
                Hist {
                    g: zeros_i64(cells),
                    h: zeros_i64(cells),
                    count: zeros_u32(cells),
                    n_leaves,
                    n_axes,
                    n_bins,
                },
            ),
            Err(e) => Err(e),
        }
    }

    /// The position of a cell, or nothing where the indices lie outside the shape
    /// or the position does not fit.
    pub fn offset(&self, leaf: usize, axis: usize, bin: usize) -> (r: Option<usize>)
        ensures
            r == (if self.within(leaf as int, axis as int, bin as int) && self.pos(
                leaf as int,
                axis as int,
                bin as int,
            ) <= usize::MAX {
                Some(self.pos(leaf as int, axis as int, bin as int) as usize)
            } else {
                None
            }),
    {
        if leaf >= self.n_leaves || axis >= self.n_axes || bin >= self.n_bins {
            return None;
        }
        proof {
            lemma_cell_bound(
                leaf as int,
                axis as int,
                bin as int,
                self.n_leaves as int,
                self.n_axes as int,
                self.n_bins as int,
            );
        }
        match leaf.checked_mul(self.n_axes) {
            Some(a) => match a.checked_add(axis) {
                Some(b) => match b.checked_mul(self.n_bins) {
                    Some(c) => c.checked_add(bin),
                    None => None,
                },
                None => None,
            },
            None => None,
        }
    }

    /// The numbers of leaves, axes and bins.
    pub fn shape(&self) -> (s: (usize, usize, usize))
        ensures
            s == (self.n_leaves, self.n_axes, self.n_bins),
    {
        (self.n_leaves, self.n_axes, self.n_bins)
    }

    /// The number of cells held.
    pub fn len(&self) -> (n: usize)
        ensures
            n == self.g@.len(),
    {
        self.g.len()
    }

    /// Whether no cell is held.
    pub fn is_empty(&self) -> (b: bool)
        ensures
            b == (self.g@.len() == 0),
    {
        self.g.len() == 0
    }
}

/// What a histogram of one axis is taken over: the column of the axis, the leaf
/// of each row, and the quantised gradients.
pub struct AxisInput {
    pub col: Seq<u8>,
    pub leaf_of: Seq<u8>,
    pub g: Seq<i32>,
    pub h: Seq<i32>,
}

impl AxisInput {
    /// Whether row `r` falls into a cell.
    pub open spec fn hits(self, r: u32, leaf: int, bin: int) -> bool {
        self.leaf_of[r as int] as int == leaf && self.col[r as int] as int == bin
    }
}

/// The sum of gradients over the rows of a cell.
pub open spec fn sum_g(x: AxisInput, rows: Seq<u32>, leaf: int, bin: int) -> int
    decreases rows.len(),
{
    if rows.len() == 0 {
        0
    } else {
        sum_g(x, rows.drop_last(), leaf, bin) + if x.hits(rows.last(), leaf, bin) {
            x.g[rows.last() as int] as int
        } else {
            0
        }
    }
}

/// The sum of hessians over the rows of a cell.
pub open spec fn sum_h(x: AxisInput, rows: Seq<u32>, leaf: int, bin: int) -> int
    decreases rows.len(),
{
    if rows.len() == 0 {
        0
    } else {
        sum_h(x, rows.drop_last(), leaf, bin) + if x.hits(rows.last(), leaf, bin) {
            x.h[rows.last() as int] as int
        } else {
            0
        }
    }
}

/// The number of rows of a cell.
pub open spec fn rows_in(x: AxisInput, rows: Seq<u32>, leaf: int, bin: int) -> nat
    decreases rows.len(),
{
    if rows.len() == 0 {
        0
    } else {
        rows_in(x, rows.drop_last(), leaf, bin) + if x.hits(rows.last(), leaf, bin) {
            1nat
        } else {
            0nat
        }
    }
}

/// A sum is bounded by the number of its rows.
pub proof fn lemma_sum_bounds(x: AxisInput, rows: Seq<u32>, leaf: int, bin: int)
    ensures
        -0x8000_0000 * rows_in(x, rows, leaf, bin) <= sum_g(x, rows, leaf, bin),
        sum_g(x, rows, leaf, bin) <= 0x7fff_ffff * rows_in(x, rows, leaf, bin),
        -0x8000_0000 * rows_in(x, rows, leaf, bin) <= sum_h(x, rows, leaf, bin),
        sum_h(x, rows, leaf, bin) <= 0x7fff_ffff * rows_in(x, rows, leaf, bin),
        rows_in(x, rows, leaf, bin) <= rows.len(),
    decreases rows.len(),
{
    if rows.len() > 0 {
        lemma_sum_bounds(x, rows.drop_last(), leaf, bin);
    }
}

/// Sums over two lists of rows add up to the sum over both: a histogram does not
/// depend on how the rows are cut into chunks.
pub proof fn law_sums_are_additive(x: AxisInput, a: Seq<u32>, b: Seq<u32>, leaf: int, bin: int)
    ensures
        sum_g(x, a + b, leaf, bin) == sum_g(x, a, leaf, bin) + sum_g(x, b, leaf, bin),
        sum_h(x, a + b, leaf, bin) == sum_h(x, a, leaf, bin) + sum_h(x, b, leaf, bin),
        rows_in(x, a + b, leaf, bin) == rows_in(x, a, leaf, bin) + rows_in(x, b, leaf, bin),
    decreases b.len(),
{
    if b.len() == 0 {
        assert(a + b =~= a);
    } else {
        law_sums_are_additive(x, a, b.drop_last(), leaf, bin);
        assert((a + b).drop_last() =~= a + b.drop_last());
        assert((a + b).last() == b.last());
    }
}

/// The order of the rows has no influence on the sums.
pub proof fn law_sums_ignore_row_order(x: AxisInput, a: Seq<u32>, b: Seq<u32>, leaf: int, bin: int)
    requires
        a.to_multiset() == b.to_multiset(),
    ensures
        sum_g(x, a, leaf, bin) == sum_g(x, b, leaf, bin),
        sum_h(x, a, leaf, bin) == sum_h(x, b, leaf, bin),
        rows_in(x, a, leaf, bin) == rows_in(x, b, leaf, bin),
    decreases a.len(),
{
    broadcast use vstd::seq_lib::group_to_multiset_ensures;

    vstd::seq_lib::to_multiset_len(a);
    vstd::seq_lib::to_multiset_len(b);
    if a.len() > 0 {
        let r = a.last();
        assert(a[a.len() - 1] == r);
        assert(a.contains(r));
        vstd::seq_lib::to_multiset_contains(a, r);
        vstd::seq_lib::to_multiset_contains(b, r);
        assert(b.contains(r));
        let i = choose|i: int| 0 <= i < b.len() && b[i] == r;
        let b1 = b.take(i);
        let b2 = b.skip(i + 1);
        let rest = b1 + b2;
        assert(b =~= (b1 + seq![r]) + b2);
        assert(rest =~= b.remove(i));
        assert(a.drop_last() =~= a.remove(a.len() - 1));
        assert(a.drop_last().to_multiset() =~= rest.to_multiset());
        law_sums_ignore_row_order(x, a.drop_last(), rest, leaf, bin);
        law_sums_are_additive(x, b1 + seq![r], b2, leaf, bin);
        law_sums_are_additive(x, b1, seq![r], leaf, bin);
        law_sums_are_additive(x, b1, b2, leaf, bin);
        assert(seq![r].drop_last() =~= Seq::<u32>::empty());
        assert(seq![r].last() == r);
        reveal_with_fuel(sum_g, 2);
        reveal_with_fuel(sum_h, 2);
        reveal_with_fuel(rows_in, 2);
    } else {
        assert(b.len() == 0);
    }
}

/// The sums of one axis, per leaf and bin.
#[derive(Debug, Clone, PartialEq)]
pub struct AxisQHist {
    pub g: Vec<i64>,
    pub h: Vec<i64>,
    pub count: Vec<u32>,
}

impl AxisQHist {
    /// Whether the buffers hold the sums over `rows`.
    pub open spec fn holds(&self, x: AxisInput, rows: Seq<u32>, n_leaves: int, n_bins: int) -> bool {
        &&& self.g@.len() == n_leaves * n_bins
        &&& self.h@.len() == n_leaves * n_bins
        &&& self.count@.len() == n_leaves * n_bins
        &&& forall|leaf: int, bin: int|
            0 <= leaf < n_leaves && 0 <= bin < n_bins ==> {
                &&& #[trigger] self.g@[cell(leaf, 0, bin, 1, n_bins)] == sum_g(x, rows, leaf, bin)
                &&& self.h@[cell(leaf, 0, bin, 1, n_bins)] == sum_h(x, rows, leaf, bin)
                &&& self.count@[cell(leaf, 0, bin, 1, n_bins)] == rows_in(x, rows, leaf, bin)
            }
    }
}

/// Why a row cannot be summed, whatever the rows before it.
pub open spec fn range_fault(x: AxisInput, r: u32, n_leaves: int, n_bins: int) -> Option<Fault> {
    if r >= x.col.len() {
        Some(Fault::Internal("quant row out of column"@))
    } else if r >= x.leaf_of.len() {
        Some(Fault::Internal("quant row out of leaf map"@))
    } else if x.leaf_of[r as int] >= n_leaves || x.col[r as int] >= n_bins {
        Some(Fault::Internal("leaf or bin id out of quant histogram range"@))
    } else if r >= x.g.len() {
        Some(Fault::Internal("qgh.g"@))
    } else if r >= x.h.len() {
        Some(Fault::Internal("qgh.h"@))
    } else {
        None
    }
}

/// Why a row cannot be summed, given the rows before it.
pub open spec fn row_fault(
    x: AxisInput,
    before: Seq<u32>,
    r: u32,
    n_leaves: int,
    n_bins: int,
) -> Option<Fault> {
    let leaf = x.leaf_of[r as int] as int;
    let bin = x.col[r as int] as int;
    if range_fault(x, r, n_leaves, n_bins) is Some {
        range_fault(x, r, n_leaves, n_bins)
    } else if rows_in(x, before, leaf, bin) >= u32::MAX {
        Some(Fault::Internal("quant bin count overflow"@))
    } else {
        None
    }
}

/// Why rows cannot be summed one after the other: the first row that cannot.
pub open spec fn rows_fault(x: AxisInput, rows: Seq<u32>, n_leaves: int, n_bins: int) -> Option<
    Fault,
> {
    first_fault(
        |i: int| row_fault(x, rows.take(i), rows[i], n_leaves, n_bins),
        0,
        rows.len() as int,
    )
}

/// The input of an axis.
pub open spec fn axis_input(
    data: Seq<Vec<u8>>,
    q: QuantGradHess,
    leaf_of_row: Seq<u8>,
    axis: int,
) -> AxisInput {
    AxisInput { col: data[axis]@, leaf_of: leaf_of_row, g: q.g_q@, h: q.h_q@ }
}

/// Why there is nothing to sum into.
pub open spec fn target_fault(
    data: Seq<Vec<u8>>,
    n_leaves: nat,
    axis: u32,
    n_bins: nat,
) -> Option<Fault> {
    if axis >= data.len() {
        Some(Fault::Internal("axis has no column"@))
    } else {
        shape_fault(n_leaves, 1, n_bins)
    }
}

/// Why an axis cannot be summed row by row.
pub open spec fn run_fault(
    data: Seq<Vec<u8>>,
    q: QuantGradHess,
    rows: Seq<u32>,
    leaf_of_row: Seq<u8>,
    n_leaves: nat,
    axis: u32,
    n_bins: nat,
) -> Option<Fault> {
    if target_fault(data, n_leaves, axis, n_bins) is Some {
        target_fault(data, n_leaves, axis, n_bins)
    } else {
        rows_fault(
            axis_input(data, q, leaf_of_row, axis as int),
            rows,
            n_leaves as int,
            n_bins as int,
        )
    }
}

/// The row at which chunk `j` starts.
pub open spec fn chunk_start(j: int, n: int) -> int {
    if j * ROW_PAR_CHUNK_ROWS < n {
        j * ROW_PAR_CHUNK_ROWS as int
    } else {
        n
    }
}

/// The number of chunks of a list.
pub open spec fn n_chunks(n: int) -> int {
    (n + ROW_PAR_CHUNK_ROWS - 1) / (ROW_PAR_CHUNK_ROWS as int)
}

/// Why the sums of some rows cannot be held.
pub open spec fn overflow_fault(
    x: AxisInput,
    rows: Seq<u32>,
    n_leaves: int,
    n_bins: int,
) -> Option<Fault> {
    if exists|leaf: int, bin: int|
        0 <= leaf < n_leaves && 0 <= bin < n_bins && !(i64::MIN <= #[trigger] sum_g(
            x,
            rows,
            leaf,
            bin,
        ) <= i64::MAX) {
        Some(Fault::Internal("axis quant histogram chunk g overflow"@))
    } else if exists|leaf: int, bin: int|
        0 <= leaf < n_leaves && 0 <= bin < n_bins && !(i64::MIN <= #[trigger] sum_h(
            x,
            rows,
            leaf,
            bin,
        ) <= i64::MAX) {
        Some(Fault::Internal("axis quant histogram chunk h overflow"@))
    } else if exists|leaf: int, bin: int|
        0 <= leaf < n_leaves && 0 <= bin < n_bins && #[trigger] rows_in(x, rows, leaf, bin)
            > u32::MAX {
        Some(Fault::Internal("axis quant histogram chunk count overflow"@))
    } else {
        None
    }
}

/// Why rows cannot be summed chunk by chunk: a row is out of range, or else the
/// sums up to the end of some chunk cannot be held.
pub open spec fn chunks_fault(x: AxisInput, rows: Seq<u32>, n_leaves: int, n_bins: int) -> Option<
    Fault,
> {
    let n = rows.len() as int;
    let ranges = first_fault(|i: int| range_fault(x, rows[i], n_leaves, n_bins), 0, n);
    if ranges is Some {
        ranges
    } else {
        first_fault(
            |j: int| overflow_fault(x, rows.take(chunk_start(j + 1, n)), n_leaves, n_bins),
            0,
            n_chunks(n),
        )
    }
}

/// Why an axis cannot be summed: few rows are summed one after the other, many in
/// chunks.
pub open spec fn axis_fault(
    data: Seq<Vec<u8>>,
    q: QuantGradHess,
    rows: Seq<u32>,
    leaf_of_row: Seq<u8>,
    n_leaves: nat,
    axis: u32,
    n_bins: nat,
) -> Option<Fault> {
    let x = axis_input(data, q, leaf_of_row, axis as int);
    if target_fault(data, n_leaves, axis, n_bins) is Some {
        target_fault(data, n_leaves, axis, n_bins)
    } else if rows.len() < ROW_PAR_MIN_ROWS {
        rows_fault(x, rows, n_leaves as int, n_bins as int)
    } else {
        chunks_fault(x, rows, n_leaves as int, n_bins as int)
    }
}

/// Lists of at most `u32::MAX` rows never overflow: they are refused only where a
/// row is out of range, and then for the first such row, in chunks or not.
pub proof fn law_short_lists_do_not_overflow(
    x: AxisInput,
    rows: Seq<u32>,
    n_leaves: int,
    n_bins: int,
)
    requires
        rows.len() <= u32::MAX,
    ensures
        ({
            let first = first_fault(
                |i: int| range_fault(x, rows[i], n_leaves, n_bins),
                0,
                rows.len() as int,
            );
            &&& rows_fault(x, rows, n_leaves, n_bins) == first
            &&& chunks_fault(x, rows, n_leaves, n_bins) == first
        }),
{
    let n = rows.len() as int;
    lemma_part_fault(x, rows, 0, n, 0, n_leaves, n_bins);
    assert(rows.subrange(0, n) =~= rows);
    let f = |j: int| overflow_fault(x, rows.take(chunk_start(j + 1, n)), n_leaves, n_bins);
    assert forall|j: int| 0 <= j < n_chunks(n) implies (#[trigger] f(j)) is None by {
        let head = rows.take(chunk_start(j + 1, n));
        assert forall|leaf: int, bin: int| i64::MIN <= #[trigger] sum_g(x, head, leaf, bin)
            <= i64::MAX by {
            lemma_sum_bounds(x, head, leaf, bin);
        }
        assert forall|leaf: int, bin: int| i64::MIN <= #[trigger] sum_h(x, head, leaf, bin)
            <= i64::MAX by {
            lemma_sum_bounds(x, head, leaf, bin);
        }
        assert forall|leaf: int, bin: int| #[trigger] rows_in(x, head, leaf, bin) <= u32::MAX by {
            lemma_sum_bounds(x, head, leaf, bin);
        }
    }
    lemma_first_fault(f, 0, n_chunks(n), n_chunks(n));
}

/// Sums the rows `lo..hi` of a list over one axis, one after the other.
pub fn accumulate_axis_quantized_sequential(
    x: &BinnedMatrix,
    qgh: &QuantGradHess,
    rows: &Vec<u32>,
    lo: usize,
    hi: usize,
    leaf_of_row: &Vec<u8>,
    n_leaves: usize,
    axis: u32,
    max_bins: usize,
) -> (r: Result<AxisQHist, PbError>)
    requires
        lo <= hi <= rows@.len(),
    ensures
        answers(
            r,
            run_fault(
                x.data@,
                *qgh,
                rows@.subrange(lo as int, hi as int),
                leaf_of_row@,
                n_leaves as nat,
                axis,
                max_bins as nat,
            ),
        ),
        r is Ok ==> r->Ok_0.holds(
            axis_input(x.data@, *qgh, leaf_of_row@, axis as int),
            rows@.subrange(lo as int, hi as int),
            n_leaves as int,
            max_bins as int,
        ),
{
    if axis as usize >= x.data.len() {
        return Err(internal("axis has no column"));
    }
    let ghost inp = axis_input(x.data@, *qgh, leaf_of_row@, axis as int);
    let ghost part = rows@.subrange(lo as int, hi as int);
    let ghost nl = n_leaves as int;
    let ghost nb = max_bins as int;
    let size: usize = match checked_cell_count(n_leaves, 1, max_bins) {
        Ok(s) => s,
        Err(e) => return Err(e),
    };
    let col = &x.data[axis as usize];
    let mut g: Vec<i64> = zeros_i64(size);
    let mut h: Vec<i64> = zeros_i64(size);
    let mut count: Vec<u32> = zeros_u32(size);
    let ghost f = |i: int| row_fault(inp, part.take(i), part[i], nl, nb);
    let mut i: usize = lo;
    proof {
        assert(size == nl * nb) by (nonlinear_arith)
            requires
                size == nl * 1 * nb,
        ;
        assert(part.take(0) =~= Seq::<u32>::empty());
        assert forall|leaf: int, bin: int| 0 <= leaf < nl && 0 <= bin < nb implies 0 <= #[trigger] cell(
            leaf,
            0,
            bin,
            1,
            nb,
        ) < size by {
            lemma_cell_bound(leaf, 0, bin, nl, 1, nb);
        }
    }
    while i < hi
        invariant
            lo <= i <= hi <= rows@.len(),
            axis < x.data@.len(),
            *col == x.data@[axis as int],
            inp == axis_input(x.data@, *qgh, leaf_of_row@, axis as int),
            part == rows@.subrange(lo as int, hi as int),
            nl == n_leaves,
            nb == max_bins,
            size == nl * nb,
            shape_fault(n_leaves as nat, 1, max_bins as nat) is None,
            g@.len() == size,
            h@.len() == size,
            count@.len() == size,
            f == (|i: int| row_fault(inp, part.take(i), part[i], nl, nb)),
            forall|j: int| 0 <= j < i - lo ==> (#[trigger] f(j)) is None,
            forall|leaf: int, bin: int|
                0 <= leaf < nl && 0 <= bin < nb ==> 0 <= #[trigger] cell(leaf, 0, bin, 1, nb) < size,
            forall|leaf: int, bin: int|
                0 <= leaf < nl && 0 <= bin < nb ==> {
                    &&& #[trigger] g@[cell(leaf, 0, bin, 1, nb)] == sum_g(
                        inp,
                        part.take(i - lo),
                        leaf,
                        bin,
                    )
                    &&& h@[cell(leaf, 0, bin, 1, nb)] == sum_h(inp, part.take(i - lo), leaf, bin)
                    &&& count@[cell(leaf, 0, bin, 1, nb)] == rows_in(
                        inp,
                        part.take(i - lo),
                        leaf,
                        bin,
                    )
                },
        decreases hi - i,
    {
        let ghost k = i - lo;
        let ghost done = part.take(k);
        let r: u32 = rows[i];
        proof {
            lemma_first_fault(f, 0, k, part.len() as int);
            assert(part[k] == r);
        }
        if r as usize >= col.len() {
            assert(f(k) is Some);
            return Err(internal("quant row out of column"));
        }
        if r as usize >= leaf_of_row.len() {
            assert(f(k) is Some);
            return Err(internal("quant row out of leaf map"));
        }
        let bin: usize = col[r as usize] as usize;
        let leaf: usize = leaf_of_row[r as usize] as usize;
        if leaf >= n_leaves || bin >= max_bins {
            assert(f(k) is Some);
            return Err(internal("leaf or bin id out of quant histogram range"));
        }
        if r as usize >= qgh.g_q.len() {
            assert(f(k) is Some);
            return Err(internal("qgh.g"));
        }
        if r as usize >= qgh.h_q.len() {
            assert(f(k) is Some);
            return Err(internal("qgh.h"));
        }
        proof {
            lemma_cell_bound(leaf as int, 0, bin as int, nl, 1, nb);
            assert(cell(leaf as int, 0, bin as int, 1, nb) == leaf * max_bins + bin) by {
                assert(leaf as int * 1 == leaf as int);
            }
            assert(0 <= leaf * max_bins) by (nonlinear_arith);
        }
        let idx: usize = leaf * max_bins + bin;
        assert(g@[cell(leaf as int, 0, bin as int, 1, nb)] == sum_g(
            inp,
            done,
            leaf as int,
            bin as int,
        ));
        let c: u32 = count[idx];
        if c == u32::MAX {
            assert(f(k) is Some);
            return Err(internal("quant bin count overflow"));
        }
        assert(f(k) is None);
        let ghost now = part.take(k + 1);
        proof {
            assert(now.drop_last() =~= done);
            assert(now.last() == r);
            lemma_sum_bounds(inp, now, leaf as int, bin as int);
            assert(rows_in(inp, now, leaf as int, bin as int) == c + 1);
        }
        let ghost g0 = g@;
        let ghost h0 = h@;
        let ghost c0 = count@;
        let gv: i64 = g[idx] + qgh.g_q[r as usize] as i64;
        let hv: i64 = h[idx] + qgh.h_q[r as usize] as i64;
        g.set(idx, gv);
        h.set(idx, hv);
        count.set(idx, c + 1);
        proof {
            assert forall|l: int, b: int| 0 <= l < nl && 0 <= b < nb implies {
                &&& #[trigger] g@[cell(l, 0, b, 1, nb)] == sum_g(inp, now, l, b)
                &&& h@[cell(l, 0, b, 1, nb)] == sum_h(inp, now, l, b)
                &&& count@[cell(l, 0, b, 1, nb)] == rows_in(inp, now, l, b)
            } by {
                let p = cell(l, 0, b, 1, nb);
                assert(g0[p] == sum_g(inp, done, l, b));
                if p == idx {
                    law_cells_are_disjoint(l, 0, b, leaf as int, 0, bin as int, 1, nb);
                } else {
                    assert(!(l == leaf && b == bin));
                    assert(g@[p] == g0[p]);
                    assert(h@[p] == h0[p]);
                    assert(count@[p] == c0[p]);
                }
            }
        }
        i = i + 1;
    }
    proof {
        lemma_first_fault(f, 0, part.len() as int, part.len() as int);
        assert(part.take(hi - lo) =~= part);
    }
    Ok(AxisQHist { g, h, count })
}

/// Whether some entry of a sum leaves the range of its type.
pub open spec fn overflows_i64(a: Seq<i64>, b: Seq<i64>) -> bool {
    exists|i: int|
        0 <= i < a.len() && !(i64::MIN <= (#[trigger] a[i]) + b[i] <= i64::MAX)
}

/// Whether some entry of a sum of counts leaves the range of its type.
pub open spec fn overflows_u32(a: Seq<u32>, b: Seq<u32>) -> bool {
    exists|i: int| 0 <= i < a.len() && (#[trigger] a[i]) + b[i] > u32::MAX
}

/// Why two chunks cannot be added.
pub open spec fn add_fault(dst: AxisQHist, src: AxisQHist) -> Option<Fault> {
    if dst.g@.len() != src.g@.len() || dst.h@.len() != src.h@.len() || dst.count@.len()
        != src.count@.len() {
        Some(Fault::Internal("axis quant histogram chunk shape mismatch"@))
    } else if overflows_i64(dst.g@, src.g@) {
        Some(Fault::Internal("axis quant histogram chunk g overflow"@))
    } else if overflows_i64(dst.h@, src.h@) {
        Some(Fault::Internal("axis quant histogram chunk h overflow"@))
    } else if overflows_u32(dst.count@, src.count@) {
        Some(Fault::Internal("axis quant histogram chunk count overflow"@))
    } else {
        None
    }
}

/// Adds `b` to `a`, entry by entry; false where an entry overflows.
fn add_i64(a: &mut Vec<i64>, b: &Vec<i64>) -> (ok: bool)
    requires
        old(a)@.len() == b@.len(),
    ensures
        ok == !overflows_i64(old(a)@, b@),
        final(a)@.len() == old(a)@.len(),
        ok ==> forall|i: int|
            0 <= i < b@.len() ==> (#[trigger] final(a)@[i]) as int == old(a)@[i] + b@[i],
{
    let mut i: usize = 0;
    while i < b.len()
        invariant
            i <= b.len(),
            a@.len() == b@.len(),
            old(a)@.len() == b@.len(),
            forall|j: int| 0 <= j < i ==> (#[trigger] a@[j]) as int == old(a)@[j] + b@[j],
            forall|j: int| i <= j < b@.len() ==> #[trigger] a@[j] == old(a)@[j],
            forall|j: int|
                0 <= j < i ==> i64::MIN <= (#[trigger] old(a)@[j]) + b@[j] <= i64::MAX,
        decreases b.len() - i,
    {
        let v: i64 = a[i];
        assert(v == old(a)@[i as int]);
        match v.checked_add(b[i]) {
            Some(s) => {
                a.set(i, s);
            },
            None => {
                return false;
            },
        }
        i = i + 1;
    }
    true
}

/// Adds the sums of a chunk to those of the chunks before it.
pub fn add_axis_qhist(dst: &mut AxisQHist, src: &AxisQHist) -> (r: Result<(), PbError>)
    ensures
        answers(r, add_fault(*old(dst), *src)),
        final(dst).g@.len() == old(dst).g@.len(),
        final(dst).h@.len() == old(dst).h@.len(),
        final(dst).count@.len() == old(dst).count@.len(),
        r is Ok ==> {
            &&& forall|i: int|
                0 <= i < src.g@.len() ==> (#[trigger] final(dst).g@[i]) as int == old(dst).g@[i]
                    + src.g@[i]
            &&& forall|i: int|
                0 <= i < src.h@.len() ==> (#[trigger] final(dst).h@[i]) as int == old(dst).h@[i]
                    + src.h@[i]
            &&& forall|i: int|
                0 <= i < src.count@.len() ==> (#[trigger] final(dst).count@[i]) as int == old(
                    dst,
                ).count@[i] + src.count@[i]
        },
{
    if dst.g.len() != src.g.len() || dst.h.len() != src.h.len() || dst.count.len()
        != src.count.len() {
        return Err(internal("axis quant histogram chunk shape mismatch"));
    }
    if !add_i64(&mut dst.g, &src.g) {
        return Err(internal("axis quant histogram chunk g overflow"));
    }
    if !add_i64(&mut dst.h, &src.h) {
        return Err(internal("axis quant histogram chunk h overflow"));
    }
    let mut i: usize = 0;
    while i < src.count.len()
        invariant
            i <= src.count.len(),
            dst.g@.len() == old(dst).g@.len(),
            dst.h@.len() == old(dst).h@.len(),
            dst.count@.len() == src.count@.len(),
            old(dst).count@.len() == src.count@.len(),
            old(dst).g@.len() == src.g@.len(),
            old(dst).h@.len() == src.h@.len(),
            !overflows_i64(old(dst).g@, src.g@),
            !overflows_i64(old(dst).h@, src.h@),
            forall|j: int|
                0 <= j < src.g@.len() ==> (#[trigger] dst.g@[j]) as int == old(dst).g@[j] + src.g@[j],
            forall|j: int|
                0 <= j < src.h@.len() ==> (#[trigger] dst.h@[j]) as int == old(dst).h@[j] + src.h@[j],
            forall|j: int|
                0 <= j < i ==> (#[trigger] dst.count@[j]) as int == old(dst).count@[j] + src.count@[j],
            forall|j: int|
                i <= j < src.count@.len() ==> #[trigger] dst.count@[j] == old(dst).count@[j],
            forall|j: int|
                0 <= j < i ==> (#[trigger] old(dst).count@[j]) + src.count@[j] <= u32::MAX,
        decreases src.count.len() - i,
    {
        let v: u32 = dst.count[i];
        assert(v == old(dst).count@[i as int]);
        match v.checked_add(src.count[i]) {
            Some(s) => {
                dst.count.set(i, s);
            },
            None => {
                return Err(internal("axis quant histogram chunk count overflow"));
            },
        }
        i = i + 1;
    }
    Ok(())
}

/// A part that is not too long has the faults of its rows alone.
proof fn lemma_part_fault(
    x: AxisInput,
    rows: Seq<u32>,
    lo: int,
    hi: int,
    from: int,
    n_leaves: int,
    n_bins: int,
)
    requires
        0 <= lo <= from <= hi <= rows.len(),
        hi - lo <= u32::MAX,
    ensures
        first_fault(
            |i: int|
                row_fault(
                    x,
                    rows.subrange(lo, hi).take(i),
                    rows.subrange(lo, hi)[i],
                    n_leaves,
                    n_bins,
                ),
            from - lo,
            hi - lo,
        ) == first_fault(|i: int| range_fault(x, rows[i], n_leaves, n_bins), from, hi),
    decreases hi - from,
{
    if from < hi {
        let part = rows.subrange(lo, hi);
        lemma_part_fault(x, rows, lo, hi, from + 1, n_leaves, n_bins);
        assert(part[from - lo] == rows[from]);
        let r = rows[from];
        lemma_sum_bounds(
            x,
            part.take(from - lo),
            x.leaf_of[r as int] as int,
            x.col[r as int] as int,
        );
    }
}

/// Splitting a search for the first fault at `mid`.
proof fn lemma_fault_split(f: spec_fn(int) -> Option<Fault>, from: int, mid: int, n: int)
    requires
        from <= mid <= n,
    ensures
        first_fault(f, from, n) == (if first_fault(f, from, mid) is Some {
            first_fault(f, from, mid)
        } else {
            first_fault(f, mid, n)
        }),
    decreases mid - from,
{
    if from < mid {
        lemma_fault_split(f, from + 1, mid, n);
    }
}

/// Sums rows over one axis: one after the other when they are few, in chunks
/// that are then added in order when they are many. The result does not depend
/// on which of the two is done.
pub fn accumulate_axis_quantized(
    x: &BinnedMatrix,
    qgh: &QuantGradHess,
    rows: &Vec<u32>,
    leaf_of_row: &Vec<u8>,
    n_leaves: usize,
    axis: u32,
    max_bins: usize,
) -> (r: Result<AxisQHist, PbError>)
    ensures
        answers(
            r,
            axis_fault(
                x.data@,
                *qgh,
                rows@,
                leaf_of_row@,
                n_leaves as nat,
                axis,
                max_bins as nat,
            ),
        ),
        r is Ok ==> r->Ok_0.holds(
            axis_input(x.data@, *qgh, leaf_of_row@, axis as int),
            rows@,
            n_leaves as int,
            max_bins as int,
        ),
{
    let n: usize = rows.len();
    assert(rows@.subrange(0, n as int) =~= rows@);
    if n < ROW_PAR_MIN_ROWS {
        return accumulate_axis_quantized_sequential(
            x,
            qgh,
            rows,
            0,
            n,
            leaf_of_row,
            n_leaves,
            axis,
            max_bins,
        );
    }
    let ghost inp = axis_input(x.data@, *qgh, leaf_of_row@, axis as int);
    let ghost nl = n_leaves as int;
    let ghost nb = max_bins as int;
    let ghost f = |i: int| range_fault(inp, rows@[i], nl, nb);
    let ghost cf = |j: int|
        overflow_fault(inp, rows@.take(chunk_start(j + 1, n as int)), nl, nb);
    let ghost whole = axis_fault(
        x.data@,
        *qgh,
        rows@,
        leaf_of_row@,
        n_leaves as nat,
        axis,
        max_bins as nat,
    );
    let mut chunks: Vec<AxisQHist> = Vec::new();
    let mut start: usize = 0;
    while start < n
        invariant
            start <= n == rows@.len(),
            n >= ROW_PAR_MIN_ROWS,
            inp == axis_input(x.data@, *qgh, leaf_of_row@, axis as int),
            nl == n_leaves,
            nb == max_bins,
            f == (|i: int| range_fault(inp, rows@[i], nl, nb)),
            whole == axis_fault(
                x.data@,
                *qgh,
                rows@,
                leaf_of_row@,
                n_leaves as nat,
                axis,
                max_bins as nat,
            ),
            start as int == chunk_start(chunks@.len() as int, n as int),
            chunks@.len() * ROW_PAR_CHUNK_ROWS < n + ROW_PAR_CHUNK_ROWS,
            forall|j: int|
                0 <= j < chunks@.len() ==> (#[trigger] chunks@[j]).holds(
                    inp,
                    rows@.subrange(chunk_start(j, n as int), chunk_start(j + 1, n as int)),
                    nl,
                    nb,
                ),
            start > 0 ==> axis < x.data@.len() && shape_fault(
                n_leaves as nat,
                1,
                max_bins as nat,
            ) is None,
            first_fault(f, 0, start as int) is None,
        decreases n - start,
    {
        let end: usize = if n - start > ROW_PAR_CHUNK_ROWS {
            start + ROW_PAR_CHUNK_ROWS
        } else {
            n
        };
        let ghost part = rows@.subrange(start as int, end as int);
        proof {
            lemma_part_fault(inp, rows@, start as int, end as int, start as int, nl, nb);
            lemma_fault_split(f, 0, start as int, n as int);
            lemma_fault_split(f, start as int, end as int, n as int);
            lemma_fault_split(f, 0, start as int, end as int);
            assert(rows_fault(inp, part, nl, nb) == first_fault(f, start as int, end as int));
            assert(chunk_start(chunks@.len() as int + 1, n as int) == end);
        }
        match accumulate_axis_quantized_sequential(
            x,
            qgh,
            rows,
            start,
            end,
            leaf_of_row,
            n_leaves,
            axis,
            max_bins,
        ) {
            Ok(c) => {
                chunks.push(c);
            },
            Err(e) => {
                return Err(e);
            },
        }
        start = end;
    }
    assert(chunk_start(chunks@.len() as int, n as int) == n);
    assert(chunks@.len() == n_chunks(n as int));
    assert(whole == first_fault(cf, 0, n_chunks(n as int)));
    let size: usize = match checked_cell_count(n_leaves, 1, max_bins) {
        Ok(s) => s,
        Err(e) => return Err(e),
    };
    let mut out = AxisQHist { g: zeros_i64(size), h: zeros_i64(size), count: zeros_u32(size) };
    proof {
        assert(size == nl * nb) by (nonlinear_arith)
            requires
                size == nl * 1 * nb,
        ;
        assert forall|leaf: int, bin: int| 0 <= leaf < nl && 0 <= bin < nb implies 0 <= #[trigger] cell(
            leaf,
            0,
            bin,
            1,
            nb,
        ) < size by {
            lemma_cell_bound(leaf, 0, bin, nl, 1, nb);
        }
        assert(rows@.take(0) =~= Seq::<u32>::empty());
        assert(out.holds(inp, rows@.take(0), nl, nb));
    }
    let mut j: usize = 0;
    while j < chunks.len()
        invariant
            j <= chunks.len(),
            n == rows@.len(),
            n >= ROW_PAR_MIN_ROWS,
            nl == n_leaves,
            nb == max_bins,
            size == nl * nb,
            forall|leaf: int, bin: int|
                0 <= leaf < nl && 0 <= bin < nb ==> 0 <= #[trigger] cell(leaf, 0, bin, 1, nb) < size,
            forall|q: int|
                0 <= q < chunks@.len() ==> (#[trigger] chunks@[q]).holds(
                    inp,
                    rows@.subrange(chunk_start(q, n as int), chunk_start(q + 1, n as int)),
                    nl,
                    nb,
                ),
            out.holds(inp, rows@.take(chunk_start(j as int, n as int)), nl, nb),
            chunks@.len() == n_chunks(n as int),
            cf == (|j: int|
                overflow_fault(inp, rows@.take(chunk_start(j + 1, n as int)), nl, nb)),
            forall|q: int| 0 <= q < j ==> (#[trigger] cf(q)) is None,
            whole == first_fault(cf, 0, n_chunks(n as int)),
            whole == axis_fault(
                x.data@,
                *qgh,
                rows@,
                leaf_of_row@,
                n_leaves as nat,
                axis,
                max_bins as nat,
            ),
        decreases chunks.len() - j,
    {
        let ghost a = rows@.take(chunk_start(j as int, n as int));
        let ghost b = rows@.subrange(chunk_start(j as int, n as int), chunk_start(j + 1, n as int));
        let ghost c = rows@.take(chunk_start(j + 1, n as int));
        let ghost before = out;
        proof {
            assert(chunks@[j as int].holds(inp, b, nl, nb));
            assert(a + b =~= c);
            lemma_add_fault(before, chunks@[j as int], inp, a, b, nl, nb);
            assert(cf(j as int) == overflow_fault(inp, c, nl, nb));
            lemma_first_fault(cf, 0, j as int, n_chunks(n as int));
        }
        match add_axis_qhist(&mut out, &chunks[j]) {
            Ok(()) => {},
            Err(e) => {
                return Err(e);
            },
        }
        proof {
            assert forall|leaf: int, bin: int| 0 <= leaf < nl && 0 <= bin < nb implies {
                &&& #[trigger] out.g@[cell(leaf, 0, bin, 1, nb)] == sum_g(inp, c, leaf, bin)
                &&& out.h@[cell(leaf, 0, bin, 1, nb)] == sum_h(inp, c, leaf, bin)
                &&& out.count@[cell(leaf, 0, bin, 1, nb)] == rows_in(inp, c, leaf, bin)
            } by {
                let p = cell(leaf, 0, bin, 1, nb);
                law_sums_are_additive(inp, a, b, leaf, bin);
                assert(before.g@[p] == sum_g(inp, a, leaf, bin));
                assert(chunks@[j as int].g@[p] == sum_g(inp, b, leaf, bin));
            }
        }
        j = j + 1;
    }
    assert(rows@.take(n as int) =~= rows@);
    proof {
        lemma_first_fault(cf, 0, n_chunks(n as int), n_chunks(n as int));
    }
    Ok(out)
}

/// A position of the sums of one axis belongs to a cell.
proof fn lemma_cell_of(p: int, n_leaves: int, n_bins: int) -> (lb: (int, int))
    requires
        0 <= p < n_leaves * n_bins,
        n_bins >= 0,
    ensures
        0 <= lb.0 < n_leaves,
        0 <= lb.1 < n_bins,
        p == cell(lb.0, 0, lb.1, 1, n_bins),
{
    assert(n_bins > 0) by (nonlinear_arith)
        requires
            0 <= p < n_leaves * n_bins,
            n_bins >= 0,
    ;
    let leaf = p / n_bins;
    let bin = p % n_bins;
    assert(p == leaf * n_bins + bin && 0 <= bin < n_bins && 0 <= leaf) by (nonlinear_arith)
        requires
            n_bins > 0,
            p >= 0,
            leaf == p / n_bins,
            bin == p % n_bins,
    ;
    assert(leaf < n_leaves) by (nonlinear_arith)
        requires
            p == leaf * n_bins + bin,
            0 <= bin,
            p < n_leaves * n_bins,
            n_bins > 0,
    ;
    assert(leaf * 1 == leaf);
    (leaf, bin)
}

/// Adding a chunk fails exactly where the sums up to its end cannot be held.
proof fn lemma_add_fault(
    dst: AxisQHist,
    src: AxisQHist,
    x: AxisInput,
    a: Seq<u32>,
    b: Seq<u32>,
    n_leaves: int,
    n_bins: int,
)
    requires
        dst.holds(x, a, n_leaves, n_bins),
        src.holds(x, b, n_leaves, n_bins),
        n_leaves >= 0,
        n_bins >= 0,
    ensures
        add_fault(dst, src) == overflow_fault(x, a + b, n_leaves, n_bins),
{
    let c = a + b;
    assert forall|leaf: int, bin: int|
        #![trigger sum_g(x, c, leaf, bin)]
        #![trigger sum_h(x, c, leaf, bin)]
        #![trigger rows_in(x, c, leaf, bin)]
        0 <= leaf < n_leaves && 0 <= bin < n_bins implies ({
        let p = cell(leaf, 0, bin, 1, n_bins);
        &&& 0 <= p < dst.g@.len()
        &&& dst.g@[p] + src.g@[p] == sum_g(x, c, leaf, bin)
        &&& dst.h@[p] + src.h@[p] == sum_h(x, c, leaf, bin)
        &&& dst.count@[p] + src.count@[p] == rows_in(x, c, leaf, bin)
    }) by {
        lemma_cell_bound(leaf, 0, bin, n_leaves, 1, n_bins);
        let p = cell(leaf, 0, bin, 1, n_bins);
        assert(dst.g@[p] == sum_g(x, a, leaf, bin));
        assert(src.g@[p] == sum_g(x, b, leaf, bin));
        law_sums_are_additive(x, a, b, leaf, bin);
        assert(n_leaves * 1 * n_bins == n_leaves * n_bins);
    }
    if overflows_i64(dst.g@, src.g@) {
        let p = choose|p: int|
            0 <= p < dst.g@.len() && !(i64::MIN <= (#[trigger] dst.g@[p]) + src.g@[p] <= i64::MAX);
        let (leaf, bin) = lemma_cell_of(p, n_leaves, n_bins);
        assert(dst.g@[p] + src.g@[p] == sum_g(x, c, leaf, bin));
    }
    if exists|leaf: int, bin: int|
        0 <= leaf < n_leaves && 0 <= bin < n_bins && !(i64::MIN <= #[trigger] sum_g(
            x,
            c,
            leaf,
            bin,
        ) <= i64::MAX) {
        let (leaf, bin) = choose|leaf: int, bin: int|
            0 <= leaf < n_leaves && 0 <= bin < n_bins && !(i64::MIN <= #[trigger] sum_g(
                x,
                c,
                leaf,
                bin,
            ) <= i64::MAX);
        let p = cell(leaf, 0, bin, 1, n_bins);
        assert(dst.g@[p] + src.g@[p] == sum_g(x, c, leaf, bin));
    }
    if overflows_i64(dst.h@, src.h@) {
        let p = choose|p: int|
            0 <= p < dst.h@.len() && !(i64::MIN <= (#[trigger] dst.h@[p]) + src.h@[p] <= i64::MAX);
        let (leaf, bin) = lemma_cell_of(p, n_leaves, n_bins);
        assert(dst.g@[p] + src.g@[p] == sum_g(x, c, leaf, bin));
        assert(dst.h@[p] + src.h@[p] == sum_h(x, c, leaf, bin));
    }
    if exists|leaf: int, bin: int|
        0 <= leaf < n_leaves && 0 <= bin < n_bins && !(i64::MIN <= #[trigger] sum_h(
            x,
            c,
            leaf,
            bin,
        ) <= i64::MAX) {
        let (leaf, bin) = choose|leaf: int, bin: int|
            0 <= leaf < n_leaves && 0 <= bin < n_bins && !(i64::MIN <= #[trigger] sum_h(
                x,
                c,
                leaf,
                bin,
            ) <= i64::MAX);
        let p = cell(leaf, 0, bin, 1, n_bins);
        assert(dst.g@[p] + src.g@[p] == sum_g(x, c, leaf, bin));
        assert(dst.h@[p] + src.h@[p] == sum_h(x, c, leaf, bin));
    }
    if overflows_u32(dst.count@, src.count@) {
        let p = choose|p: int|
            0 <= p < dst.count@.len() && (#[trigger] dst.count@[p]) + src.count@[p] > u32::MAX;
        let (leaf, bin) = lemma_cell_of(p, n_leaves, n_bins);
        assert(dst.g@[p] + src.g@[p] == sum_g(x, c, leaf, bin));
        assert(dst.count@[p] + src.count@[p] == rows_in(x, c, leaf, bin));
    }
    if exists|leaf: int, bin: int|
        0 <= leaf < n_leaves && 0 <= bin < n_bins && #[trigger] rows_in(x, c, leaf, bin)
            > u32::MAX {
        let (leaf, bin) = choose|leaf: int, bin: int|
            0 <= leaf < n_leaves && 0 <= bin < n_bins && #[trigger] rows_in(x, c, leaf, bin)
                > u32::MAX;
        let p = cell(leaf, 0, bin, 1, n_bins);
        assert(dst.g@[p] + src.g@[p] == sum_g(x, c, leaf, bin));
        assert(dst.count@[p] + src.count@[p] == rows_in(x, c, leaf, bin));
    }
}

/// One more row counts in the cell of its own leaf and bin, with its own gradient
/// and curvature, and in no other.
pub proof fn law_a_row_counts_in_its_own_cell(x: AxisInput, rows: Seq<u32>, r: u32, leaf: int, bin: int)
    ensures
        ({
            let here = x.leaf_of[r as int] as int == leaf && x.col[r as int] as int == bin;
            &&& sum_g(x, rows.push(r), leaf, bin) == sum_g(x, rows, leaf, bin) + (if here {
                x.g[r as int] as int
            } else {
                0
            })
            &&& sum_h(x, rows.push(r), leaf, bin) == sum_h(x, rows, leaf, bin) + (if here {
                x.h[r as int] as int
            } else {
                0
            })
            &&& rows_in(x, rows.push(r), leaf, bin) == rows_in(x, rows, leaf, bin) + (if here {
                1int
            } else {
                0int
            })
        }),
        sum_g(x, Seq::empty(), leaf, bin) == 0,
        sum_h(x, Seq::empty(), leaf, bin) == 0,
        rows_in(x, Seq::empty(), leaf, bin) == 0,
{
    assert(rows.push(r).drop_last() =~= rows);
}

/// A cell counts the rows of its leaf and bin.
pub proof fn law_cells_count_their_rows(x: AxisInput, rows: Seq<u32>, leaf: int, bin: int)
    ensures
        rows_in(x, rows, leaf, bin) == rows.filter(
            |r: u32| x.leaf_of[r as int] as int == leaf && x.col[r as int] as int == bin,
        ).len(),
    decreases rows.len(),
{
    reveal(Seq::filter);
    if rows.len() > 0 {
        law_cells_count_their_rows(x, rows.drop_last(), leaf, bin);
    }
}

/// Chunks are added exactly when they have one shape and every sum fits.
pub proof fn law_added_chunks_fit(dst: AxisQHist, src: AxisQHist)
    ensures
        add_fault(dst, src) is None <==> {
            &&& dst.g@.len() == src.g@.len()
            &&& dst.h@.len() == src.h@.len()
            &&& dst.count@.len() == src.count@.len()
            &&& forall|i: int|
                0 <= i < dst.g@.len() ==> -0x8000_0000_0000_0000 <= (#[trigger] dst.g@[i]) + src.g@[i]
                    <= 0x7fff_ffff_ffff_ffff
            &&& forall|i: int|
                0 <= i < dst.h@.len() ==> -0x8000_0000_0000_0000 <= (#[trigger] dst.h@[i]) + src.h@[i]
                    <= 0x7fff_ffff_ffff_ffff
            &&& forall|i: int|
                0 <= i < dst.count@.len() ==> (#[trigger] dst.count@[i]) + src.count@[i] <= 0xffff_ffff
        },
{
}

} // verus!
