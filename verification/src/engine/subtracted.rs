//! Building the histogram of a level from that of the level above: only the
//! smaller child of each node is summed, the larger one is had by subtraction.
use crate::data::BinnedMatrix;
use crate::engine::hist::{
    axis_input, lemma_sum_bounds, rows_in, sum_g, sum_h, AxisInput, Hist, QuantGradHess,
};
use crate::engine::level_hist::{
    build_fault, build_quantized_histogram, cell_holds, hist_holds, max_bins_of,
};
use crate::engine::sibling::{
    cell_kept, is_rest, pairs_disjoint, sib_axis_fault, sib_cell_fault,
    same_shape, sib_pair_fault, sibling_fault, subtract_sibling_into, Pair,
};
use crate::error::{answers, first_fault, internal, lemma_all_none, lemma_first_fault, Fault, PbError};
use vstd::arithmetic::power2::*;
use vstd::prelude::*;

verus! {

/// The number of rows in a leaf.
pub open spec fn rows_at(leaf_of: Seq<u8>, rows: Seq<u32>, leaf: int) -> nat
    decreases rows.len(),
{
    if rows.len() == 0 {
        0
    } else {
        rows_at(leaf_of, rows.drop_last(), leaf) + if leaf_of[rows.last() as int] as int == leaf {
            1nat
        } else {
            0nat
        }
    }
}

/// The rows of the bins of a leaf, up to `n` bins.
pub open spec fn rows_over_bins(x: AxisInput, rows: Seq<u32>, leaf: int, n: nat) -> nat
    decreases n,
{
    if n == 0 {
        0
    } else {
        rows_over_bins(x, rows, leaf, (n - 1) as nat) + rows_in(x, rows, leaf, n - 1)
    }
}

/// The rows of the first `n` leaves.
pub open spec fn rows_over_leaves(leaf_of: Seq<u8>, rows: Seq<u32>, n: nat) -> nat
    decreases n,
{
    if n == 0 {
        0
    } else {
        rows_over_leaves(leaf_of, rows, (n - 1) as nat) + rows_at(leaf_of, rows, n - 1)
    }
}

proof fn lemma_bins_step(x: AxisInput, rows: Seq<u32>, leaf: int, n: nat)
    requires
        rows.len() > 0,
    ensures
        rows_over_bins(x, rows, leaf, n) == rows_over_bins(x, rows.drop_last(), leaf, n) + (
        if x.leaf_of[rows.last() as int] as int == leaf && (x.col[rows.last() as int] as int) < n {
            1nat
        } else {
            0nat
        }),
    decreases n,
{
    if n > 0 {
        lemma_bins_step(x, rows, leaf, (n - 1) as nat);
    }
}

/// The counts of the bins of a leaf add up to the rows of the leaf, and those of
/// the leaves to all rows: a histogram loses no row and counts none twice.
pub proof fn law_counts_add_up(x: AxisInput, rows: Seq<u32>, leaf: int, n_leaves: nat, n_bins: nat)
    requires
        forall|i: int|
            0 <= i < rows.len() ==> x.col[(#[trigger] rows[i]) as int] < n_bins
                && x.leaf_of[rows[i] as int] < n_leaves,
    ensures
        rows_over_bins(x, rows, leaf, n_bins) == rows_at(x.leaf_of, rows, leaf),
        rows_over_leaves(x.leaf_of, rows, n_leaves) == rows.len(),
    decreases rows.len(),
{
    if rows.len() == 0 {
        lemma_no_rows(x, rows, leaf, n_leaves, n_bins);
    } else {
        let rest = rows.drop_last();
        assert forall|i: int| 0 <= i < rest.len() implies x.col[(#[trigger] rest[i]) as int] < n_bins
            && x.leaf_of[rest[i] as int] < n_leaves by {
            assert(rest[i] == rows[i]);
        }
        law_counts_add_up(x, rest, leaf, n_leaves, n_bins);
        assert(rows[rows.len() - 1] == rows.last());
        lemma_bins_step(x, rows, leaf, n_bins);
        lemma_leaves_step(x.leaf_of, rows, n_leaves);
    }
}

proof fn lemma_no_rows(x: AxisInput, rows: Seq<u32>, leaf: int, n_leaves: nat, n_bins: nat)
    requires
        rows.len() == 0,
    ensures
        rows_over_bins(x, rows, leaf, n_bins) == 0,
        rows_over_leaves(x.leaf_of, rows, n_leaves) == 0,
    decreases n_leaves + n_bins,
{
    if n_bins > 0 {
        lemma_no_rows(x, rows, leaf, n_leaves, (n_bins - 1) as nat);
    }
    if n_leaves > 0 {
        lemma_no_rows(x, rows, leaf, (n_leaves - 1) as nat, n_bins);
    }
}

proof fn lemma_leaves_step(leaf_of: Seq<u8>, rows: Seq<u32>, n: nat)
    requires
        rows.len() > 0,
    ensures
        rows_over_leaves(leaf_of, rows, n) == rows_over_leaves(leaf_of, rows.drop_last(), n) + (
        if (leaf_of[rows.last() as int] as int) < n {
            1nat
        } else {
            0nat
        }),
    decreases n,
{
    if n > 0 {
        lemma_leaves_step(leaf_of, rows, (n - 1) as nat);
    }
}

/// The leaf of each row one level up: a node `p` has the children `p` and
/// `p + half`.
pub open spec fn parent_map(leaf_of: Seq<u8>, half: int) -> Seq<u8> {
    leaf_of.map_values(|l: u8| (l as int % half) as u8)
}

/// The same input with the leaves of the level above.
pub open spec fn parent_input(x: AxisInput, half: int) -> AxisInput {
    AxisInput { col: x.col, leaf_of: parent_map(x.leaf_of, half), g: x.g, h: x.h }
}

/// The sums of two children add up to those of their parent.
pub proof fn law_children_sum_to_parent(
    x: AxisInput,
    rows: Seq<u32>,
    half: int,
    p: int,
    bin: int,
)
    requires
        0 <= p < half <= 128,
        forall|i: int|
            0 <= i < rows.len() ==> (#[trigger] rows[i]) < x.leaf_of.len() && x.leaf_of[rows[i] as int]
                < 2 * half,
    ensures
        sum_g(parent_input(x, half), rows, p, bin) == sum_g(x, rows, p, bin) + sum_g(
            x,
            rows,
            p + half,
            bin,
        ),
        sum_h(parent_input(x, half), rows, p, bin) == sum_h(x, rows, p, bin) + sum_h(
            x,
            rows,
            p + half,
            bin,
        ),
        rows_in(parent_input(x, half), rows, p, bin) == rows_in(x, rows, p, bin) + rows_in(
            x,
            rows,
            p + half,
            bin,
        ),
    decreases rows.len(),
{
    if rows.len() > 0 {
        let rest = rows.drop_last();
        assert forall|i: int| 0 <= i < rest.len() implies (#[trigger] rest[i]) < x.leaf_of.len()
            && x.leaf_of[rest[i] as int] < 2 * half by {
            assert(rest[i] == rows[i]);
        }
        law_children_sum_to_parent(x, rest, half, p, bin);
        let r = rows.last();
        assert(rows[rows.len() - 1] == r);
        let l = x.leaf_of[r as int] as int;
        assert(parent_map(x.leaf_of, half)[r as int] as int == l % half);
        if l < half {
            vstd::arithmetic::div_mod::lemma_small_mod(l as nat, half as nat);
        } else {
            vstd::arithmetic::div_mod::lemma_fundamental_div_mod_converse(l, half, 1, l - half);
        }
    }
}

/// Whether a leaf is the smaller child of its node; a tie makes it the lower one.
pub open spec fn is_smaller(leaf_of: Seq<u8>, rows: Seq<u32>, half: int, l: int) -> bool {
    if l < half {
        rows_at(leaf_of, rows, l) <= rows_at(leaf_of, rows, l + half)
    } else {
        rows_at(leaf_of, rows, l) < rows_at(leaf_of, rows, l - half)
    }
}

/// The rows of the first `n` that lie in smaller children.
pub open spec fn small_rows(leaf_of: Seq<u8>, rows: Seq<u32>, half: int, n: nat) -> Seq<u32>
    decreases n,
{
    if n == 0 {
        Seq::empty()
    } else {
        let before = small_rows(leaf_of, rows, half, (n - 1) as nat);
        if is_smaller(leaf_of, rows, half, leaf_of[rows[n - 1] as int] as int) {
            before.push(rows[n - 1])
        } else {
            before
        }
    }
}

/// Leaving out the rows of larger children changes nothing in the smaller ones.
proof fn lemma_small_rows(x: AxisInput, rows: Seq<u32>, half: int, n: nat, leaf: int, bin: int)
    requires
        n <= rows.len(),
        is_smaller(x.leaf_of, rows, half, leaf),
    ensures
        sum_g(x, small_rows(x.leaf_of, rows, half, n), leaf, bin) == sum_g(
            x,
            rows.take(n as int),
            leaf,
            bin,
        ),
        sum_h(x, small_rows(x.leaf_of, rows, half, n), leaf, bin) == sum_h(
            x,
            rows.take(n as int),
            leaf,
            bin,
        ),
        rows_in(x, small_rows(x.leaf_of, rows, half, n), leaf, bin) == rows_in(
            x,
            rows.take(n as int),
            leaf,
            bin,
        ),
        small_rows(x.leaf_of, rows, half, n).len() <= n,
    decreases n,
{
    if n > 0 {
        lemma_small_rows(x, rows, half, (n - 1) as nat, leaf, bin);
        let now = rows.take(n as int);
        assert(now.drop_last() =~= rows.take(n - 1));
        assert(now.last() == rows[n - 1]);
        let before = small_rows(x.leaf_of, rows, half, (n - 1) as nat);
        let after = small_rows(x.leaf_of, rows, half, n);
        if is_smaller(x.leaf_of, rows, half, x.leaf_of[rows[n - 1] as int] as int) {
            assert(after.drop_last() =~= before);
            assert(after.last() == rows[n - 1]);
        }
    } else {
        assert(rows.take(0) =~= Seq::<u32>::empty());
    }
}

proof fn lemma_small_rows_members(leaf_of: Seq<u8>, rows: Seq<u32>, half: int, n: nat)
    requires
        n <= rows.len(),
    ensures
        small_rows(leaf_of, rows, half, n).len() <= n,
    decreases n,
{
    if n > 0 {
        lemma_small_rows_members(leaf_of, rows, half, (n - 1) as nat);
    }
}

/// Why a row has no leaf at this level.
pub open spec fn leaf_fault(leaf_of: Seq<u8>, rows: Seq<u32>, n_leaves: int, i: int) -> Option<Fault> {
    if rows[i] >= leaf_of.len() {
        Some(Fault::Internal("subtraction leaf_of_row row"@))
    } else if leaf_of[rows[i] as int] >= n_leaves {
        Some(Fault::Internal("subtraction child_count leaf"@))
    } else {
        None
    }
}

/// Why an axis was not summed at the level above.
pub open spec fn axis_absent(admissible: Seq<u32>, above: Seq<u32>, i: int) -> Option<Fault> {
    if above.contains(admissible[i]) {
        None
    } else {
        Some(Fault::Internal("subtraction axis absent from parent admissible"@))
    }
}

/// Why the histogram of a level cannot be had by subtraction.
pub open spec fn subtracted_fault(
    x: BinnedMatrix,
    q: QuantGradHess,
    rows: Seq<u32>,
    leaf_of_row: Seq<u8>,
    half: nat,
    admissible: Seq<u32>,
    above: Seq<u32>,
) -> Option<Fault> {
    let leaves = first_fault(
        |i: int| leaf_fault(leaf_of_row, rows, 2 * half as int, i),
        0,
        rows.len() as int,
    );
    let built = build_fault(
        x,
        q,
        small_rows(leaf_of_row, rows, half as int, rows.len()),
        leaf_of_row,
        2 * half,
        admissible,
    );
    if leaves is Some {
        leaves
    } else if built is Some {
        built
    } else {
        first_fault(|i: int| axis_absent(admissible, above, i), 0, admissible.len() as int)
    }
}

/// The children of each node, the smaller one first.
pub open spec fn pairs(leaf_of: Seq<u8>, rows: Seq<u32>, half: nat) -> Seq<Pair> {
    Seq::new(
        half,
        |p: int|
            if is_smaller(leaf_of, rows, half as int, p) {
                (p as usize, p as usize, (p + half) as usize)
            } else {
                (p as usize, (p + half) as usize, p as usize)
            },
    )
}

/// Where an axis first stands in a list, or the list's length.
pub open spec fn place_of(list: Seq<u32>, a: u32, from: int) -> int
    decreases list.len() - from,
{
    if from >= list.len() {
        list.len() as int
    } else if list[from] == a {
        from
    } else {
        place_of(list, a, from + 1)
    }
}

/// The places of the axes of a level in the level above.
pub open spec fn places(admissible: Seq<u32>, above: Seq<u32>) -> Seq<usize> {
    Seq::new(admissible.len(), |i: int| place_of(above, admissible[i], 0) as usize)
}

/// Whether a histogram holds the smaller children alone.
pub open spec fn holds_smaller(
    child: Hist,
    x: BinnedMatrix,
    q: QuantGradHess,
    rows: Seq<u32>,
    leaf_of_row: Seq<u8>,
    half: nat,
    admissible: Seq<u32>,
) -> bool {
    &&& child.n_leaves == 2 * half
    &&& child.n_bins == max_bins_of(x.grids@, admissible, admissible.len())
    &&& hist_holds(
        child,
        x.data@,
        q,
        leaf_of_row,
        small_rows(leaf_of_row, rows, half as int, rows.len()),
        admissible,
    )
}

/// Whether the larger children were filled in: each is the rest of its node, and
/// all else is as it was.
pub open spec fn is_filled(
    after: Hist,
    child: Hist,
    parent: Hist,
    pairing: Seq<Pair>,
    axis_map: Seq<usize>,
) -> bool {
    &&& after.wf()
    &&& same_shape(after, child)
    &&& forall|l: int, a: int, b: int|
        child.within(l, a, b) && (forall|i: int|
            0 <= i < pairing.len() ==> (#[trigger] pairing[i]).2 != l) ==> #[trigger] cell_kept(
            after,
            child,
            l,
            a,
            b,
        )
    &&& forall|i: int, a: int, b: int|
        0 <= i < pairing.len() && 0 <= a < axis_map.len() && 0 <= b < child.n_bins
            ==> #[trigger] is_rest(after, child, parent, pairing[i], axis_map[a] as int, a, b)
}

/// Whether the histogram of the level above is usable: it holds the sums over
/// the same rows, and is wide enough.
pub open spec fn usable_parent(
    parent: Hist,
    x: BinnedMatrix,
    q: QuantGradHess,
    rows: Seq<u32>,
    leaf_of_row: Seq<u8>,
    half: int,
    admissible: Seq<u32>,
    above: Seq<u32>,
) -> bool {
    &&& parent.n_leaves == half
    &&& hist_holds(parent, x.data@, q, parent_map(leaf_of_row, half), rows, above)
    &&& max_bins_of(x.grids@, admissible, admissible.len()) <= parent.n_bins
}

/// Two to the power of a level.
pub fn leaves_at(level: usize) -> (n: usize)
    requires
        level <= 8,
    ensures
        n == pow2(level as nat),
        1 <= n <= 256,
{
    let mut n: usize = 1;
    let mut k: usize = 0;
    proof {
        lemma2_to64();
    }
    while k < level
        invariant
            k <= level <= 8,
            n == pow2(k as nat),
            1 <= n <= 256,
            k < 8 ==> n <= 128,
        decreases level - k,
    {
        proof {
            lemma_pow2_unfold((k + 1) as nat);
            lemma2_to64();
            assert(pow2((k + 1) as nat) <= 256) by {
                if k + 1 < 8 {
                    lemma_pow2_strictly_increases((k + 1) as nat, 8);
                }
            }
            if k + 1 < 8 {
                assert(pow2((k + 1) as nat) <= 128) by {
                    if k + 1 < 7 {
                        lemma_pow2_strictly_increases((k + 1) as nat, 7);
                    }
                }
            }
        }
        n = n * 2;
        k = k + 1;
    }
    n
}

/// The position of an axis in a list.
fn position_of(list: &Vec<u32>, a: u32) -> (r: Option<usize>)
    ensures
        r is Some <==> list@.contains(a),
        r is Some ==> r->0 < list@.len() && list@[r->0 as int] == a && r->0 == place_of(
            list@,
            a,
            0,
        ),
{
    let mut i: usize = 0;
    while i < list.len()
        invariant
            i <= list.len(),
            forall|j: int| 0 <= j < i ==> list@[j] != a,
            place_of(list@, a, 0) == place_of(list@, a, i as int),
        decreases list.len() - i,
    {
        if list[i] == a {
            assert(list@[i as int] == a);
            return Some(i);
        }
        i = i + 1;
    }
    None
}

/// Under a usable parent the subtraction itself cannot fail.
proof fn lemma_no_sibling_fault(
    child: Hist,
    parent: Hist,
    x: BinnedMatrix,
    q: QuantGradHess,
    rows: Seq<u32>,
    leaf_of_row: Seq<u8>,
    half: int,
    admissible: Seq<u32>,
    above: Seq<u32>,
    pairing: Seq<Pair>,
    axis_map: Seq<usize>,
)
    requires
        0 < half <= 128,
        usable_parent(parent, x, q, rows, leaf_of_row, half, admissible, above),
        hist_holds(
            child,
            x.data@,
            q,
            leaf_of_row,
            small_rows(leaf_of_row, rows, half, rows.len()),
            admissible,
        ),
        child.n_leaves == 2 * half,
        child.n_bins == max_bins_of(x.grids@, admissible, admissible.len()),
        axis_map.len() == admissible.len(),
        forall|a: int|
            0 <= a < axis_map.len() ==> (#[trigger] axis_map[a]) < above.len() && above[axis_map[a] as int]
                == admissible[a],
        forall|i: int|
            0 <= i < rows.len() ==> (#[trigger] rows[i]) < leaf_of_row.len()
                && leaf_of_row[rows[i] as int] < 2 * half,
        forall|i: int|
            0 <= i < pairing.len() ==> {
                let pr = #[trigger] pairing[i];
                &&& pr.0 < half
                &&& pr.1 < 2 * half && pr.2 < 2 * half
                &&& (pr.1 == pr.0 && pr.2 == pr.0 + half) || (pr.1 == pr.0 + half && pr.2 == pr.0)
                &&& is_smaller(leaf_of_row, rows, half, pr.1 as int)
            },
    ensures
        sibling_fault(child, parent, pairing, axis_map) is None,
{
    let f = |i: int| sib_pair_fault(child, parent, pairing[i], axis_map);
    assert forall|i: int| 0 <= i < pairing.len() implies (#[trigger] f(i)) is None by {
        let pr = pairing[i];
        let g = |a2: int| sib_axis_fault(child, parent, pr, axis_map, a2);
        assert forall|a2: int| 0 <= a2 < axis_map.len() implies (#[trigger] g(a2)) is None by {
            let a1 = axis_map[a2] as int;
            let h = |b: int| sib_cell_fault(child, parent, pr, a1, a2, b);
            assert forall|b: int| 0 <= b < child.n_bins implies (#[trigger] h(b)) is None by {
                let inp = axis_input(x.data@, q, leaf_of_row, admissible[a2] as int);
                let up = axis_input(
                    x.data@,
                    q,
                    parent_map(leaf_of_row, half),
                    above[a1] as int,
                );
                assert(up == parent_input(inp, half));
                assert(parent.within(pr.0 as int, a1, b));
                assert(cell_holds(
                    parent,
                    x.data@,
                    q,
                    parent_map(leaf_of_row, half),
                    rows,
                    above[a1],
                    pr.0 as int,
                    a1,
                    b,
                ));
                assert(child.within(pr.1 as int, a2, b));
                assert(cell_holds(
                    child,
                    x.data@,
                    q,
                    leaf_of_row,
                    small_rows(leaf_of_row, rows, half, rows.len()),
                    admissible[a2],
                    pr.1 as int,
                    a2,
                    b,
                ));
                lemma_small_rows(inp, rows, half, rows.len(), pr.1 as int, b);
                assert(rows.take(rows.len() as int) =~= rows);
                law_children_sum_to_parent(inp, rows, half, pr.0 as int, b);
            }
            lemma_first_fault(h, 0, child.n_bins as int, child.n_bins as int);
        }
        lemma_first_fault(g, 0, axis_map.len() as int, axis_map.len() as int);
    }
    lemma_first_fault(f, 0, pairing.len() as int, pairing.len() as int);
}

proof fn lemma_rows_have_leaves(leaf_of: Seq<u8>, rows: Seq<u32>, n_leaves: int)
    requires
        first_fault(|i: int| leaf_fault(leaf_of, rows, n_leaves, i), 0, rows.len() as int) is None,
    ensures
        forall|i: int|
            0 <= i < rows.len() ==> (#[trigger] rows[i]) < leaf_of.len() && leaf_of[rows[i] as int]
                < n_leaves,
{
    let f = |i: int| leaf_fault(leaf_of, rows, n_leaves, i);
    assert forall|i: int| 0 <= i < rows.len() implies (#[trigger] rows[i]) < leaf_of.len()
        && leaf_of[rows[i] as int] < n_leaves by {
        lemma_all_none(f, 0, rows.len() as int);
        assert(f(i) is None);
    }
}

/// The pairs of a level: each child once, the smaller one read and the larger one
/// filled.
proof fn lemma_pairs(leaf_of: Seq<u8>, rows: Seq<u32>, half: nat)
    requires
        half <= 128,
    ensures
        pairs_disjoint(pairs(leaf_of, rows, half)),
        forall|i: int|
            0 <= i < half ==> {
                let pr = #[trigger] pairs(leaf_of, rows, half)[i];
                &&& pr.0 == i
                &&& pr.1 < 2 * half && pr.2 < 2 * half
                &&& (pr.1 == pr.0 && pr.2 == pr.0 + half) || (pr.1 == pr.0 + half && pr.2 == pr.0)
                &&& is_smaller(leaf_of, rows, half as int, pr.1 as int)
            },
{
    let ps = pairs(leaf_of, rows, half);
    assert forall|i: int, j: int| 0 <= i < ps.len() && 0 <= j < ps.len() implies (
    #[trigger] ps[i]).2 != (#[trigger] ps[j]).1 by {
        assert(ps[i].0 == i && ps[j].0 == j);
    }
    assert forall|i: int, j: int| 0 <= i < j < ps.len() implies (#[trigger] ps[i]).2 != (
    #[trigger] ps[j]).2 by {
        assert(ps[i].0 == i && ps[j].0 == j);
    }
}

/// Over a usable parent, filling in the larger children completes the level.
proof fn lemma_filled_is_full(
    hist: Hist,
    child: Hist,
    parent: Hist,
    x: BinnedMatrix,
    q: QuantGradHess,
    rows: Seq<u32>,
    leaf_of_row: Seq<u8>,
    half: nat,
    admissible: Seq<u32>,
    above: Seq<u32>,
    axis_map: Seq<usize>,
)
    requires
        0 < half <= 128,
        usable_parent(parent, x, q, rows, leaf_of_row, half as int, admissible, above),
        holds_smaller(child, x, q, rows, leaf_of_row, half, admissible),
        is_filled(hist, child, parent, pairs(leaf_of_row, rows, half), axis_map),
        axis_map.len() == admissible.len(),
        forall|a: int|
            0 <= a < axis_map.len() ==> (#[trigger] axis_map[a]) < above.len() && above[axis_map[a] as int]
                == admissible[a],
        forall|i: int|
            0 <= i < rows.len() ==> (#[trigger] rows[i]) < leaf_of_row.len()
                && leaf_of_row[rows[i] as int] < 2 * half,
    ensures
        hist_holds(hist, x.data@, q, leaf_of_row, rows, admissible),
{
    let pairing = pairs(leaf_of_row, rows, half);
    let small = small_rows(leaf_of_row, rows, half as int, rows.len());
    lemma_pairs(leaf_of_row, rows, half);
    assert forall|leaf: int, b: int, bin: int| hist.within(leaf, b, bin) implies #[trigger] cell_holds(
        hist,
        x.data@,
        q,
        leaf_of_row,
        rows,
        admissible[b],
        leaf,
        b,
        bin,
    ) by {
        let inp = axis_input(x.data@, q, leaf_of_row, admissible[b] as int);
        let h = half as int;
        let node = if leaf < h {
            leaf
        } else {
            leaf - h
        };
        let pr = pairing[node];
        assert(pr.0 == node);
        assert(rows.take(rows.len() as int) =~= rows);
        lemma_small_rows(inp, rows, h, rows.len(), pr.1 as int, bin);
        assert(child.within(pr.1 as int, b, bin));
        assert(cell_holds(
            child,
            x.data@,
            q,
            leaf_of_row,
            small,
            admissible[b],
            pr.1 as int,
            b,
            bin,
        ));
        if leaf == pr.1 {
            assert forall|j: int| 0 <= j < pairing.len() implies (#[trigger] pairing[j]).2
                != leaf by {
                assert(pairing[j].2 != pairing[node].1);
            }
            assert(cell_kept(hist, child, leaf, b, bin));
        } else {
            assert(leaf == pr.2);
            let a1 = axis_map[b] as int;
            assert(is_rest(hist, child, parent, pr, a1, b, bin));
            let up = axis_input(x.data@, q, parent_map(leaf_of_row, h), above[a1] as int);
            assert(up == parent_input(inp, h));
            assert(parent.within(node, a1, bin));
            assert(cell_holds(
                parent,
                x.data@,
                q,
                parent_map(leaf_of_row, h),
                rows,
                above[a1],
                node,
                a1,
                bin,
            ));
            law_children_sum_to_parent(inp, rows, h, node, bin);
            lemma_sum_bounds(inp, rows, leaf, bin);
            assert(hist.g@[child.pos(leaf, b, bin)] == sum_g(inp, rows, leaf, bin));
        }
    }
}

/// How a level is had from the one above: the children of each node, and the
/// rows of the smaller ones.
pub struct SubtractionPlan {
    /// Each node with its smaller and its larger child.
    pub pairing: Vec<Pair>,
    /// The rows of the smaller children, in their order.
    pub small: Vec<u32>,
}

/// Pairs the children of a level and keeps the rows of the smaller ones.
pub fn plan_subtraction(rows: &Vec<u32>, leaf_of_row: &Vec<u8>, level: usize) -> (r: Result<
    SubtractionPlan,
    PbError,
>)
    requires
        1 <= level <= 8,
    ensures
        answers(
            r,
            first_fault(
                |i: int| leaf_fault(leaf_of_row@, rows@, 2 * pow2((level - 1) as nat) as int, i),
                0,
                rows@.len() as int,
            ),
        ),
        r is Ok ==> {
            let half = pow2((level - 1) as nat);
            &&& r->Ok_0.pairing@ == pairs(leaf_of_row@, rows@, half)
            &&& r->Ok_0.small@ == small_rows(leaf_of_row@, rows@, half as int, rows@.len())
        },
{
    let half: usize = leaves_at(level - 1);
    proof {
        lemma_pow2_unfold(level as nat);
        lemma2_to64();
        if level - 1 < 7 {
            lemma_pow2_strictly_increases((level - 1) as nat, 7);
        }
        assert(half <= 128);
    }
    let n_leaves: usize = half * 2;
    let ghost lf = |i: int| leaf_fault(leaf_of_row@, rows@, n_leaves as int, i);
    let ghost n = rows@.len();
    let mut child_count: Vec<u64> = Vec::with_capacity(n_leaves);
    let mut z: usize = 0;
    while z < n_leaves
        invariant
            z <= n_leaves,
            child_count@.len() == z,
            forall|l: int| 0 <= l < z ==> child_count@[l] == 0,
        decreases n_leaves - z,
    {
        child_count.push(0);
        z = z + 1;
    }
    let mut i: usize = 0;
    assert(rows@.take(0) =~= Seq::<u32>::empty());
    while i < rows.len()
        invariant
            i <= rows.len(),
            n == rows@.len(),
            child_count@.len() == n_leaves,
            lf == (|i: int| leaf_fault(leaf_of_row@, rows@, n_leaves as int, i)),
            n_leaves == 2 * half,
            half == pow2((level - 1) as nat),
            forall|j: int| 0 <= j < i ==> (#[trigger] lf(j)) is None,
            forall|l: int|
                0 <= l < n_leaves ==> #[trigger] child_count@[l] == rows_at(
                    leaf_of_row@,
                    rows@.take(i as int),
                    l,
                ),
        decreases rows.len() - i,
    {
        proof {
            lemma_first_fault(lf, 0, i as int, n as int);
        }
        let row: u32 = rows[i];
        if row as usize >= leaf_of_row.len() {
            assert(lf(i as int) is Some);
            return Err(internal("subtraction leaf_of_row row"));
        }
        let leaf: usize = leaf_of_row[row as usize] as usize;
        if leaf >= n_leaves {
            assert(lf(i as int) is Some);
            return Err(internal("subtraction child_count leaf"));
        }
        assert(lf(i as int) is None);
        let ghost before = child_count@;
        proof {
            lemma_rows_at_bound(leaf_of_row@, rows@.take(i as int), leaf as int);
            assert(rows@.take(i + 1).drop_last() =~= rows@.take(i as int));
            assert(before[leaf as int] == rows_at(leaf_of_row@, rows@.take(i as int), leaf as int));
        }
        let c: u64 = child_count[leaf];
        child_count.set(leaf, c + 1);
        proof {
            assert forall|l: int| 0 <= l < n_leaves implies #[trigger] child_count@[l] == rows_at(
                leaf_of_row@,
                rows@.take(i + 1),
                l,
            ) by {
                assert(before[l] == rows_at(leaf_of_row@, rows@.take(i as int), l));
            }
        }
        i = i + 1;
    }
    proof {
        lemma_first_fault(lf, 0, n as int, n as int);
        assert(rows@.take(n as int) =~= rows@);
    }
    let mut pairing: Vec<Pair> = Vec::with_capacity(half);
    let mut smaller: Vec<bool> = Vec::with_capacity(n_leaves);
    let mut w: usize = 0;
    while w < n_leaves
        invariant
            w <= n_leaves,
            n_leaves == 2 * half,
            half <= 128,
            child_count@.len() == n_leaves,
            forall|l: int|
                0 <= l < n_leaves ==> #[trigger] child_count@[l] == rows_at(leaf_of_row@, rows@, l),
            smaller@.len() == w,
            forall|l: int|
                0 <= l < w ==> #[trigger] smaller@[l] == is_smaller(
                    leaf_of_row@,
                    rows@,
                    half as int,
                    l,
                ),
        decreases n_leaves - w,
    {
        let s: bool = if w < half {
            child_count[w] <= child_count[w + half]
        } else {
            child_count[w] < child_count[w - half]
        };
        smaller.push(s);
        w = w + 1;
    }
    let mut p: usize = 0;
    while p < half
        invariant
            p <= half <= 128,
            n_leaves == 2 * half,
            smaller@.len() == n_leaves,
            forall|l: int|
                0 <= l < n_leaves ==> #[trigger] smaller@[l] == is_smaller(
                    leaf_of_row@,
                    rows@,
                    half as int,
                    l,
                ),
            pairing@.len() == p,
            forall|j: int|
                0 <= j < p ==> {
                    let pr = #[trigger] pairing@[j];
                    &&& pr.0 == j
                    &&& pr.1 < n_leaves && pr.2 < n_leaves
                    &&& (pr.1 == pr.0 && pr.2 == pr.0 + half) || (pr.1 == pr.0 + half && pr.2
                        == pr.0)
                    &&& is_smaller(leaf_of_row@, rows@, half as int, pr.1 as int)
                },
        decreases half - p,
    {
        assert(smaller@[p as int] == is_smaller(leaf_of_row@, rows@, half as int, p as int));
        assert(smaller@[p + half] == is_smaller(leaf_of_row@, rows@, half as int, p + half));
        let pr: Pair = if smaller[p] {
            (p, p, p + half)
        } else {
            (p, p + half, p)
        };
        pairing.push(pr);
        p = p + 1;
    }
    let mut small: Vec<u32> = Vec::new();
    let mut k: usize = 0;
    while k < rows.len()
        invariant
            k <= rows.len(),
            n == rows@.len(),
            n_leaves == 2 * half,
            smaller@.len() == n_leaves,
            lf == (|i: int| leaf_fault(leaf_of_row@, rows@, n_leaves as int, i)),
            forall|j: int| 0 <= j < n ==> (#[trigger] lf(j)) is None,
            forall|l: int|
                0 <= l < n_leaves ==> #[trigger] smaller@[l] == is_smaller(
                    leaf_of_row@,
                    rows@,
                    half as int,
                    l,
                ),
            small@ == small_rows(leaf_of_row@, rows@, half as int, k as nat),
        decreases rows.len() - k,
    {
        assert(lf(k as int) is None);
        let row: u32 = rows[k];
        let leaf: usize = leaf_of_row[row as usize] as usize;
        if smaller[leaf] {
            small.push(row);
        }
        k = k + 1;
    }
    assert(pairing@ =~= pairs(leaf_of_row@, rows@, half as nat));
    Ok(SubtractionPlan { pairing, small })
}

/// Finds the axes of a level among those of the level above.
pub fn map_axes(admissible: &Vec<u32>, above: &Vec<u32>) -> (r: Result<Vec<usize>, PbError>)
    ensures
        answers(
            r,
            first_fault(|i: int| axis_absent(admissible@, above@, i), 0, admissible@.len() as int),
        ),
        r is Ok ==> r->Ok_0@ == places(admissible@, above@),
        r is Ok ==> forall|i: int|
            0 <= i < admissible@.len() ==> (#[trigger] r->Ok_0@[i]) < above@.len()
                && above@[r->Ok_0@[i] as int] == admissible@[i],
{
    let ghost absent = |i: int| axis_absent(admissible@, above@, i);
    let mut axis_map: Vec<usize> = Vec::with_capacity(admissible.len());
    let mut a: usize = 0;
    while a < admissible.len()
        invariant
            a <= admissible.len(),
            absent == (|i: int| axis_absent(admissible@, above@, i)),
            forall|j: int| 0 <= j < a ==> (#[trigger] absent(j)) is None,
            axis_map@.len() == a,
            forall|j: int|
                0 <= j < a ==> (#[trigger] axis_map@[j]) < above@.len()
                    && above@[axis_map@[j] as int] == admissible@[j] && axis_map@[j] == place_of(
                    above@,
                    admissible@[j],
                    0,
                ),
        decreases admissible.len() - a,
    {
        proof {
            lemma_first_fault(absent, 0, a as int, admissible@.len() as int);
        }
        match position_of(above, admissible[a]) {
            Some(pos) => {
                assert(absent(a as int) is None);
                axis_map.push(pos);
            },
            None => {
                assert(absent(a as int) is Some);
                return Err(internal("subtraction axis absent from parent admissible"));
            },
        }
        a = a + 1;
    }
    proof {
        lemma_first_fault(absent, 0, admissible@.len() as int, admissible@.len() as int);
    }
    assert(axis_map@ =~= places(admissible@, above@));
    Ok(axis_map)
}

/// Sums the rows of a level with the help of the level above: the smaller children
/// are summed, the larger ones are the rest of their nodes. With a usable histogram
/// of the level above, the result is what a full build gives.
pub fn build_subtracted_level(
    x: &BinnedMatrix,
    qgh: &QuantGradHess,
    rows: &Vec<u32>,
    leaf_of_row: &Vec<u8>,
    level: usize,
    admissible: &Vec<u32>,
    prev_hist: &Hist,
    prev_admissible: &Vec<u32>,
) -> (r: Result<Hist, PbError>)
    requires
        1 <= level <= 8,
        prev_hist.wf(),
        2 * prev_hist.n_leaves <= usize::MAX,
    ensures
        ({
            let half = pow2((level - 1) as nat);
            let f = subtracted_fault(
                *x,
                *qgh,
                rows@,
                leaf_of_row@,
                half,
                admissible@,
                prev_admissible@,
            );
            if f is Some {
                answers(r, f)
            } else {
                exists|child: Hist|
                    #![trigger holds_smaller(child, *x, *qgh, rows@, leaf_of_row@, half, admissible@)]
                    {
                        let pairing = pairs(leaf_of_row@, rows@, half);
                        let axis_map = places(admissible@, prev_admissible@);
                        &&& holds_smaller(
                            child,
                            *x,
                            *qgh,
                            rows@,
                            leaf_of_row@,
                            half,
                            admissible@,
                        )
                        &&& answers(r, sibling_fault(child, *prev_hist, pairing, axis_map))
                        &&& r is Ok ==> is_filled(
                            r->Ok_0,
                            child,
                            *prev_hist,
                            pairing,
                            axis_map,
                        )
                    }
            }
        }),
        usable_parent(
            *prev_hist,
            *x,
            *qgh,
            rows@,
            leaf_of_row@,
            pow2((level - 1) as nat) as int,
            admissible@,
            prev_admissible@,
        ) ==> {
            &&& answers(
                r,
                subtracted_fault(
                    *x,
                    *qgh,
                    rows@,
                    leaf_of_row@,
                    pow2((level - 1) as nat),
                    admissible@,
                    prev_admissible@,
                ),
            )
            &&& r is Ok ==> hist_holds(
                r->Ok_0,
                x.data@,
                *qgh,
                leaf_of_row@,
                rows@,
                admissible@,
            ) && r->Ok_0.n_leaves == pow2(level as nat) && r->Ok_0.n_bins == max_bins_of(
                x.grids@,
                admissible@,
                admissible@.len(),
            )
        },
{
    let half: usize = leaves_at(level - 1);
    proof {
        lemma_pow2_unfold(level as nat);
        lemma2_to64();
        if level - 1 < 7 {
            lemma_pow2_strictly_increases((level - 1) as nat, 7);
        }
        assert(half <= 128);
        lemma_small_rows_members(leaf_of_row@, rows@, half as int, rows@.len());
    }
    let n_leaves: usize = half * 2;
    let plan = match plan_subtraction(rows, leaf_of_row, level) {
        Ok(p) => p,
        Err(e) => return Err(e),
    };
    let pairing = plan.pairing;
    let small = plan.small;
    let mut hist = match build_quantized_histogram(
        x,
        qgh,
        &small,
        leaf_of_row,
        n_leaves,
        admissible,
    ) {
        Ok(h) => h,
        Err(e) => return Err(e),
    };
    let axis_map = match map_axes(admissible, prev_admissible) {
        Ok(m) => m,
        Err(e) => return Err(e),
    };
    let ghost child = hist;
    proof {
        lemma_pairs(leaf_of_row@, rows@, half as nat);
        assert(holds_smaller(child, *x, *qgh, rows@, leaf_of_row@, half as nat, admissible@));
    }
    match subtract_sibling_into(&mut hist, prev_hist, &pairing, &axis_map) {
        Ok(()) => {},
        Err(e) => {
            proof {
                if usable_parent(
                    *prev_hist,
                    *x,
                    *qgh,
                    rows@,
                    leaf_of_row@,
                    half as int,
                    admissible@,
                    prev_admissible@,
                ) {
                    lemma_rows_have_leaves(leaf_of_row@, rows@, n_leaves as int);
                    lemma_no_sibling_fault(
                        child,
                        *prev_hist,
                        *x,
                        *qgh,
                        rows@,
                        leaf_of_row@,
                        half as int,
                        admissible@,
                        prev_admissible@,
                        pairing@,
                        axis_map@,
                    );
                }
            }
            return Err(e);
        },
    }
    proof {
        assert(is_filled(hist, child, *prev_hist, pairing@, axis_map@));
        if usable_parent(
            *prev_hist,
            *x,
            *qgh,
            rows@,
            leaf_of_row@,
            half as int,
            admissible@,
            prev_admissible@,
        ) {
            lemma_rows_have_leaves(leaf_of_row@, rows@, n_leaves as int);
            lemma_filled_is_full(
                hist,
                child,
                *prev_hist,
                *x,
                *qgh,
                rows@,
                leaf_of_row@,
                half as nat,
                admissible@,
                prev_admissible@,
                axis_map@,
            );
        }
    }
    Ok(hist)
}

proof fn lemma_rows_at_bound(leaf_of: Seq<u8>, rows: Seq<u32>, leaf: int)
    ensures
        rows_at(leaf_of, rows, leaf) <= rows.len(),
    decreases rows.len(),
{
    if rows.len() > 0 {
        lemma_rows_at_bound(leaf_of, rows.drop_last(), leaf);
    }
}

/// The rows of a leaf are counted.
pub proof fn law_rows_of_a_leaf_are_counted(leaf_of: Seq<u8>, rows: Seq<u32>, leaf: int)
    ensures
        rows_at(leaf_of, rows, leaf) == rows.filter(|r: u32| leaf_of[r as int] as int == leaf).len(),
    decreases rows.len(),
{
    reveal(Seq::filter);
    if rows.len() > 0 {
        law_rows_of_a_leaf_are_counted(leaf_of, rows.drop_last(), leaf);
    }
}

/// Of two siblings the one with fewer rows is summed, the first of equal ones, and
/// the other one is what its parent leaves of it.
pub proof fn law_the_smaller_sibling_is_summed(leaf_of: Seq<u8>, rows: Seq<u32>, half: nat, p: int)
    requires
        0 <= p < half <= 128,
    ensures
        ({
            let (parent, summed, rest) = pairs(leaf_of, rows, half)[p];
            let of_summed = rows.filter(|r: u32| leaf_of[r as int] as int == summed as int).len();
            let of_rest = rows.filter(|r: u32| leaf_of[r as int] as int == rest as int).len();
            &&& parent == p
            &&& (summed == p && rest == p + half) || (summed == p + half && rest == p)
            &&& of_summed <= of_rest
            &&& of_summed == of_rest ==> summed == p
        }),
        pairs(leaf_of, rows, half).len() == half,
{
    law_rows_of_a_leaf_are_counted(leaf_of, rows, p);
    law_rows_of_a_leaf_are_counted(leaf_of, rows, p + half);
}

/// The rows that are summed are those of the smaller siblings, in their order.
pub proof fn law_summed_rows_lie_in_smaller_siblings(leaf_of: Seq<u8>, rows: Seq<u32>, half: int, r: u32)
    requires
        0 < half,
    ensures
        small_rows(leaf_of, rows, half, rows.len()).contains(r) <==> rows.contains(r) && {
            let l = leaf_of[r as int] as int;
            let own = rows.filter(|q: u32| leaf_of[q as int] as int == l).len();
            if l < half {
                own <= rows.filter(|q: u32| leaf_of[q as int] as int == l + half).len()
            } else {
                own < rows.filter(|q: u32| leaf_of[q as int] as int == l - half).len()
            }
        },
{
    let l = leaf_of[r as int] as int;
    law_rows_of_a_leaf_are_counted(leaf_of, rows, l);
    law_rows_of_a_leaf_are_counted(leaf_of, rows, l + half);
    law_rows_of_a_leaf_are_counted(leaf_of, rows, l - half);
    lemma_summed_rows(leaf_of, rows, half, rows.len(), r);
    assert(rows.take(rows.len() as int) =~= rows);
}

proof fn lemma_summed_rows(leaf_of: Seq<u8>, rows: Seq<u32>, half: int, n: nat, r: u32)
    requires
        n <= rows.len(),
    ensures
        small_rows(leaf_of, rows, half, n).contains(r) <==> rows.take(n as int).contains(r)
            && is_smaller(leaf_of, rows, half, leaf_of[r as int] as int),
    decreases n,
{
    let out = small_rows(leaf_of, rows, half, n);
    if n > 0 {
        lemma_summed_rows(leaf_of, rows, half, (n - 1) as nat, r);
        let before = small_rows(leaf_of, rows, half, (n - 1) as nat);
        let last = rows[n - 1];
        let (front, whole) = (rows.take(n - 1), rows.take(n as int));
        assert(whole =~= front.push(last));
        if front.contains(r) {
            let i = choose|i: int| 0 <= i < front.len() && front[i] == r;
            assert(whole[i] == r);
        }
        if r == last {
            assert(whole[n - 1] == r);
        }
        if whole.contains(r) {
            let i = choose|i: int| 0 <= i < whole.len() && whole[i] == r;
            if i < n - 1 {
                assert(front[i] == r);
            }
        }
        if before.contains(r) {
            let i = choose|i: int| 0 <= i < before.len() && before[i] == r;
            assert(out[i] == r);
        }
        if out.len() > before.len() && r == last {
            assert(out[before.len() as int] == r);
        }
        if out.contains(r) {
            let i = choose|i: int| 0 <= i < out.len() && out[i] == r;
            if i < before.len() {
                assert(before[i] == r);
            }
        }
    }
}

} // verus!
