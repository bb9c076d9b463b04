//! Filling the larger child of each node by subtracting the smaller one.
use crate::engine::hist::{law_cells_are_disjoint, lemma_cell_bound, Hist};
use crate::error::{
    answers, first_fault, internal, lemma_all_none, lemma_first_fault, lemma_no_fault, Fault, PbError,
};
use crate::text::{dec, decimal, with_number};
use vstd::prelude::*;

verus! {

/// A node with its smaller and its larger child.
pub type Pair = (usize, usize, usize);

/// Why the cell of one bin cannot be filled.
pub open spec fn sib_cell_fault(
    child: Hist,
    parent: Hist,
    pair: Pair,
    a1: int,
    a2: int,
    b: int,
) -> Option<Fault> {
    if pair.0 >= parent.n_leaves || a1 >= parent.n_axes {
        Some(Fault::Internal("subtract_sibling parent offset"@))
    } else if pair.1 >= child.n_leaves {
        Some(Fault::Internal("subtract_sibling smaller offset"@))
    } else if pair.2 >= child.n_leaves {
        Some(Fault::Internal("subtract_sibling larger offset"@))
    } else if parent.count@[parent.pos(pair.0 as int, a1, b)] < child.count@[child.pos(
        pair.1 as int,
        a2,
        b,
    )] {
        Some(Fault::Internal("subtract_sibling count underflow"@))
    } else {
        None
    }
}

/// Why the cells of one axis cannot be filled.
pub open spec fn sib_axis_fault(
    child: Hist,
    parent: Hist,
    pair: Pair,
    axis_map: Seq<usize>,
    a2: int,
) -> Option<Fault> {
    first_fault(
        |b: int| sib_cell_fault(child, parent, pair, axis_map[a2] as int, a2, b),
        0,
        child.n_bins as int,
    )
}

/// Why the larger child of a node cannot be filled.
pub open spec fn sib_pair_fault(
    child: Hist,
    parent: Hist,
    pair: Pair,
    axis_map: Seq<usize>,
) -> Option<Fault> {
    first_fault(
        |a2: int| sib_axis_fault(child, parent, pair, axis_map, a2),
        0,
        axis_map.len() as int,
    )
}

/// Why the shapes do not fit.
pub open spec fn sib_shape_fault(child: Hist, parent: Hist, axis_map: Seq<usize>) -> Option<Fault> {
    if child.n_leaves != 2 * parent.n_leaves {
        Some(
            Fault::ShapeMismatch(
                "subtract_sibling_into: child n_leaves "@ + dec(child.n_leaves as nat)
                    + " != 2·parent "@ + dec(parent.n_leaves as nat),
            ),
        )
    } else if child.n_axes != axis_map.len() {
        Some(
            Fault::ShapeMismatch(
                "subtract_sibling_into: child n_axes "@ + dec(child.n_axes as nat)
                    + " != axis_map len "@ + dec(axis_map.len()),
            ),
        )
    } else if child.n_bins > parent.n_bins {
        Some(
            Fault::ShapeMismatch(
                "subtract_sibling_into: child n_bins "@ + dec(child.n_bins as nat)
                    + " > parent n_bins "@ + dec(parent.n_bins as nat),
            ),
        )
    } else {
        None
    }
}

/// Why the larger children cannot be filled, where no leaf is filled twice, or
/// filled and read.
pub open spec fn sibling_fault(
    child: Hist,
    parent: Hist,
    pairing: Seq<Pair>,
    axis_map: Seq<usize>,
) -> Option<Fault> {
    if sib_shape_fault(child, parent, axis_map) is Some {
        sib_shape_fault(child, parent, axis_map)
    } else {
        first_fault(
            |i: int| sib_pair_fault(child, parent, pairing[i], axis_map),
            0,
            pairing.len() as int,
        )
    }
}

/// Whether a cell is the parent's minus the smaller child's.
pub open spec fn is_rest(
    after: Hist,
    child: Hist,
    parent: Hist,
    pair: Pair,
    a1: int,
    a2: int,
    b: int,
) -> bool {
    let pp = parent.pos(pair.0 as int, a1, b);
    let ps = child.pos(pair.1 as int, a2, b);
    let pl = child.pos(pair.2 as int, a2, b);
    &&& after.g@[pl] == parent.g@[pp].wrapping_sub(child.g@[ps])
    &&& after.h@[pl] == parent.h@[pp].wrapping_sub(child.h@[ps])
    &&& after.count@[pl] == parent.count@[pp] - child.count@[ps]
}

/// Whether a cell is the same in both histograms.
pub open spec fn cell_kept(after: Hist, before: Hist, leaf: int, a: int, b: int) -> bool {
    let p = before.pos(leaf, a, b);
    after.g@[p] == before.g@[p] && after.h@[p] == before.h@[p] && after.count@[p]
        == before.count@[p]
}

/// Whether two histograms have the same shape.
pub open spec fn same_shape(a: Hist, b: Hist) -> bool {
    a.n_leaves == b.n_leaves && a.n_axes == b.n_axes && a.n_bins == b.n_bins
}

/// Whether no leaf is filled twice, or filled and read.
pub open spec fn pairs_disjoint(pairing: Seq<Pair>) -> bool {
    &&& forall|i: int, j: int|
        0 <= i < pairing.len() && 0 <= j < pairing.len() ==> (#[trigger] pairing[i]).2 != (
        #[trigger] pairing[j]).1
    &&& forall|i: int, j: int|
        0 <= i < j < pairing.len() ==> (#[trigger] pairing[i]).2 != (#[trigger] pairing[j]).2
}

/// Whether the larger child of one node was filled, and nothing else changed.
pub open spec fn pair_filled(
    after: Hist,
    before: Hist,
    parent: Hist,
    pair: Pair,
    axis_map: Seq<usize>,
) -> bool {
    &&& same_shape(after, before)
    &&& sib_pair_fault(before, parent, pair, axis_map) is None
    &&& forall|l: int, a: int, b: int|
        before.within(l, a, b) && l != pair.2 ==> #[trigger] cell_kept(after, before, l, a, b)
    &&& forall|a: int, b: int|
        0 <= a < axis_map.len() && 0 <= b < before.n_bins ==> #[trigger] is_rest(
            after,
            before,
            parent,
            pair,
            axis_map[a] as int,
            a,
            b,
        )
}

/// Whether step `k` of a course of histograms fills pair `k`.
pub open spec fn fills_pair(
    course: Seq<Hist>,
    parent: Hist,
    pairing: Seq<Pair>,
    axis_map: Seq<usize>,
    k: int,
) -> bool {
    pair_filled(course[k + 1], course[k], parent, pairing[k], axis_map)
}

/// Whether the pairs were filled one after the other, to the end or to the first
/// that cannot be filled.
pub open spec fn is_course(
    course: Seq<Hist>,
    r: Result<(), PbError>,
    before: Hist,
    after: Hist,
    parent: Hist,
    pairing: Seq<Pair>,
    axis_map: Seq<usize>,
) -> bool {
    &&& 1 <= course.len() <= pairing.len() + 1
    &&& course[0] == before
    &&& forall|k: int|
        0 <= k < course.len() - 1 ==> #[trigger] fills_pair(course, parent, pairing, axis_map, k)
    &&& match r {
        Ok(_) => course.len() == pairing.len() + 1 && course.last() == after,
        Err(e) => course.len() <= pairing.len() && sib_pair_fault(
            course.last(),
            parent,
            pairing[course.len() - 1],
            axis_map,
        ) == Some(e@),
    }
}

/// Fills the bins of one leaf and axis.
fn fill_axis(child: &mut Hist, parent: &Hist, pair: Pair, a1: usize, a2: usize) -> (r: Result<
    (),
    PbError,
>)
    requires
        old(child).wf(),
        parent.wf(),
        old(child).n_bins <= parent.n_bins,
        a2 < old(child).n_axes,
    ensures
        final(child).wf(),
        same_shape(*final(child), *old(child)),
        answers(
            r,
            first_fault(
                |b: int| sib_cell_fault(*old(child), *parent, pair, a1 as int, a2 as int, b),
                0,
                old(child).n_bins as int,
            ),
        ),
        forall|l: int, a: int, b: int|
            old(child).within(l, a, b) && (l != pair.2 || a != a2) ==> #[trigger] cell_kept(
                *final(child),
                *old(child),
                l,
                a,
                b,
            ),
        r is Ok ==> forall|b: int|
            0 <= b < old(child).n_bins ==> #[trigger] is_rest(
                *final(child),
                *old(child),
                *parent,
                pair,
                a1 as int,
                a2 as int,
                b,
            ),
{
    let ghost start = *child;
    let nb: usize = child.n_bins;
    let ghost f = |b: int| sib_cell_fault(start, *parent, pair, a1 as int, a2 as int, b);
    let mut b: usize = 0;
    while b < nb
        invariant
            b <= nb,
            nb == start.n_bins,
            start == *old(child),
            start.wf(),
            parent.wf(),
            start.n_bins <= parent.n_bins,
            a2 < start.n_axes,
            child.wf(),
            same_shape(*child, start),
            f == (|b: int| sib_cell_fault(start, *parent, pair, a1 as int, a2 as int, b)),
            forall|c: int| 0 <= c < b ==> (#[trigger] f(c)) is None,
            forall|l: int, a: int, c: int|
                start.within(l, a, c) && (l != pair.2 || a != a2 || c >= b) ==> #[trigger] cell_kept(
                    *child,
                    start,
                    l,
                    a,
                    c,
                ),
            forall|c: int|
                0 <= c < b ==> #[trigger] is_rest(
                    *child,
                    start,
                    *parent,
                    pair,
                    a1 as int,
                    a2 as int,
                    c,
                ),
        decreases nb - b,
    {
        proof {
            lemma_first_fault(f, 0, b as int, nb as int);
            assert(child.g.len() == child.g@.len());
            assert(parent.g.len() == parent.g@.len());
            if pair.0 < parent.n_leaves && a1 < parent.n_axes {
                lemma_cell_bound(
                    pair.0 as int,
                    a1 as int,
                    b as int,
                    parent.n_leaves as int,
                    parent.n_axes as int,
                    parent.n_bins as int,
                );
            }
            if pair.1 < start.n_leaves {
                lemma_cell_bound(
                    pair.1 as int,
                    a2 as int,
                    b as int,
                    start.n_leaves as int,
                    start.n_axes as int,
                    nb as int,
                );
            }
            if pair.2 < start.n_leaves {
                lemma_cell_bound(
                    pair.2 as int,
                    a2 as int,
                    b as int,
                    start.n_leaves as int,
                    start.n_axes as int,
                    nb as int,
                );
            }
        }
        let po: usize = match parent.offset(pair.0, a1, b) {
            Some(o) => o,
            None => {
                assert(f(b as int) is Some);
                return Err(internal("subtract_sibling parent offset"));
            },
        };
        let so: usize = match child.offset(pair.1, a2, b) {
            Some(o) => o,
            None => {
                assert(f(b as int) is Some);
                return Err(internal("subtract_sibling smaller offset"));
            },
        };
        let lo: usize = match child.offset(pair.2, a2, b) {
            Some(o) => o,
            None => {
                assert(f(b as int) is Some);
                return Err(internal("subtract_sibling larger offset"));
            },
        };
        assert(cell_kept(*child, start, pair.1 as int, a2 as int, b as int));
        let c: u32 = match parent.count[po].checked_sub(child.count[so]) {
            Some(c) => c,
            None => {
                assert(f(b as int) is Some);
                return Err(internal("subtract_sibling count underflow"));
            },
        };
        assert(f(b as int) is None);
        let ghost before = *child;
        let gv: i64 = parent.g[po].wrapping_sub(child.g[so]);
        let hv: i64 = parent.h[po].wrapping_sub(child.h[so]);
        child.g.set(lo, gv);
        child.h.set(lo, hv);
        child.count.set(lo, c);
        proof {
            assert forall|l: int, a: int, c: int|
                start.within(l, a, c) && !(l == pair.2 && a == a2 && c == b) implies cell_kept(
                *child,
                before,
                l,
                a,
                c,
            ) && start.pos(l, a, c) != lo by {
                lemma_cell_bound(
                    l,
                    a,
                    c,
                    start.n_leaves as int,
                    start.n_axes as int,
                    nb as int,
                );
                if start.pos(l, a, c) == lo {
                    law_cells_are_disjoint(
                        l,
                        a,
                        c,
                        pair.2 as int,
                        a2 as int,
                        b as int,
                        start.n_axes as int,
                        nb as int,
                    );
                }
            }
            assert forall|l: int, a: int, c: int|
                start.within(l, a, c) && (l != pair.2 || a != a2 || c >= b + 1) implies #[trigger] cell_kept(
                *child,
                start,
                l,
                a,
                c,
            ) by {
                assert(cell_kept(before, start, l, a, c));
                assert(cell_kept(*child, before, l, a, c));
            }
            assert forall|c: int| 0 <= c < b + 1 implies #[trigger] is_rest(
                *child,
                start,
                *parent,
                pair,
                a1 as int,
                a2 as int,
                c,
            ) by {
                if c < b {
                    assert(is_rest(before, start, *parent, pair, a1 as int, a2 as int, c));
                    assert(start.within(pair.2 as int, a2 as int, c));
                    assert(cell_kept(*child, before, pair.2 as int, a2 as int, c));
                }
            }
        }
        b = b + 1;
    }
    proof {
        lemma_first_fault(f, 0, nb as int, nb as int);
    }
    Ok(())
}

/// Faults do not depend on cells that are only written.
proof fn lemma_axis_fault_frame(
    a: Hist,
    b: Hist,
    parent: Hist,
    pair: Pair,
    a1: int,
    a2: int,
    from: int,
)
    requires
        same_shape(a, b),
        0 <= a2 < a.n_axes,
        0 <= from,
        forall|c: int|
            0 <= c < b.n_bins && pair.1 < b.n_leaves ==> #[trigger] cell_kept(
                a,
                b,
                pair.1 as int,
                a2,
                c,
            ),
    ensures
        first_fault(|c: int| sib_cell_fault(a, parent, pair, a1, a2, c), from, a.n_bins as int)
            == first_fault(
            |c: int| sib_cell_fault(b, parent, pair, a1, a2, c),
            from,
            b.n_bins as int,
        ),
    decreases b.n_bins - from,
{
    if from < b.n_bins {
        lemma_axis_fault_frame(a, b, parent, pair, a1, a2, from + 1);
        if pair.1 < b.n_leaves {
            assert(cell_kept(a, b, pair.1 as int, a2, from));
        }
    }
}

/// Fills the larger child of one node, on every axis.
fn fill_pair(child: &mut Hist, parent: &Hist, pair: Pair, axis_map: &Vec<usize>) -> (r: Result<
    (),
    PbError,
>)
    requires
        old(child).wf(),
        parent.wf(),
        old(child).n_bins <= parent.n_bins,
        old(child).n_axes == axis_map@.len(),
    ensures
        final(child).wf(),
        same_shape(*final(child), *old(child)),
        answers(r, sib_pair_fault(*old(child), *parent, pair, axis_map@)),
        forall|l: int, a: int, b: int|
            old(child).within(l, a, b) && l != pair.2 ==> #[trigger] cell_kept(
                *final(child),
                *old(child),
                l,
                a,
                b,
            ),
        r is Ok ==> forall|a: int, b: int|
            0 <= a < axis_map@.len() && 0 <= b < old(child).n_bins ==> #[trigger] is_rest(
                *final(child),
                *old(child),
                *parent,
                pair,
                axis_map@[a] as int,
                a,
                b,
            ),
{
    let ghost start = *child;
    let ghost f = |a2: int| sib_axis_fault(start, *parent, pair, axis_map@, a2);
    let n: usize = axis_map.len();
    let mut a2: usize = 0;
    while a2 < n
        invariant
            a2 <= n,
            n == axis_map@.len(),
            start == *old(child),
            start.wf(),
            parent.wf(),
            start.n_bins <= parent.n_bins,
            start.n_axes == n,
            child.wf(),
            same_shape(*child, start),
            f == (|a2: int| sib_axis_fault(start, *parent, pair, axis_map@, a2)),
            forall|a: int| 0 <= a < a2 ==> (#[trigger] f(a)) is None,
            forall|l: int, a: int, b: int|
                start.within(l, a, b) && (l != pair.2 || a >= a2) ==> #[trigger] cell_kept(
                    *child,
                    start,
                    l,
                    a,
                    b,
                ),
            forall|a: int, b: int|
                0 <= a < a2 && 0 <= b < start.n_bins ==> #[trigger] is_rest(
                    *child,
                    start,
                    *parent,
                    pair,
                    axis_map@[a] as int,
                    a,
                    b,
                ),
        decreases n - a2,
    {
        let ghost before = *child;
        proof {
            lemma_first_fault(f, 0, a2 as int, n as int);
            assert forall|c: int| 0 <= c < start.n_bins && pair.1 < start.n_leaves implies #[trigger] cell_kept(
                before,
                start,
                pair.1 as int,
                a2 as int,
                c,
            ) by {
                assert(start.within(pair.1 as int, a2 as int, c));
            }
            lemma_axis_fault_frame(
                before,
                start,
                *parent,
                pair,
                axis_map@[a2 as int] as int,
                a2 as int,
                0,
            );
        }
        match fill_axis(child, parent, pair, axis_map[a2], a2) {
            Ok(()) => {
                assert(f(a2 as int) is None);
            },
            Err(e) => {
                assert(f(a2 as int) is Some);
                proof {
                    assert forall|l: int, a: int, b: int|
                        start.within(l, a, b) && l != pair.2 implies #[trigger] cell_kept(
                        *child,
                        start,
                        l,
                        a,
                        b,
                    ) by {
                        assert(before.within(l, a, b));
                        assert(cell_kept(before, start, l, a, b));
                        assert(cell_kept(*child, before, l, a, b));
                    }
                }
                return Err(e);
            },
        }
        proof {
            assert forall|l: int, a: int, b: int|
                start.within(l, a, b) && (l != pair.2 || a >= a2 + 1) implies #[trigger] cell_kept(
                *child,
                start,
                l,
                a,
                b,
            ) by {
                assert(before.within(l, a, b));
                assert(cell_kept(before, start, l, a, b));
                assert(cell_kept(*child, before, l, a, b));
            }
            if start.n_bins > 0 {
                assert(sib_cell_fault(
                    before,
                    *parent,
                    pair,
                    axis_map@[a2 as int] as int,
                    a2 as int,
                    0,
                ) is None);
            }
            assert forall|a: int, b: int|
                0 <= a < a2 + 1 && 0 <= b < start.n_bins implies #[trigger] is_rest(
                *child,
                start,
                *parent,
                pair,
                axis_map@[a] as int,
                a,
                b,
            ) by {
                assert(pair.1 < start.n_leaves && pair.2 < start.n_leaves);
                if a < a2 {
                    assert(is_rest(before, start, *parent, pair, axis_map@[a] as int, a, b));
                    assert(before.within(pair.2 as int, a, b));
                    assert(cell_kept(*child, before, pair.2 as int, a, b));
                } else {
                    assert(is_rest(*child, before, *parent, pair, axis_map@[a] as int, a, b));
                    assert(start.within(pair.1 as int, a, b));
                    assert(cell_kept(before, start, pair.1 as int, a, b));
                }
            }
        }
        a2 = a2 + 1;
    }
    proof {
        lemma_first_fault(f, 0, n as int, n as int);
    }
    Ok(())
}

proof fn lemma_pair_fault_frame(
    a: Hist,
    b: Hist,
    parent: Hist,
    pair: Pair,
    axis_map: Seq<usize>,
    from: int,
)
    requires
        same_shape(a, b),
        a.n_axes == axis_map.len(),
        0 <= from,
        forall|x: int, c: int|
            b.within(pair.1 as int, x, c) ==> #[trigger] cell_kept(a, b, pair.1 as int, x, c),
    ensures
        first_fault(
            |a2: int| sib_axis_fault(a, parent, pair, axis_map, a2),
            from,
            axis_map.len() as int,
        ) == first_fault(
            |a2: int| sib_axis_fault(b, parent, pair, axis_map, a2),
            from,
            axis_map.len() as int,
        ),
    decreases axis_map.len() - from,
{
    if from < axis_map.len() {
        lemma_pair_fault_frame(a, b, parent, pair, axis_map, from + 1);
        assert forall|c: int| 0 <= c < b.n_bins && pair.1 < b.n_leaves implies #[trigger] cell_kept(
            a,
            b,
            pair.1 as int,
            from,
            c,
        ) by {
            assert(b.within(pair.1 as int, from, c));
        }
        lemma_axis_fault_frame(a, b, parent, pair, axis_map[from] as int, from, 0);
    }
}

/// Fills the larger child of every node: its sums are the parent's minus the
/// smaller child's. Axis `a` of the child is axis `axis_map[a]` of the parent.
pub fn subtract_sibling_into(
    child: &mut Hist,
    parent: &Hist,
    pairing: &Vec<Pair>,
    axis_map: &Vec<usize>,
) -> (r: Result<(), PbError>)
    requires
        old(child).wf(),
        parent.wf(),
        2 * parent.n_leaves <= usize::MAX,
    ensures
        final(child).wf(),
        same_shape(*final(child), *old(child)),
        ({
            let f = sib_shape_fault(*old(child), *parent, axis_map@);
            if f is Some {
                answers(r, f) && *final(child) == *old(child)
            } else {
                exists|course: Seq<Hist>| #[trigger]
                    is_course(
                        course,
                        r,
                        *old(child),
                        *final(child),
                        *parent,
                        pairing@,
                        axis_map@,
                    )
            }
        }),
        pairs_disjoint(pairing@) ==> answers(
            r,
            sibling_fault(*old(child), *parent, pairing@, axis_map@),
        ),
        r is Ok ==> old(child).n_leaves == 2 * parent.n_leaves && old(child).n_axes
            == axis_map@.len() && old(child).n_bins <= parent.n_bins,
        forall|l: int, a: int, b: int|
            old(child).within(l, a, b) && (forall|i: int|
                0 <= i < pairing@.len() ==> (#[trigger] pairing@[i]).2 != l) ==> #[trigger] cell_kept(
                *final(child),
                *old(child),
                l,
                a,
                b,
            ),
        r is Ok && pairs_disjoint(pairing@) ==> forall|i: int, a: int, b: int|
            0 <= i < pairing@.len() && 0 <= a < axis_map@.len() && 0 <= b < old(child).n_bins
                ==> #[trigger] is_rest(
                *final(child),
                *old(child),
                *parent,
                pairing@[i],
                axis_map@[a] as int,
                a,
                b,
            ),
{
    let ghost start = *child;
    if child.n_leaves != 2 * parent.n_leaves {
        let mut what = with_number(
            "subtract_sibling_into: child n_leaves ",
            child.n_leaves as u64,
            " != 2·parent ",
        );
        what.append(decimal(parent.n_leaves as u64).as_str());
        return Err(PbError::ShapeMismatch { what });
    }
    if child.n_axes != axis_map.len() {
        let mut what = with_number(
            "subtract_sibling_into: child n_axes ",
            child.n_axes as u64,
            " != axis_map len ",
        );
        what.append(decimal(axis_map.len() as u64).as_str());
        return Err(PbError::ShapeMismatch { what });
    }
    if child.n_bins > parent.n_bins {
        let mut what = with_number(
            "subtract_sibling_into: child n_bins ",
            child.n_bins as u64,
            " > parent n_bins ",
        );
        what.append(decimal(parent.n_bins as u64).as_str());
        return Err(PbError::ShapeMismatch { what });
    }
    let ghost apart = pairs_disjoint(pairing@);
    let ghost f = |i: int| sib_pair_fault(start, *parent, pairing@[i], axis_map@);
    let n: usize = pairing.len();
    let ghost mut course: Seq<Hist> = seq![start];
    let mut i: usize = 0;
    while i < n
        invariant
            i <= n,
            n == pairing@.len(),
            start == *old(child),
            start.wf(),
            parent.wf(),
            start.n_leaves == 2 * parent.n_leaves,
            start.n_bins <= parent.n_bins,
            start.n_axes == axis_map@.len(),
            child.wf(),
            same_shape(*child, start),
            sib_shape_fault(start, *parent, axis_map@) is None,
            course.len() == i + 1,
            course[0] == start,
            course.last() == *child,
            forall|k: int|
                0 <= k < i ==> #[trigger] fills_pair(course, *parent, pairing@, axis_map@, k),
            apart == pairs_disjoint(pairing@),
            f == (|i: int| sib_pair_fault(start, *parent, pairing@[i], axis_map@)),
            apart ==> forall|j: int| 0 <= j < i ==> (#[trigger] f(j)) is None,
            forall|l: int, a: int, b: int|
                start.within(l, a, b) && (forall|j: int|
                    0 <= j < i ==> (#[trigger] pairing@[j]).2 != l) ==> #[trigger] cell_kept(
                    *child,
                    start,
                    l,
                    a,
                    b,
                ),
            apart ==> forall|j: int, a: int, b: int|
                0 <= j < i && 0 <= a < axis_map@.len() && 0 <= b < start.n_bins ==> #[trigger] is_rest(
                    *child,
                    start,
                    *parent,
                    pairing@[j],
                    axis_map@[a] as int,
                    a,
                    b,
                ),
        decreases n - i,
    {
        let ghost before = *child;
        let pair: Pair = pairing[i];
        proof {
            if apart {
                lemma_first_fault(f, 0, i as int, n as int);
                assert forall|x: int, c: int| start.within(pair.1 as int, x, c) implies #[trigger] cell_kept(
                    before,
                    start,
                    pair.1 as int,
                    x,
                    c,
                ) by {
                    assert forall|j: int| 0 <= j < i implies (#[trigger] pairing@[j]).2 != pair.1 by {
                        assert(pairing@[j].2 != pairing@[i as int].1);
                    }
                }
                lemma_pair_fault_frame(before, start, *parent, pair, axis_map@, 0);
            }
        }
        let step = fill_pair(child, parent, pair, axis_map);
        proof {
            assert(apart ==> (step is Ok <==> f(i as int) is None));
            assert forall|l: int, a: int, b: int|
                start.within(l, a, b) && (forall|j: int|
                    0 <= j < i + 1 ==> (#[trigger] pairing@[j]).2 != l) implies #[trigger] cell_kept(
                *child,
                start,
                l,
                a,
                b,
            ) by {
                assert(before.within(l, a, b));
                assert(pairing@[i as int].2 != l);
                assert forall|j: int| 0 <= j < i implies (#[trigger] pairing@[j]).2 != l by {}
                assert(cell_kept(before, start, l, a, b));
                assert(cell_kept(*child, before, l, a, b));
            }
        }
        match step {
            Ok(()) => {},
            Err(e) => {
                proof {
                    assert(is_course(
                        course,
                        Err(e),
                        start,
                        *child,
                        *parent,
                        pairing@,
                        axis_map@,
                    ));
                    assert forall|l: int, a: int, b: int|
                        start.within(l, a, b) && (forall|j: int|
                            0 <= j < n ==> (#[trigger] pairing@[j]).2 != l) implies #[trigger] cell_kept(
                        *child,
                        start,
                        l,
                        a,
                        b,
                    ) by {
                        assert forall|j: int| 0 <= j < i + 1 implies (#[trigger] pairing@[j]).2
                            != l by {}
                    }
                }
                return Err(e);
            },
        }
        proof {
            let longer = course.push(*child);
            assert forall|k: int| 0 <= k < i + 1 implies #[trigger] fills_pair(
                longer,
                *parent,
                pairing@,
                axis_map@,
                k,
            ) by {
                if k < i {
                    assert(fills_pair(course, *parent, pairing@, axis_map@, k));
                }
            }
            course = longer;
            if apart {
                assert forall|j: int, a: int, b: int|
                    0 <= j < i + 1 && 0 <= a < axis_map@.len() && 0 <= b < start.n_bins implies #[trigger] is_rest(
                    *child,
                    start,
                    *parent,
                    pairing@[j],
                    axis_map@[a] as int,
                    a,
                    b,
                ) by {
                    let q = pairing@[j];
                    assert(f(j) is None);
                    lemma_pair_in_range(start, *parent, q, axis_map@, a, b);
                    if j < i {
                        assert(is_rest(before, start, *parent, q, axis_map@[a] as int, a, b));
                        assert(before.within(q.2 as int, a, b));
                        assert(q.2 != pair.2);
                        assert(cell_kept(*child, before, q.2 as int, a, b));
                    } else {
                        assert(is_rest(*child, before, *parent, q, axis_map@[a] as int, a, b));
                        assert(start.within(q.1 as int, a, b));
                        assert(cell_kept(before, start, q.1 as int, a, b));
                    }
                }
            }
        }
        i = i + 1;
    }
    proof {
        assert(is_course(
            course,
            Ok::<(), PbError>(()),
            start,
            *child,
            *parent,
            pairing@,
            axis_map@,
        ));
        if apart {
            lemma_first_fault(f, 0, n as int, n as int);
        }
    }
    Ok(())
}

/// A pair without fault lies within the shapes.
proof fn lemma_pair_in_range(
    child: Hist,
    parent: Hist,
    pair: Pair,
    axis_map: Seq<usize>,
    a: int,
    b: int,
)
    requires
        sib_pair_fault(child, parent, pair, axis_map) is None,
        0 <= a < axis_map.len(),
        0 <= b < child.n_bins,
    ensures
        pair.1 < child.n_leaves,
        pair.2 < child.n_leaves,
        pair.0 < parent.n_leaves,
        axis_map[a] < parent.n_axes,
{
    let f = |a2: int| sib_axis_fault(child, parent, pair, axis_map, a2);
    lemma_all_none(f, 0, axis_map.len() as int);
    let g = |c: int| sib_cell_fault(child, parent, pair, axis_map[a] as int, a, c);
    assert(f(a) is None);
    lemma_all_none(g, 0, child.n_bins as int);
    assert(g(b) is None);
}

/// A cell is subtracted exactly when its leaves and its axis are there and the
/// parent has no fewer rows in it than the smaller child.
pub proof fn law_subtracted_cells_have_rows(
    child: Hist,
    parent: Hist,
    pair: Pair,
    a1: int,
    a2: int,
    b: int,
)
    ensures
        sib_cell_fault(child, parent, pair, a1, a2, b) is None <==> {
            &&& pair.0 < parent.n_leaves && a1 < parent.n_axes
            &&& pair.1 < child.n_leaves && pair.2 < child.n_leaves
            &&& child.count@[child.pos(pair.1 as int, a2, b)] <= parent.count@[parent.pos(
                pair.0 as int,
                a1,
                b,
            )]
        },
{
}

/// Siblings are subtracted exactly when the child has two leaves for each of the
/// parent's, an axis for each that is mapped and no more bins, and every cell can be
/// subtracted.
pub proof fn law_subtracted_siblings_fit(
    child: Hist,
    parent: Hist,
    pairing: Seq<Pair>,
    axis_map: Seq<usize>,
)
    ensures
        sib_shape_fault(child, parent, axis_map) is None <==> child.n_leaves == 2 * parent.n_leaves
            && child.n_axes == axis_map.len() && child.n_bins <= parent.n_bins,
        sibling_fault(child, parent, pairing, axis_map) is None <==> {
            &&& child.n_leaves == 2 * parent.n_leaves
            &&& child.n_axes == axis_map.len()
            &&& child.n_bins <= parent.n_bins
            &&& forall|i: int, a: int, b: int|
                0 <= i < pairing.len() && 0 <= a < axis_map.len() && 0 <= b < child.n_bins
                    ==> #[trigger] sib_cell_fault(
                    child,
                    parent,
                    pairing[i],
                    axis_map[a] as int,
                    a,
                    b,
                ) is None
        },
{
    let f = |i: int| sib_pair_fault(child, parent, pairing[i], axis_map);
    lemma_no_fault(f, pairing.len() as int);
    if forall|i: int| 0 <= i < pairing.len() ==> (#[trigger] f(i)) is None {
        assert forall|i: int, a: int, b: int|
            0 <= i < pairing.len() && 0 <= a < axis_map.len() && 0 <= b
                < child.n_bins implies #[trigger] sib_cell_fault(
            child,
            parent,
            pairing[i],
            axis_map[a] as int,
            a,
            b,
        ) is None by {
            assert(f(i) is None);
            lemma_pair_cells(child, parent, pairing[i], axis_map);
            assert(sib_axis_fault(child, parent, pairing[i], axis_map, a) is None);
            let g = |b: int| sib_cell_fault(child, parent, pairing[i], axis_map[a] as int, a, b);
            lemma_no_fault(g, child.n_bins as int);
            assert(g(b) is None);
        }
    } else {
        let i = choose|i: int| 0 <= i < pairing.len() && !((#[trigger] f(i)) is None);
        let h = |a: int| sib_axis_fault(child, parent, pairing[i], axis_map, a);
        lemma_no_fault(h, axis_map.len() as int);
        let a = choose|a: int| 0 <= a < axis_map.len() && !((#[trigger] h(a)) is None);
        let g = |b: int| sib_cell_fault(child, parent, pairing[i], axis_map[a] as int, a, b);
        lemma_no_fault(g, child.n_bins as int);
        let b = choose|b: int| 0 <= b < child.n_bins && !((#[trigger] g(b)) is None);
        assert(!(sib_cell_fault(child, parent, pairing[i], axis_map[a] as int, a, b) is None));
    }
}

/// Every axis of a pair that can be subtracted can be subtracted.
proof fn lemma_pair_cells(child: Hist, parent: Hist, pair: Pair, axis_map: Seq<usize>)
    requires
        sib_pair_fault(child, parent, pair, axis_map) is None,
    ensures
        forall|a: int|
            0 <= a < axis_map.len() ==> #[trigger] sib_axis_fault(child, parent, pair, axis_map, a) is None,
{
    let h = |a: int| sib_axis_fault(child, parent, pair, axis_map, a);
    lemma_no_fault(h, axis_map.len() as int);
    assert forall|a: int| 0 <= a < axis_map.len() implies #[trigger] sib_axis_fault(
        child,
        parent,
        pair,
        axis_map,
        a,
    ) is None by {
        assert(h(a) is None);
    }
}

/// The children of a leaf have the rows of the leaf between them: in every cell the
/// larger child has what the smaller leaves of the parent.
pub proof fn law_siblings_share_their_parent(
    after: Hist,
    child: Hist,
    parent: Hist,
    pair: Pair,
    a1: int,
    a2: int,
    b: int,
)
    requires
        is_rest(after, child, parent, pair, a1, a2, b),
        cell_kept(after, child, pair.1 as int, a2, b),
    ensures
        after.count@[child.pos(pair.1 as int, a2, b)] + after.count@[child.pos(pair.2 as int, a2, b)]
            == parent.count@[parent.pos(pair.0 as int, a1, b)],
        after.g@[child.pos(pair.1 as int, a2, b)].wrapping_add(
            after.g@[child.pos(pair.2 as int, a2, b)],
        ) == parent.g@[parent.pos(pair.0 as int, a1, b)],
        after.h@[child.pos(pair.1 as int, a2, b)].wrapping_add(
            after.h@[child.pos(pair.2 as int, a2, b)],
        ) == parent.h@[parent.pos(pair.0 as int, a1, b)],
{
}

} // verus!
