//! The union of border grids, and how its cells refine the cells of a source.
use crate::data::bin::bin_of;
use crate::data::grid::{
    borders_below, dedup_ascending, distinct_of, lemma_borders_below, lemma_distinct_ascends,
    lemma_value_sorted, total_ascending, total_sorted, unit_weight, value_sorted,
};
use crate::data::{borders_ascend, BorderGrid, GridView};
use crate::error::{answers, first_fault, internal, lemma_first_fault, Fault, PbError};
use crate::float::F32;
use vstd::prelude::*;

verus! {

/// How many of the borders do not exceed `x`.
pub open spec fn count_at_most(borders: Seq<F32>, x: F32) -> nat
    decreases borders.len(),
{
    if borders.len() == 0 {
        0
    } else {
        count_at_most(borders.drop_last(), x) + if borders.last().at_most(x) {
            1nat
        } else {
            0nat
        }
    }
}

/// No more borders are counted than there are.
pub proof fn lemma_count_bound(borders: Seq<F32>, x: F32)
    ensures
        count_at_most(borders, x) <= borders.len(),
    decreases borders.len(),
{
    if borders.len() > 0 {
        lemma_count_bound(borders.drop_last(), x);
    }
}

/// Where exactly the first `n` borders do not exceed `x`, the count is `n`.
proof fn lemma_count_is(borders: Seq<F32>, x: F32, n: nat)
    requires
        n <= borders.len(),
        forall|i: int| 0 <= i < borders.len() ==> ((#[trigger] borders[i]).at_most(x) <==> i < n),
    ensures
        count_at_most(borders, x) == n,
    decreases borders.len(),
{
    if borders.len() > 0 {
        let rest = borders.drop_last();
        let last = borders.len() - 1;
        assert(borders[last].at_most(x) <==> last < n);
        let m = if n == borders.len() {
            (n - 1) as nat
        } else {
            n
        };
        assert forall|i: int| 0 <= i < rest.len() implies ((#[trigger] rest[i]).at_most(x) <==> i < m) by {
            assert(rest[i] == borders[i]);
        }
        lemma_count_is(rest, x, m);
    }
}

/// The source cell that a cell of the union refines: the missing and the first
/// data cell map to themselves, another cell by its lower border.
pub open spec fn mapped_cell(union: Seq<F32>, source: Seq<F32>, cell: int) -> int {
    if cell < 2 {
        cell
    } else {
        count_at_most(source, union[cell - 2]) as int + 1
    }
}

/// Why a cell of the union has no source cell.
pub open spec fn map_fault(union: Seq<F32>, source: GridView, cell: int) -> Option<Fault> {
    if cell >= 2 && cell - 2 >= union.len() {
        Some(Fault::Internal("union cell escaped border list"@))
    } else if cell >= 2 && mapped_cell(union, source.borders, cell) >= source.n_bins {
        Some(Fault::Internal("mapped source cell escaped grid"@))
    } else {
        None
    }
}

/// The source cell that a cell of the union refines.
pub fn map_union_cell_to_source(union: &BorderGrid, source: &BorderGrid, cell: usize) -> (r: Result<
    usize,
    PbError,
>)
    ensures
        answers(r, map_fault(union.borders@, source@, cell as int)),
        r is Ok ==> r->Ok_0 as int == mapped_cell(union.borders@, source.borders@, cell as int),
{
    if cell < 2 {
        return Ok(cell);
    }
    if cell - 2 >= union.borders.len() {
        return Err(internal("union cell escaped border list"));
    }
    let lower: F32 = union.borders[cell - 2];
    let mut n: usize = 0;
    let mut i: usize = 0;
    while i < source.borders.len()
        invariant
            i <= source.borders.len(),
            n <= i,
            n == count_at_most(source.borders@.take(i as int), lower),
        decreases source.borders.len() - i,
    {
        proof {
            assert(source.borders@.take(i + 1).drop_last() =~= source.borders@.take(i as int));
        }
        if source.borders[i].le(&lower) {
            n = n + 1;
        }
        i = i + 1;
    }
    assert(source.borders@.take(i as int) =~= source.borders@);
    if n >= 0xffff || n + 1 >= source.n_bins as usize {
        return Err(internal("mapped source cell escaped grid"));
    }
    Ok(n + 1)
}

/// Whether every border of the source is a border of the union.
pub open spec fn covers(union: Seq<F32>, source: Seq<F32>) -> bool {
    forall|i: int| 0 <= i < source.len() ==> has_border(union, #[trigger] source[i])
}

/// Whether some border equals `b` as a number.
pub open spec fn has_border(borders: Seq<F32>, b: F32) -> bool {
    exists|j: int| 0 <= j < borders.len() && (#[trigger] borders[j]).same(b)
}

/// A union loses nothing: the source cell of a value is the source cell that
/// the value's union cell maps to.
pub proof fn law_union_is_lossless(v: F32, union: GridView, source: GridView)
    requires
        borders_ascend(union.borders),
        borders_ascend(source.borders),
        covers(union.borders, source.borders),
        union.missing_bin == 0,
        source.missing_bin == 0,
    ensures
        mapped_cell(union.borders, source.borders, bin_of(v, union)) == bin_of(v, source),
{
    if !v.nan() {
        let u = union.borders;
        let s = source.borders;
        lemma_borders_below(u, v);
        lemma_borders_below(s, v);
        let k = borders_below(u, v);
        let n = borders_below(s, v);
        if k == 0 {
            if n > 0 {
                assert(has_border(u, s[0]));
                let j = choose|j: int| 0 <= j < u.len() && (#[trigger] u[j]).same(s[0]);
                assert(s[0].below(v));
                assert(u[j].below(v));
            }
        } else {
            let lower = u[k - 1];
            assert(lower.below(v));
            assert forall|i: int| 0 <= i < s.len() implies ((#[trigger] s[i]).at_most(lower) <==> i
                < n) by {
                assert(has_border(u, s[i]));
                let j = choose|j: int| 0 <= j < u.len() && (#[trigger] u[j]).same(s[i]);
                if i < n {
                    assert(s[i].below(v));
                    assert(u[j].below(v));
                    assert(j < k);
                    if j < k - 1 {
                        assert(u[j].key() < u[k - 1].key());
                    }
                } else if s[i].at_most(lower) {
                    assert(s[i].below(v));
                }
            }
            lemma_count_is(s, lower, n);
        }
    }
}

/// Every cell of the source is refined by some cell of a union that covers it.
pub proof fn law_every_source_cell_is_refined(union: Seq<F32>, source: Seq<F32>, s: int) -> (c: int)
    requires
        borders_ascend(union),
        borders_ascend(source),
        covers(union, source),
        0 <= s < source.len() + 2,
    ensures
        0 <= c < union.len() + 2,
        mapped_cell(union, source, c) == s,
{
    if s < 2 {
        s
    } else {
        let b = source[s - 2];
        assert(has_border(union, b));
        let i = choose|i: int| 0 <= i < union.len() && (#[trigger] union[i]).same(b);
        assert forall|k: int| 0 <= k < source.len() implies ((#[trigger] source[k]).at_most(union[i])
            <==> k < s - 1) by {
            if k < s - 2 {
                assert(source[k].key() < source[s - 2].key());
            } else if k > s - 2 {
                assert(source[s - 2].key() < source[k].key());
            }
        }
        lemma_count_is(source, union[i], (s - 1) as nat);
        i + 2
    }
}

/// A finer cell never maps to an earlier source cell.
pub proof fn law_map_is_monotone(union: Seq<F32>, source: Seq<F32>, a: int, b: int)
    requires
        borders_ascend(union),
        0 <= a <= b < union.len() + 2,
    ensures
        mapped_cell(union, source, a) <= mapped_cell(union, source, b),
{
    if a >= 2 && a < b {
        assert(union[a - 2].key() < union[b - 2].key());
        lemma_count_monotone(source, union[a - 2], union[b - 2]);
    }
}

proof fn lemma_count_monotone(borders: Seq<F32>, x: F32, y: F32)
    requires
        x.at_most(y),
    ensures
        count_at_most(borders, x) <= count_at_most(borders, y),
    decreases borders.len(),
{
    if borders.len() > 0 {
        lemma_count_monotone(borders.drop_last(), x, y);
    }
}

/// How many of the first `n` union cells refine source cell `s`.
pub open spec fn fanout_of(union: Seq<F32>, source: Seq<F32>, s: int, n: nat) -> nat
    decreases n,
{
    if n == 0 {
        0
    } else {
        fanout_of(union, source, s, (n - 1) as nat) + if mapped_cell(union, source, n - 1) == s {
            1nat
        } else {
            0nat
        }
    }
}

/// The sum of the fanouts of the first `m` source cells.
pub open spec fn fanout_sum(union: Seq<F32>, source: Seq<F32>, n: nat, m: nat) -> nat
    decreases m,
{
    if m == 0 {
        0
    } else {
        fanout_sum(union, source, n, (m - 1) as nat) + fanout_of(union, source, m - 1, n)
    }
}

/// Splitting conserves: the fanouts of all source cells sum to the union cells.
pub proof fn law_fanouts_sum_to_union_cells(union: Seq<F32>, source: Seq<F32>, n: nat, m: nat)
    requires
        forall|c: int| 0 <= c < n ==> 0 <= #[trigger] mapped_cell(union, source, c) < m,
    ensures
        fanout_sum(union, source, n, m) == n,
    decreases n,
{
    if n == 0 {
        lemma_no_cells(union, source, m);
    } else {
        let last = mapped_cell(union, source, n - 1);
        law_fanouts_sum_to_union_cells(union, source, (n - 1) as nat, m);
        lemma_one_more(union, source, n, m);
        assert(0 <= last < m);
    }
}

proof fn lemma_no_cells(union: Seq<F32>, source: Seq<F32>, m: nat)
    ensures
        fanout_sum(union, source, 0, m) == 0,
    decreases m,
{
    if m > 0 {
        lemma_no_cells(union, source, (m - 1) as nat);
    }
}

proof fn lemma_one_more(union: Seq<F32>, source: Seq<F32>, n: nat, m: nat)
    requires
        n > 0,
        0 <= mapped_cell(union, source, n - 1),
    ensures
        fanout_sum(union, source, n, m) == fanout_sum(union, source, (n - 1) as nat, m) + (
        if mapped_cell(union, source, n - 1) < m {
            1nat
        } else {
            0nat
        }),
    decreases m,
{
    if m > 0 {
        lemma_one_more(union, source, n, (m - 1) as nat);
    }
}

/// Why a union cell cannot be counted.
pub open spec fn fanout_fault(union: Seq<F32>, source: GridView, c: int) -> Option<Fault> {
    if map_fault(union, source, c) is Some {
        map_fault(union, source, c)
    } else if mapped_cell(union, source.borders, c) >= source.n_bins {
        Some(Fault::Internal("fanout source cell escaped"@))
    } else {
        None
    }
}

/// For each source cell, how many union cells refine it.
pub fn source_fanout(union: &BorderGrid, source: &BorderGrid) -> (r: Result<Vec<usize>, PbError>)
    ensures
        answers(
            r,
            first_fault(
                |c: int| fanout_fault(union.borders@, source@, c),
                0,
                union.n_bins as int,
            ),
        ),
        r is Ok ==> r->Ok_0@.len() == source.n_bins && forall|s: int|
            0 <= s < source.n_bins ==> #[trigger] r->Ok_0@[s] == fanout_of(
                union.borders@,
                source.borders@,
                s,
                union.n_bins as nat,
            ),
{
    let ghost f = |c: int| fanout_fault(union.borders@, source@, c);
    let n: usize = source.n_bins as usize;
    let mut fanout: Vec<usize> = Vec::with_capacity(n);
    let mut i: usize = 0;
    while i < n
        invariant
            i <= n,
            fanout@.len() == i,
            forall|s: int| 0 <= s < i ==> #[trigger] fanout@[s] == 0,
        decreases n - i,
    {
        fanout.push(0);
        i = i + 1;
    }
    let total: usize = union.n_bins as usize;
    let mut c: usize = 0;
    while c < total
        invariant
            c <= total,
            total == union.n_bins,
            n == source.n_bins,
            fanout@.len() == n,
            f == (|c: int| fanout_fault(union.borders@, source@, c)),
            forall|j: int| 0 <= j < c ==> (#[trigger] f(j)) is None,
            forall|s: int|
                0 <= s < n ==> (#[trigger] fanout@[s]) == fanout_of(
                    union.borders@,
                    source.borders@,
                    s,
                    c as nat,
                ) && fanout@[s] <= c,
        decreases total - c,
    {
        proof {
            lemma_first_fault(f, 0, c as int, total as int);
        }
        match map_union_cell_to_source(union, source, c) {
            Err(e) => {
                assert(f(c as int) is Some);
                return Err(e);
            },
            Ok(s) => {
                if s >= n {
                    assert(f(c as int) is Some);
                    return Err(internal("fanout source cell escaped"));
                }
                assert(f(c as int) is None);
                let v: usize = fanout[s];
                fanout.set(s, v + 1);
            },
        }
        c = c + 1;
    }
    proof {
        lemma_first_fault(f, 0, total as int, total as int);
    }
    Ok(fanout)
}

/// Every finite number is a border of the sorted distinct ones.
pub proof fn lemma_distinct_covers(s: Seq<F32>, i: int)
    requires
        total_ascending(s),
        forall|j: int| 0 <= j < s.len() ==> (#[trigger] s[j]).finite(),
        0 <= i < s.len(),
    ensures
        has_border(distinct_of(s), s[i]),
    decreases s.len(),
{
    let rest = s.drop_last();
    let before = distinct_of(rest);
    let d = distinct_of(s);
    assert(total_ascending(rest));
    assert forall|j: int| 0 <= j < rest.len() implies (#[trigger] rest[j]).finite() by {
        assert(rest[j] == s[j]);
    }
    if i < rest.len() {
        assert(rest[i] == s[i]);
        lemma_distinct_covers(rest, i);
        let j = choose|j: int| 0 <= j < before.len() && (#[trigger] before[j]).same(s[i]);
        assert(d[j] == before[j]);
    } else {
        lemma_distinct_ascends(s);
        assert(d[d.len() - 1].same(s[i]));
    }
}

/// The borders of a union: those of all grids, sorted, without duplicates.
pub fn union_borders(all: &Vec<F32>) -> (d: Vec<F32>)
    requires
        forall|i: int| 0 <= i < all@.len() ==> (#[trigger] all@[i]).finite(),
    ensures
        d@ == distinct_of(total_sorted(all@)),
        borders_ascend(d@),
        d@.len() <= all@.len(),
        covers(d@, all@),
        forall|i: int| 0 <= i < d@.len() ==> all@.contains(#[trigger] d@[i]),
{
    let d = dedup_ascending(all);
    proof {
        let rows = all@.map_values(|v: F32| (v, unit_weight()));
        lemma_value_sorted(rows);
        let sorted = total_sorted(all@);
        assert forall|j: int| 0 <= j < sorted.len() implies (#[trigger] sorted[j]).finite()
            && all@.contains(sorted[j]) by {
            assert(rows.contains(value_sorted(rows)[j]));
            let w = choose|w: int| 0 <= w < rows.len() && rows[w] == value_sorted(rows)[j];
            assert(all@[w] == sorted[j]);
        }
        lemma_distinct_ascends(sorted);
        assert forall|i: int| 0 <= i < all@.len() implies has_border(d@, #[trigger] all@[i]) by {
            assert(rows[i] == (all@[i], unit_weight()));
            assert(rows.contains(rows[i]));
            assert(value_sorted(rows).contains(rows[i]));
            let j = choose|j: int|
                0 <= j < value_sorted(rows).len() && value_sorted(rows)[j] == rows[i];
            assert(sorted[j] == all@[i]);
            lemma_distinct_covers(sorted, j);
        }
        assert forall|i: int| 0 <= i < d@.len() implies all@.contains(#[trigger] d@[i]) by {
            assert(sorted.contains(d@[i]));
        }
    }
    d
}

/// A union cell past the first two maps to the cell after the source borders that
/// are not above its lower border.
pub proof fn law_union_cells_count_the_borders_below(union: Seq<F32>, source: Seq<F32>, cell: int)
    requires
        0 <= cell < union.len() + 2,
    ensures
        cell == 0 || cell == 1 ==> mapped_cell(union, source, cell) == cell,
        cell >= 2 ==> mapped_cell(union, source, cell) == 1 + source.filter(
            |b: F32| !b.nan() && !union[cell - 2].nan() && b.key() <= union[cell - 2].key(),
        ).len(),
{
    if cell >= 2 {
        lemma_counts_by_filter(source, union[cell - 2]);
    }
}

/// The borders that are not above a number, counted by a filter.
proof fn lemma_counts_by_filter(borders: Seq<F32>, x: F32)
    ensures
        count_at_most(borders, x) == borders.filter(
            |b: F32| !b.nan() && !x.nan() && b.key() <= x.key(),
        ).len(),
    decreases borders.len(),
{
    reveal(Seq::filter);
    if borders.len() > 0 {
        lemma_counts_by_filter(borders.drop_last(), x);
    }
}

/// The fanout of a source cell is the number of union cells that map to it.
pub proof fn law_fanouts_count_union_cells(union: Seq<F32>, source: Seq<F32>, s: int, n: nat)
    ensures
        fanout_of(union, source, s, n) == Seq::new(n, |c: int| mapped_cell(union, source, c)).filter(
            |m: int| m == s,
        ).len(),
    decreases n,
{
    reveal(Seq::filter);
    let all = Seq::new(n, |c: int| mapped_cell(union, source, c));
    if n > 0 {
        law_fanouts_count_union_cells(union, source, s, (n - 1) as nat);
        assert(all.drop_last() =~= Seq::new(
            (n - 1) as nat,
            |c: int| mapped_cell(union, source, c),
        ));
    }
}

/// A union cell is mapped exactly when it is one of the union's cells and the
/// source grid has the cell that it maps to.
pub proof fn law_mapped_cells_exist(union: Seq<F32>, source: GridView, cell: int)
    requires
        source.n_bins == source.borders.len() + 2,
        0 <= cell,
    ensures
        map_fault(union, source, cell) is None <==> cell < union.len() + 2 || cell < 2,
{
    if 2 <= cell < union.len() + 2 {
        lemma_count_bound(source.borders, union[cell - 2]);
    }
}

/// A union cell is counted exactly when it is one of the union's cells.
pub proof fn law_counted_cells_exist(union: Seq<F32>, source: GridView, cell: int)
    requires
        source.n_bins == source.borders.len() + 2,
        0 <= cell,
    ensures
        fanout_fault(union, source, cell) is None <==> cell < union.len() + 2,
{
    law_mapped_cells_exist(union, source, cell);
    if 2 <= cell < union.len() + 2 {
        lemma_count_bound(source.borders, union[cell - 2]);
    }
}

} // verus!
