//! Training encodings without leakage: which rows' terms a row is encoded from.
//! A plan lists, step by step, which sums a row's term joins and which sums a row
//! is encoded from; the caller keeps the sums.
use crate::backend::Stage;
use crate::cat::fit::{
    fold_cell, fold_of, kfold_of_rows, law_fold_cells_are_disjoint, order_fault, row_order,
};
use crate::draw::is_seeded_order;
use crate::error::{answers, internal, Fault, PbError};
use crate::text::{dec, number_last};
use vstd::prelude::*;

verus! {

/// One step of a plan. Sums are kept per level, and per cell where there are cells.
#[derive(Debug, Clone, Copy, PartialEq, Eq, Structural)]
pub enum TallyStep {
    /// The row's term joins the sum of its level, and that of its cell.
    Add { row: usize, level: usize, cell: Option<usize> },
    /// The row is encoded from the sum of its level without that of its cell.
    Encode { row: usize, level: usize, cell: Option<usize> },
}

/// How the rows of a column are encoded: the steps, and the number of cells.
#[derive(Debug, Clone, PartialEq)]
pub struct TallyPlan {
    pub n_cells: usize,
    pub steps: Vec<TallyStep>,
}

/// All rows join the sums, then each is encoded without its own cell.
pub open spec fn held_out_steps(ids: Seq<u32>, cells: Seq<usize>) -> Seq<TallyStep> {
    Seq::new(
        ids.len(),
        |r: int|
            TallyStep::Add {
                row: r as usize,
                level: ids[r] as usize,
                cell: Some(cells[r]),
            },
    ) + Seq::new(
        ids.len(),
        |r: int|
            TallyStep::Encode {
                row: r as usize,
                level: ids[r] as usize,
                cell: Some(cells[r]),
            },
    )
}

/// Each row is encoded from the rows before it, and then joins the sums.
pub open spec fn prefix_steps(ids: Seq<u32>, order: Seq<u32>) -> Seq<TallyStep> {
    Seq::new(
        2 * order.len(),
        |i: int|
            {
                let row = order[i / 2] as usize;
                let level = ids[order[i / 2] as int] as usize;
                if i % 2 == 0 {
                    TallyStep::Encode { row, level, cell: None }
                } else {
                    TallyStep::Add { row, level, cell: None }
                }
            },
    )
}

/// The cell of each row in cross-fitting: its fold and its level.
pub open spec fn fold_cells(ids: Seq<u32>, n_ids: nat, seed: u64, k: u32) -> Seq<usize> {
    Seq::new(
        ids.len(),
        |r: int|
            fold_cell(fold_of(seed, k, r as u32) as int, n_ids as int, ids[r] as int) as usize,
    )
}

/// The cell of each row in leaving one out: its own.
pub open spec fn row_cells(n: nat) -> Seq<usize> {
    Seq::new(n, |r: int| r as usize)
}

/// The sum of a level after `n` steps, for these terms of the rows.
pub open spec fn level_sum(steps: Seq<TallyStep>, n: nat, terms: Seq<int>, level: usize) -> int
    decreases n,
{
    if n == 0 {
        0
    } else {
        level_sum(steps, (n - 1) as nat, terms, level) + match steps[n - 1] {
            TallyStep::Add { row, level: l, .. } => if l == level {
                terms[row as int]
            } else {
                0
            },
            TallyStep::Encode { .. } => 0,
        }
    }
}

/// The sum of a cell after `n` steps.
pub open spec fn cell_sum(steps: Seq<TallyStep>, n: nat, terms: Seq<int>, cell: usize) -> int
    decreases n,
{
    if n == 0 {
        0
    } else {
        cell_sum(steps, (n - 1) as nat, terms, cell) + match steps[n - 1] {
            TallyStep::Add { row, cell: c, .. } => if c == Some(cell) {
                terms[row as int]
            } else {
                0
            },
            TallyStep::Encode { .. } => 0,
        }
    }
}

/// What the row of an encoding step is encoded from.
pub open spec fn value_read(steps: Seq<TallyStep>, i: int, terms: Seq<int>) -> int {
    match steps[i] {
        TallyStep::Encode { level, cell, .. } => level_sum(steps, i as nat, terms, level)
            - match cell {
            Some(c) => cell_sum(steps, i as nat, terms, c),
            None => 0,
        },
        TallyStep::Add { .. } => 0,
    }
}

/// The sum of the terms of the first `n` rows that count.
pub open spec fn sum_over(counts: spec_fn(int) -> bool, terms: Seq<int>, n: nat) -> int
    decreases n,
{
    if n == 0 {
        0
    } else {
        sum_over(counts, terms, (n - 1) as nat) + if counts(n - 1) {
            terms[n - 1]
        } else {
            0
        }
    }
}

proof fn lemma_sum_over_same(
    f: spec_fn(int) -> bool,
    g: spec_fn(int) -> bool,
    a: Seq<int>,
    b: Seq<int>,
    n: nat,
)
    requires
        forall|s: int| 0 <= s < n ==> #[trigger] f(s) == g(s) && (f(s) ==> a[s] == b[s]),
    ensures
        sum_over(f, a, n) == sum_over(g, b, n),
    decreases n,
{
    if n > 0 {
        lemma_sum_over_same(f, g, a, b, (n - 1) as nat);
        assert(f(n - 1) == g(n - 1));
    }
}

proof fn lemma_sum_over_rest(
    all: spec_fn(int) -> bool,
    own: spec_fn(int) -> bool,
    rest: spec_fn(int) -> bool,
    terms: Seq<int>,
    n: nat,
)
    requires
        forall|s: int| 0 <= s < n ==> (#[trigger] own(s) ==> all(s)),
        forall|s: int| 0 <= s < n ==> #[trigger] rest(s) == (all(s) && !own(s)),
    ensures
        sum_over(all, terms, n) - sum_over(own, terms, n) == sum_over(rest, terms, n),
    decreases n,
{
    if n > 0 {
        lemma_sum_over_rest(all, own, rest, terms, (n - 1) as nat);
        assert(rest(n - 1) == (all(n - 1) && !own(n - 1)));
        assert(own(n - 1) ==> all(n - 1));
    }
}

/// After `m` of the joining steps, a sum holds the rows that joined it.
proof fn lemma_joined(ids: Seq<u32>, cells: Seq<usize>, terms: Seq<int>, level: u32, cell: usize, m: nat)
    requires
        cells.len() == ids.len(),
        m <= ids.len() <= usize::MAX,
    ensures
        level_sum(held_out_steps(ids, cells), m, terms, level as usize) == sum_over(
            |s: int| ids[s] == level,
            terms,
            m,
        ),
        cell_sum(held_out_steps(ids, cells), m, terms, cell) == sum_over(
            |s: int| cells[s] == cell,
            terms,
            m,
        ),
    decreases m,
{
    if m > 0 {
        lemma_joined(ids, cells, terms, level, cell, (m - 1) as nat);
    }
}

/// Encoding steps change no sum.
proof fn lemma_reading(ids: Seq<u32>, cells: Seq<usize>, terms: Seq<int>, level: usize, cell: usize, m: nat)
    requires
        cells.len() == ids.len(),
        m <= ids.len(),
    ensures
        level_sum(held_out_steps(ids, cells), ids.len() + m, terms, level) == level_sum(
            held_out_steps(ids, cells),
            ids.len(),
            terms,
            level,
        ),
        cell_sum(held_out_steps(ids, cells), ids.len() + m, terms, cell) == cell_sum(
            held_out_steps(ids, cells),
            ids.len(),
            terms,
            cell,
        ),
    decreases m,
{
    if m > 0 {
        lemma_reading(ids, cells, terms, level, cell, (m - 1) as nat);
        assert(held_out_steps(ids, cells)[ids.len() + m - 1] is Encode);
    }
}

/// A row held out with its cell is encoded from the other rows of its level.
proof fn lemma_held_out(ids: Seq<u32>, cells: Seq<usize>, terms: Seq<int>, r: int)
    requires
        cells.len() == ids.len(),
        ids.len() <= usize::MAX,
        0 <= r < ids.len(),
        forall|s: int| 0 <= s < ids.len() && #[trigger] cells[s] == cells[r] ==> ids[s] == ids[r],
    ensures
        value_read(held_out_steps(ids, cells), ids.len() + r, terms) == sum_over(
            |s: int| ids[s] == ids[r] && cells[s] != cells[r],
            terms,
            ids.len(),
        ),
{
    let level = ids[r];
    let cell = cells[r];
    lemma_joined(ids, cells, terms, level, cell, ids.len());
    lemma_reading(ids, cells, terms, level as usize, cell, r as nat);
    lemma_sum_over_rest(
        |s: int| ids[s] == level,
        |s: int| cells[s] == cell,
        |s: int| ids[s] == ids[r] && cells[s] != cells[r],
        terms,
        ids.len(),
    );
    assert(held_out_steps(ids, cells)[ids.len() + r] == (TallyStep::Encode {
        row: r as usize,
        level: level as usize,
        cell: Some(cell),
    }));
}

/// In cross-fitting a row is encoded from the rows of its level in the other
/// folds, and from no others.
pub proof fn law_cross_fitting_sees_other_folds(
    ids: Seq<u32>,
    n_ids: nat,
    seed: u64,
    k: u32,
    terms: Seq<int>,
    r: int,
)
    requires
        2 <= k,
        k * n_ids <= usize::MAX,
        ids.len() <= usize::MAX,
        ids.len() <= 0x1_0000_0000,
        forall|i: int| 0 <= i < ids.len() ==> (#[trigger] ids[i]) < n_ids,
        0 <= r < ids.len(),
    ensures
        value_read(held_out_steps(ids, fold_cells(ids, n_ids, seed, k)), ids.len() + r, terms)
            == sum_over(
            |s: int|
                ids[s] == ids[r] && fold_of(seed, k, s as u32) != fold_of(seed, k, r as u32),
            terms,
            ids.len(),
        ),
{
    let cells = fold_cells(ids, n_ids, seed, k);
    assert forall|s: int| 0 <= s < ids.len() implies ((#[trigger] cells[s] == cells[r]) == (ids[s]
        == ids[r] && fold_of(seed, k, s as u32) == fold_of(seed, k, r as u32))) by {
        let f = fold_of(seed, k, s as u32) as int;
        let g = fold_of(seed, k, r as u32) as int;
        lemma_fold_cell_fits(f, n_ids as int, ids[s] as int, k as int);
        lemma_fold_cell_fits(g, n_ids as int, ids[r] as int, k as int);
        if cells[s] == cells[r] {
            law_fold_cells_are_disjoint(n_ids as int, f, ids[s] as int, g, ids[r] as int);
        }
    }
    lemma_held_out(ids, cells, terms, r);
    lemma_sum_over_same(
        |s: int| ids[s] == ids[r] && cells[s] != cells[r],
        |s: int| ids[s] == ids[r] && fold_of(seed, k, s as u32) != fold_of(seed, k, r as u32),
        terms,
        terms,
        ids.len(),
    );
}

proof fn lemma_fold_cell_fits(f: int, n_ids: int, id: int, k: int)
    requires
        0 <= f < k,
        0 <= id < n_ids,
    ensures
        0 <= fold_cell(f, n_ids, id) < k * n_ids,
{
    assert(0 <= f * n_ids + id < k * n_ids) by (nonlinear_arith)
        requires
            0 <= f < k,
            0 <= id < n_ids,
    ;
}

/// Leaving one out, a row is encoded from all other rows of its level.
pub proof fn law_leave_one_out_sees_the_others(ids: Seq<u32>, terms: Seq<int>, r: int)
    requires
        ids.len() <= usize::MAX,
        0 <= r < ids.len(),
    ensures
        value_read(held_out_steps(ids, row_cells(ids.len())), ids.len() + r, terms) == sum_over(
            |s: int| ids[s] == ids[r] && s != r,
            terms,
            ids.len(),
        ),
{
    let cells = row_cells(ids.len());
    lemma_held_out(ids, cells, terms, r);
    lemma_sum_over_same(
        |s: int| ids[s] == ids[r] && cells[s] != cells[r],
        |s: int| ids[s] == ids[r] && s != r,
        terms,
        terms,
        ids.len(),
    );
}

/// The terms of the first `n` rows of an order that have this level.
pub open spec fn prefix_sum(ids: Seq<u32>, order: Seq<u32>, terms: Seq<int>, level: u32, n: nat) -> int
    decreases n,
{
    if n == 0 {
        0
    } else {
        prefix_sum(ids, order, terms, level, (n - 1) as nat) + if ids[order[n - 1] as int] == level {
            terms[order[n - 1] as int]
        } else {
            0
        }
    }
}

proof fn lemma_prefix(ids: Seq<u32>, order: Seq<u32>, terms: Seq<int>, level: u32, n: nat)
    requires
        n <= order.len(),
    ensures
        level_sum(prefix_steps(ids, order), 2 * n, terms, level as usize) == prefix_sum(
            ids,
            order,
            terms,
            level,
            n,
        ),
    decreases n,
{
    if n > 0 {
        lemma_prefix(ids, order, terms, level, (n - 1) as nat);
        let steps = prefix_steps(ids, order);
        let at = (2 * n - 1) as nat;
        assert(at / 2 == n - 1 && at % 2 == 1);
        assert((at - 1) / 2 == n - 1 && (at - 1) % 2 == 0);
        assert(level_sum(steps, at, terms, level as usize) == level_sum(
            steps,
            (at - 1) as nat,
            terms,
            level as usize,
        ));
    }
}

/// In a random order a row is encoded from the earlier rows of its level, and
/// from no others.
pub proof fn law_ordered_encoding_sees_earlier_rows(
    ids: Seq<u32>,
    order: Seq<u32>,
    terms: Seq<int>,
    i: int,
)
    requires
        0 <= i < order.len(),
    ensures
        value_read(prefix_steps(ids, order), 2 * i, terms) == prefix_sum(
            ids,
            order,
            terms,
            ids[order[i] as int],
            i as nat,
        ),
{
    lemma_prefix(ids, order, terms, ids[order[i] as int], i as nat);
    assert((2 * i) / 2 == i && (2 * i) % 2 == 0);
}

proof fn lemma_prefix_sum_same(
    ids: Seq<u32>,
    order: Seq<u32>,
    a: Seq<int>,
    b: Seq<int>,
    level: u32,
    n: nat,
)
    requires
        n <= order.len(),
        forall|j: int| 0 <= j < n ==> a[(#[trigger] order[j]) as int] == b[order[j] as int],
    ensures
        prefix_sum(ids, order, a, level, n) == prefix_sum(ids, order, b, level, n),
    decreases n,
{
    if n > 0 {
        lemma_prefix_sum_same(ids, order, a, b, level, (n - 1) as nat);
    }
}

/// No row's own term enters its encoding, whatever the scheme: terms that differ
/// in one row alone encode that row alike.
pub proof fn law_own_term_is_unseen(
    ids: Seq<u32>,
    n_ids: nat,
    seed: u64,
    k: u32,
    order: Seq<u32>,
    a: Seq<int>,
    b: Seq<int>,
    r: int,
    i: int,
)
    requires
        2 <= k,
        k * n_ids <= usize::MAX,
        ids.len() <= usize::MAX,
        ids.len() <= 0x1_0000_0000,
        forall|j: int| 0 <= j < ids.len() ==> (#[trigger] ids[j]) < n_ids,
        order.no_duplicates(),
        0 <= i < order.len(),
        order[i] == r,
        0 <= r < ids.len(),
        forall|s: int| s != r ==> #[trigger] a[s] == b[s],
    ensures
        ({
            let folds = held_out_steps(ids, fold_cells(ids, n_ids, seed, k));
            value_read(folds, ids.len() + r, a) == value_read(folds, ids.len() + r, b)
        }),
        ({
            let loo = held_out_steps(ids, row_cells(ids.len()));
            value_read(loo, ids.len() + r, a) == value_read(loo, ids.len() + r, b)
        }),
        value_read(prefix_steps(ids, order), 2 * i, a) == value_read(
            prefix_steps(ids, order),
            2 * i,
            b,
        ),
{
    law_cross_fitting_sees_other_folds(ids, n_ids, seed, k, a, r);
    law_cross_fitting_sees_other_folds(ids, n_ids, seed, k, b, r);
    let other = |s: int|
        ids[s] == ids[r] && fold_of(seed, k, s as u32) != fold_of(seed, k, r as u32);
    lemma_sum_over_same(other, other, a, b, ids.len());
    law_leave_one_out_sees_the_others(ids, a, r);
    law_leave_one_out_sees_the_others(ids, b, r);
    let rest = |s: int| ids[s] == ids[r] && s != r;
    lemma_sum_over_same(rest, rest, a, b, ids.len());
    law_ordered_encoding_sees_earlier_rows(ids, order, a, i);
    law_ordered_encoding_sees_earlier_rows(ids, order, b, i);
    assert forall|j: int| 0 <= j < i implies a[(#[trigger] order[j]) as int] == b[order[j] as int] by {
        assert(order[j] != order[i]);
    }
    lemma_prefix_sum_same(ids, order, a, b, ids[order[i] as int], i as nat);
}

/// Why rows cannot be cross-fitted.
pub open spec fn cross_fit_fault(k: u32, n_ids: nat, n: nat) -> Option<Fault> {
    if k < 2 {
        Some(
            Fault::InvalidConfig("KFold target statistics require k >= 2, got "@ + dec(k as nat)),
        )
    } else if k * n_ids > usize::MAX {
        Some(Fault::Internal("kfold accumulator size overflow"@))
    } else if n > 0x1_0000_0000 {
        Some(Fault::InvalidInput("categorical fit supports at most u32::MAX rows"@))
    } else {
        None
    }
}

/// All rows join their sums, then each is encoded without its cell.
fn held_out(ids: &Vec<u32>, cells: &Vec<usize>) -> (steps: Vec<TallyStep>)
    requires
        cells@.len() == ids@.len(),
    ensures
        steps@ == held_out_steps(ids@, cells@),
{
    let n: usize = ids.len();
    let mut steps: Vec<TallyStep> = Vec::new();
    let mut row: usize = 0;
    while row < n
        invariant
            row <= n,
            n == ids@.len(),
            cells@.len() == n,
            steps@ =~= held_out_steps(ids@, cells@).take(row as int),
        decreases n - row,
    {
        steps.push(TallyStep::Add { row, level: ids[row] as usize, cell: Some(cells[row]) });
        row = row + 1;
    }
    row = 0;
    while row < n
        invariant
            row <= n,
            n == ids@.len(),
            cells@.len() == n,
            steps@ =~= held_out_steps(ids@, cells@).take(n + row),
        decreases n - row,
    {
        steps.push(TallyStep::Encode { row, level: ids[row] as usize, cell: Some(cells[row]) });
        row = row + 1;
    }
    steps
}

/// Plans cross-fitting: each row is encoded without its fold.
pub fn cross_fit_plan(ids: &Vec<u32>, n_ids: usize, seed: u64, k: u32) -> (r: Result<
    TallyPlan,
    PbError,
>)
    requires
        forall|i: int| 0 <= i < ids@.len() ==> (#[trigger] ids@[i]) < n_ids,
    ensures
        answers(r, cross_fit_fault(k, n_ids as nat, ids@.len())),
        r is Ok ==> r->Ok_0.n_cells == k * n_ids && r->Ok_0.steps@ == held_out_steps(
            ids@,
            fold_cells(ids@, n_ids as nat, seed, k),
        ),
        r is Ok ==> forall|i: int|
            0 <= i < ids@.len() ==> #[trigger] fold_cells(ids@, n_ids as nat, seed, k)[i] < k * n_ids,
{
    if k < 2 {
        let what = number_last("KFold target statistics require k >= 2, got ", k as u64);
        return Err(PbError::InvalidConfig { what });
    }
    let n_cells: usize = match (k as usize).checked_mul(n_ids) {
        Some(c) => c,
        None => return Err(internal("kfold accumulator size overflow")),
    };
    let folds = match kfold_of_rows(seed, k, ids.len()) {
        Ok(f) => f,
        Err(e) => return Err(e),
    };
    let mut cells: Vec<usize> = Vec::with_capacity(ids.len());
    let mut row: usize = 0;
    while row < ids.len()
        invariant
            row <= ids@.len(),
            folds@.len() == ids@.len(),
            n_cells == k * n_ids,
            forall|i: int| 0 <= i < ids@.len() ==> (#[trigger] ids@[i]) < n_ids,
            forall|j: int|
                0 <= j < ids@.len() ==> #[trigger] folds@[j] == fold_of(seed, k, j as u32)
                    && folds@[j] < k,
            cells@ =~= fold_cells(ids@, n_ids as nat, seed, k).take(row as int),
            forall|j: int| 0 <= j < row ==> (#[trigger] cells@[j]) < n_cells,
        decreases ids.len() - row,
    {
        let fold: usize = folds[row] as usize;
        let id: usize = ids[row] as usize;
        proof {
            lemma_fold_cell_fits(fold as int, n_ids as int, id as int, k as int);
            assert(0 <= fold * n_ids <= fold * n_ids + id) by (nonlinear_arith);
        }
        cells.push(fold * n_ids + id);
        row = row + 1;
    }
    proof {
        let all = fold_cells(ids@, n_ids as nat, seed, k);
        assert(all.take(ids@.len() as int) =~= all);
        assert forall|i: int| 0 <= i < ids@.len() implies #[trigger] all[i] < k * n_ids by {
            assert(cells@[i] < n_cells);
        }
    }
    Ok(TallyPlan { n_cells, steps: held_out(ids, &cells) })
}

/// Plans leaving one out: each row is encoded without itself.
pub fn leave_one_out_plan(ids: &Vec<u32>) -> (p: TallyPlan)
    ensures
        p.n_cells == ids@.len(),
        p.steps@ == held_out_steps(ids@, row_cells(ids@.len())),
{
    let mut cells: Vec<usize> = Vec::with_capacity(ids.len());
    let mut row: usize = 0;
    while row < ids.len()
        invariant
            row <= ids@.len(),
            cells@ =~= row_cells(ids@.len()).take(row as int),
        decreases ids.len() - row,
    {
        cells.push(row);
        row = row + 1;
    }
    assert(cells@ =~= row_cells(ids@.len()));
    TallyPlan { n_cells: ids.len(), steps: held_out(ids, &cells) }
}

/// Plans one random order: each row is encoded from the rows before it.
pub fn ordered_plan(ids: &Vec<u32>, seed: u64, n_perms: u32, perm: u32) -> (r: Result<
    TallyPlan,
    PbError,
>)
    ensures
        answers(r, order_fault(n_perms, ids@.len())),
        r is Ok ==> r->Ok_0.n_cells == 0 && exists|order: Seq<u32>|
            #![trigger prefix_steps(ids@, order)]
            is_seeded_order(order, seed, perm, Stage::Categorical.code(), ids@.len())
                && r->Ok_0.steps@ == prefix_steps(ids@, order),
{
    let order = match row_order(seed, n_perms, perm, ids.len()) {
        Ok(o) => o,
        Err(e) => return Err(e),
    };
    let mut steps: Vec<TallyStep> = Vec::new();
    let mut i: usize = 0;
    while i < order.len()
        invariant
            i <= order@.len(),
            order@.len() == ids@.len(),
            forall|j: int| 0 <= j < order@.len() ==> (#[trigger] order@[j]) < ids@.len(),
            steps@ =~= prefix_steps(ids@, order@).take(2 * i),
        decreases order.len() - i,
    {
        let row: usize = order[i] as usize;
        let level: usize = ids[row] as usize;
        proof {
            let at = 2 * i as int;
            assert(at / 2 == i && at % 2 == 0);
            assert((at + 1) / 2 == i && (at + 1) % 2 == 1);
        }
        steps.push(TallyStep::Encode { row, level, cell: None });
        steps.push(TallyStep::Add { row, level, cell: None });
        i = i + 1;
    }
    assert(prefix_steps(ids@, order@).take(2 * order@.len() as int) =~= prefix_steps(ids@, order@));
    Ok(TallyPlan { n_cells: 0, steps })
}

/// The value that a row reads in an order moves with the terms of the rows before
/// it that share its level, one for one, and with no other term.
pub proof fn law_ordered_encoding_moves_with_earlier_rows(
    ids: Seq<u32>,
    order: Seq<u32>,
    a: Seq<int>,
    b: Seq<int>,
    i: int,
    j: int,
)
    requires
        0 <= i < order.len(),
        0 <= j < order.len(),
        order.no_duplicates(),
        forall|s: int| s != order[j] ==> #[trigger] a[s] == b[s],
    ensures
        value_read(prefix_steps(ids, order), 2 * i, b) - value_read(
            prefix_steps(ids, order),
            2 * i,
            a,
        ) == (if j < i && ids[order[j] as int] == ids[order[i] as int] {
            b[order[j] as int] - a[order[j] as int]
        } else {
            0
        }),
{
    law_ordered_encoding_sees_earlier_rows(ids, order, a, i);
    law_ordered_encoding_sees_earlier_rows(ids, order, b, i);
    lemma_prefix_sum_moves(ids, order, a, b, ids[order[i] as int], i as nat, j);
}

proof fn lemma_prefix_sum_moves(
    ids: Seq<u32>,
    order: Seq<u32>,
    a: Seq<int>,
    b: Seq<int>,
    level: u32,
    n: nat,
    j: int,
)
    requires
        n <= order.len(),
        0 <= j < order.len(),
        order.no_duplicates(),
        forall|s: int| s != order[j] ==> #[trigger] a[s] == b[s],
    ensures
        prefix_sum(ids, order, b, level, n) - prefix_sum(ids, order, a, level, n) == (if j < n
            && ids[order[j] as int] == level {
            b[order[j] as int] - a[order[j] as int]
        } else {
            0
        }),
    decreases n,
{
    if n > 0 {
        lemma_prefix_sum_moves(ids, order, a, b, level, (n - 1) as nat, j);
        let s = order[n - 1] as int;
        if n - 1 != j {
            assert(order[n - 1] != order[j]);
            assert(a[s] == b[s]);
        }
    }
}

/// Cross-fitting is planned exactly when there are two folds or more, a sum for each
/// level in each fold fits into memory, and 32 bits number the rows.
pub proof fn law_cross_fits_are_sound(k: u32, n_ids: nat, n: nat)
    ensures
        cross_fit_fault(k, n_ids, n) is None <==> k >= 2 && k * n_ids <= usize::MAX && n
            <= 0x1_0000_0000,
{
}

/// In ordered encoding every row has two steps: it is encoded, and joins the sums of
/// its level right after.
pub proof fn law_ordered_rows_are_encoded_and_join(ids: Seq<u32>, order: Seq<u32>, i: int)
    requires
        0 <= i < order.len(),
    ensures
        prefix_steps(ids, order).len() == order.len() + order.len(),
        prefix_steps(ids, order)[2 * i] == (TallyStep::Encode {
            row: order[i] as usize,
            level: ids[order[i] as int] as usize,
            cell: None,
        }),
        prefix_steps(ids, order)[2 * i + 1] == (TallyStep::Add {
            row: order[i] as usize,
            level: ids[order[i] as int] as usize,
            cell: None,
        }),
{
}

} // verus!
