//! The checks at the boundary of fitting.
use crate::boosters::bank::{disordered, lemma_ordered_borders};
use crate::cat::finite_not_negative;
use crate::constraints::{FeatureSet, InteractionPolicy};
use crate::data::grid::opt_view;
use crate::data::{BinnedMatrix, BorderGrid, GridView};
use crate::error::{
    answers, first_fault, internal, invalid_config, lemma_all_none, lemma_first_fault,
    lemma_no_fault, refused_setting, Fault, PbError,
};
use crate::float::F32;
use crate::shown::shown;
use crate::text::{dec, decimal, number_last, with_number};
use vstd::prelude::*;

verus! {

/// Why a group of features is refused.
pub open spec fn group_fault(groups: Seq<FeatureSet>, max_order: u8, i: int) -> Option<Fault> {
    let n = groups[i].ids@.len();
    if n == 0 || n > max_order {
        Some(
            Fault::InvalidConfig(
                "interaction group order must be in 1..="@ + dec(max_order as nat) + ", got "@ + dec(n),
            ),
        )
    } else {
        None
    }
}

/// Why an interaction policy is refused, in the order of the checks.
pub open spec fn interaction_fault(p: InteractionPolicy) -> Option<Fault> {
    let group = first_fault(
        |i: int| group_fault(p.groups->0@, p.max_order, i),
        0,
        p.groups->0@.len() as int,
    );
    if p.max_order < 1 || p.max_order > 3 {
        Some(
            Fault::InvalidConfig(
                "interaction.max_order must be in 1..=3, got "@ + dec(p.max_order as nat),
            ),
        )
    } else if p.groups is Some && p.groups->0@.len() == 0 {
        Some(Fault::InvalidConfig("interaction groups must be non-empty when set"@))
    } else if p.groups is Some && group is Some {
        group
    } else if !finite_not_negative(p.table_budget_beta) {
        Some(
            Fault::InvalidConfig(
                "interaction.table_budget_beta must be finite and >= 0, got "@ + shown(
                    p.table_budget_beta,
                ),
            ),
        )
    } else if p.table_budget_cells == 0 {
        Some(Fault::InvalidConfig("interaction.table_budget_cells must be > 0"@))
    } else {
        None
    }
}

/// Refuses an interaction policy that growth cannot honour.
pub fn validate_interaction(p: &InteractionPolicy) -> (r: Result<(), PbError>)
    ensures
        answers(r, interaction_fault(*p)),
{
    if p.max_order < 1 || p.max_order > 3 {
        let what = number_last("interaction.max_order must be in 1..=3, got ", p.max_order as u64);
        return Err(PbError::InvalidConfig { what });
    }
    match &p.groups {
        None => {},
        Some(groups) => {
            if groups.len() == 0 {
                return Err(invalid_config("interaction groups must be non-empty when set"));
            }
            let ghost f = |i: int| group_fault(p.groups->0@, p.max_order, i);
            let mut i: usize = 0;
            while i < groups.len()
                invariant
                    i <= groups.len(),
                    groups@.len() > 0,
                    p.groups == Some(*groups),
                    1 <= p.max_order <= 3,
                    f == (|i: int| group_fault(p.groups->0@, p.max_order, i)),
                    forall|j: int| 0 <= j < i ==> (#[trigger] f(j)) is None,
                decreases groups.len() - i,
            {
                proof {
                    lemma_first_fault(f, 0, i as int, groups@.len() as int);
                }
                let n: usize = groups[i].ids.len();
                if n == 0 || n > p.max_order as usize {
                    assert(f(i as int) is Some);
                    let mut what = with_number(
                        "interaction group order must be in 1..=",
                        p.max_order as u64,
                        ", got ",
                    );
                    what.append(decimal(n as u64).as_str());
                    return Err(PbError::InvalidConfig { what });
                }
                assert(f(i as int) is None);
                i = i + 1;
            }
            proof {
                lemma_first_fault(f, 0, groups@.len() as int, groups@.len() as int);
            }
        },
    }
    if !p.table_budget_beta.is_finite() || p.table_budget_beta.order_key() < 0 {
        return Err(
            refused_setting(
                "interaction.table_budget_beta must be finite and >= 0, got ",
                p.table_budget_beta,
            ),
        );
    }
    if p.table_budget_cells == 0 {
        return Err(invalid_config("interaction.table_budget_cells must be > 0"));
    }
    Ok(())
}

/// Why the border at `i` of a matrix grid is not usable.
pub open spec fn grid_border_fault(g: GridView, axis: nat, i: int) -> Option<Fault> {
    if !g.borders[i].finite() {
        Some(
            Fault::InvalidInput(
                "BinnedMatrix grid "@ + dec(axis) + " border "@ + dec(i as nat)
                    + " must be finite"@,
            ),
        )
    } else {
        None
    }
}

/// Why the bin of a row lies outside its grid.
pub open spec fn row_bin_fault(g: GridView, col: Seq<u8>, axis: nat, row: int) -> Option<Fault> {
    if col[row] as int >= g.n_bins {
        Some(
            Fault::InvalidInput(
                "BinnedMatrix column "@ + dec(axis) + " row "@ + dec(row as nat) + " bin "@ + dec(
                    col[row] as nat,
                ) + " outside grid n_bins "@ + dec(g.n_bins as nat),
            ),
        )
    } else {
        None
    }
}

/// Why the grid of an axis is malformed: a grid without data bins has no
/// borders, another has one border less than data bins.
pub open spec fn matrix_grid_fault(g: GridView, axis: nat) -> Option<Fault> {
    let expected = if g.n_bins == 1 {
        1
    } else {
        g.borders.len() + 2
    };
    let border = first_fault(|i: int| grid_border_fault(g, axis, i), 0, g.borders.len() as int);
    if g.missing_bin != 0 {
        Some(
            Fault::InvalidInput(
                "BinnedMatrix grid "@ + dec(axis) + " missing_bin must be 0, got "@ + dec(
                    g.missing_bin as nat,
                ),
            ),
        )
    } else if g.n_bins == 0 || g.n_bins > 255 {
        Some(
            Fault::InvalidInput(
                "BinnedMatrix grid "@ + dec(axis) + " n_bins must be in 1..=255, got "@ + dec(
                    g.n_bins as nat,
                ),
            ),
        )
    } else if g.n_bins == 1 && g.borders.len() > 0 {
        Some(
            Fault::InvalidInput(
                "BinnedMatrix grid "@ + dec(axis) + " has n_bins=1 but "@ + dec(g.borders.len())
                    + " borders"@,
            ),
        )
    } else if g.n_bins > 1 && g.borders.len() + 2 > usize::MAX {
        Some(Fault::Internal("BinnedMatrix border count overflow"@))
    } else if expected != g.n_bins {
        Some(
            Fault::InvalidInput(
                "BinnedMatrix grid "@ + dec(axis) + " n_bins "@ + dec(g.n_bins as nat)
                    + " != borders.len()+2 ("@ + dec(expected) + ")"@,
            ),
        )
    } else if border is Some {
        border
    } else if exists|i: int| #[trigger] disordered(g.borders, i) {
        Some(
            Fault::InvalidInput(
                "BinnedMatrix grid "@ + dec(axis) + " borders must be strictly ascending"@,
            ),
        )
    } else {
        None
    }
}

/// Why an axis of a matrix is malformed.
pub open spec fn matrix_axis_fault(g: GridView, col: Seq<u8>, n_rows: nat, axis: nat) -> Option<
    Fault,
> {
    if col.len() != n_rows {
        Some(
            Fault::ShapeMismatch(
                "BinnedMatrix column "@ + dec(axis) + " len "@ + dec(col.len()) + " != n_rows "@ + dec(
                    n_rows,
                ),
            ),
        )
    } else if matrix_grid_fault(g, axis) is Some {
        matrix_grid_fault(g, axis)
    } else {
        first_fault(|row: int| row_bin_fault(g, col, axis, row), 0, col.len() as int)
    }
}

/// Why a binned matrix is malformed.
pub open spec fn matrix_fault(x: BinnedMatrix) -> Option<Fault> {
    let n = x.data@.len();
    if x.grids@.len() != n {
        Some(
            Fault::ShapeMismatch(
                "BinnedMatrix grids len "@ + dec(x.grids@.len()) + " != data len "@ + dec(n),
            ),
        )
    } else if x.provenance@.len() != n {
        Some(
            Fault::ShapeMismatch(
                "BinnedMatrix provenance len "@ + dec(x.provenance@.len()) + " != data len "@ + dec(n),
            ),
        )
    } else {
        first_fault(
            |a: int| matrix_axis_fault(x.grids@[a]@, x.data@[a]@, x.n_rows as nat, a as nat),
            0,
            n as int,
        )
    }
}

/// The text `BinnedMatrix grid {axis}{tail}`.
fn grid_message(axis: usize, tail: &str) -> (s: String)
    ensures
        s@ == "BinnedMatrix grid "@ + dec(axis as nat) + tail@,
{
    with_number("BinnedMatrix grid ", axis as u64, tail)
}

/// Checks the grid of one axis.
fn validate_matrix_grid(g: &BorderGrid, axis: usize) -> (r: Result<(), PbError>)
    ensures
        answers(r, matrix_grid_fault(g@, axis as nat)),
{
    if g.missing_bin != 0 {
        let mut what = grid_message(axis, " missing_bin must be 0, got ");
        what.append(decimal(g.missing_bin as u64).as_str());
        return Err(PbError::InvalidInput { what });
    }
    if g.n_bins == 0 || g.n_bins > 255 {
        let mut what = grid_message(axis, " n_bins must be in 1..=255, got ");
        what.append(decimal(g.n_bins as u64).as_str());
        return Err(PbError::InvalidInput { what });
    }
    let n: usize = g.borders.len();
    if g.n_bins == 1 && n > 0 {
        let mut what = grid_message(axis, " has n_bins=1 but ");
        what.append(decimal(n as u64).as_str());
        what.append(" borders");
        return Err(PbError::InvalidInput { what });
    }
    if g.n_bins > 1 && n > usize::MAX - 2 {
        return Err(internal("BinnedMatrix border count overflow"));
    }
    if g.n_bins > 1 && n + 2 != g.n_bins as usize {
        let mut what = grid_message(axis, " n_bins ");
        what.append(decimal(g.n_bins as u64).as_str());
        what.append(" != borders.len()+2 (");
        what.append(decimal(n as u64 + 2).as_str());
        what.append(")");
        return Err(PbError::InvalidInput { what });
    }
    let ghost f = |i: int| grid_border_fault(g@, axis as nat, i);
    let mut i: usize = 0;
    while i < n
        invariant
            i <= n,
            n == g.borders@.len(),
            f == (|i: int| grid_border_fault(g@, axis as nat, i)),
            forall|j: int| 0 <= j < i ==> (#[trigger] f(j)) is None,
            g.missing_bin == 0,
            1 <= g.n_bins <= 255,
            g.n_bins == 1 ==> n == 0,
            g.n_bins > 1 ==> n + 2 == g.n_bins,
        decreases n - i,
    {
        proof {
            lemma_first_fault(f, 0, i as int, n as int);
        }
        if !g.borders[i].is_finite() {
            assert(f(i as int) is Some);
            let mut what = grid_message(axis, " border ");
            what.append(decimal(i as u64).as_str());
            what.append(" must be finite");
            return Err(PbError::InvalidInput { what });
        }
        assert(f(i as int) is None);
        i = i + 1;
    }
    proof {
        lemma_first_fault(f, 0, n as int, n as int);
    }
    let mut k: usize = 1;
    while k < n
        invariant
            1 <= k,
            n == g.borders@.len(),
            g.missing_bin == 0,
            1 <= g.n_bins <= 255,
            g.n_bins == 1 ==> n == 0,
            g.n_bins > 1 ==> n + 2 == g.n_bins,
            first_fault(|i: int| grid_border_fault(g@, axis as nat, i), 0, n as int) is None,
            forall|j: int| j < k - 1 ==> !(#[trigger] disordered(g.borders@, j)),
        decreases n - k,
    {
        if g.borders[k].le(&g.borders[k - 1]) {
            assert(disordered(g.borders@, k - 1));
            let what = grid_message(axis, " borders must be strictly ascending");
            return Err(PbError::InvalidInput { what });
        }
        assert(!disordered(g.borders@, k - 1));
        k = k + 1;
    }
    Ok(())
}

/// Checks one axis of a matrix.
fn validate_axis(g: &BorderGrid, col: &Vec<u8>, n_rows: u32, axis: usize) -> (r: Result<
    (),
    PbError,
>)
    ensures
        answers(r, matrix_axis_fault(g@, col@, n_rows as nat, axis as nat)),
{
    if col.len() != n_rows as usize {
        let mut what = with_number("BinnedMatrix column ", axis as u64, " len ");
        what.append(decimal(col.len() as u64).as_str());
        what.append(" != n_rows ");
        what.append(decimal(n_rows as u64).as_str());
        return Err(PbError::ShapeMismatch { what });
    }
    match validate_matrix_grid(g, axis) {
        Err(e) => return Err(e),
        Ok(()) => {},
    }
    let ghost f = |row: int| row_bin_fault(g@, col@, axis as nat, row);
    let mut row: usize = 0;
    while row < col.len()
        invariant
            row <= col.len(),
            col@.len() == n_rows,
            matrix_grid_fault(g@, axis as nat) is None,
            f == (|row: int| row_bin_fault(g@, col@, axis as nat, row)),
            forall|j: int| 0 <= j < row ==> (#[trigger] f(j)) is None,
        decreases col.len() - row,
    {
        proof {
            lemma_first_fault(f, 0, row as int, col@.len() as int);
        }
        let bin: u8 = col[row];
        if bin as u16 >= g.n_bins {
            assert(f(row as int) is Some);
            let mut what = with_number("BinnedMatrix column ", axis as u64, " row ");
            what.append(decimal(row as u64).as_str());
            what.append(" bin ");
            what.append(decimal(bin as u64).as_str());
            what.append(" outside grid n_bins ");
            what.append(decimal(g.n_bins as u64).as_str());
            return Err(PbError::InvalidInput { what });
        }
        assert(f(row as int) is None);
        row = row + 1;
    }
    proof {
        lemma_first_fault(f, 0, col@.len() as int, col@.len() as int);
    }
    Ok(())
}

/// Checks that the parts of a binned matrix agree: one grid and one provenance
/// per column, columns as long as there are rows, sound grids, and every bin on
/// its grid.
pub fn validate_binned_matrix(x: &BinnedMatrix) -> (r: Result<(), PbError>)
    ensures
        answers(r, matrix_fault(*x)),
{
    let n: usize = x.data.len();
    if x.grids.len() != n {
        let mut what = with_number(
            "BinnedMatrix grids len ",
            x.grids.len() as u64,
            " != data len ",
        );
        what.append(decimal(n as u64).as_str());
        return Err(PbError::ShapeMismatch { what });
    }
    if x.provenance.len() != n {
        let mut what = with_number(
            "BinnedMatrix provenance len ",
            x.provenance.len() as u64,
            " != data len ",
        );
        what.append(decimal(n as u64).as_str());
        return Err(PbError::ShapeMismatch { what });
    }
    let ghost f = |a: int|
        matrix_axis_fault(x.grids@[a]@, x.data@[a]@, x.n_rows as nat, a as nat);
    let mut a: usize = 0;
    while a < n
        invariant
            a <= n,
            n == x.data@.len(),
            n == x.grids@.len(),
            n == x.provenance@.len(),
            f == (|a: int|
                matrix_axis_fault(x.grids@[a]@, x.data@[a]@, x.n_rows as nat, a as nat)),
            forall|j: int| 0 <= j < a ==> (#[trigger] f(j)) is None,
        decreases n - a,
    {
        proof {
            lemma_first_fault(f, 0, a as int, n as int);
        }
        match validate_axis(&x.grids[a], &x.data[a], x.n_rows, a) {
            Err(e) => {
                assert(f(a as int) is Some);
                return Err(e);
            },
            Ok(()) => {},
        }
        assert(f(a as int) is None);
        a = a + 1;
    }
    proof {
        lemma_first_fault(f, 0, n as int, n as int);
    }
    Ok(())
}

/// What a checked matrix keeps: its parts agree, its grids ascend, and every
/// bin lies on its grid.
pub open spec fn matrix_ok(x: BinnedMatrix) -> bool {
    &&& x.grids@.len() == x.data@.len()
    &&& x.provenance@.len() == x.data@.len()
    &&& forall|a: int|
        0 <= a < x.data@.len() ==> {
            &&& (#[trigger] x.data@[a])@.len() == x.n_rows
            &&& x.grids@[a].missing_bin == 0
            &&& 1 <= x.grids@[a].n_bins <= 255
            &&& crate::data::borders_ascend(x.grids@[a].borders@)
            &&& forall|r: int|
                0 <= r < x.n_rows ==> (#[trigger] x.data@[a]@[r]) < x.grids@[a].n_bins
        }
}

/// A matrix that passes the check is sound.
pub proof fn law_checked_matrix_is_sound(x: BinnedMatrix)
    requires
        matrix_fault(x) is None,
    ensures
        matrix_ok(x),
{
    let f = |a: int| matrix_axis_fault(x.grids@[a]@, x.data@[a]@, x.n_rows as nat, a as nat);
    lemma_all_none(f, 0, x.data@.len() as int);
    assert forall|a: int| 0 <= a < x.data@.len() implies {
        &&& (#[trigger] x.data@[a])@.len() == x.n_rows
        &&& x.grids@[a].missing_bin == 0
        &&& 1 <= x.grids@[a].n_bins <= 255
        &&& crate::data::borders_ascend(x.grids@[a].borders@)
        &&& forall|r: int| 0 <= r < x.n_rows ==> (#[trigger] x.data@[a]@[r]) < x.grids@[a].n_bins
    } by {
        assert(f(a) is None);
        let g = x.grids@[a]@;
        let col = x.data@[a]@;
        let b = |i: int| grid_border_fault(g, a as nat, i);
        lemma_all_none(b, 0, g.borders.len() as int);
        assert forall|i: int| 0 <= i < g.borders.len() implies (#[trigger] g.borders[i]).finite() by {
            assert(b(i) is None);
        }
        lemma_ordered_borders(g.borders);
        let h = |row: int| row_bin_fault(g, col, a as nat, row);
        lemma_all_none(h, 0, col.len() as int);
        assert forall|r: int| 0 <= r < x.n_rows implies (#[trigger] col[r]) < g.n_bins by {
            assert(h(r) is None);
        }
    }
}

/// Why a per-row array does not fit.
pub open spec fn rows_len_fault(label: Seq<char>, len: nat, n: nat) -> Option<Fault> {
    if len != n {
        Some(Fault::ShapeMismatch(label + " len "@ + dec(len) + " != n_rows "@ + dec(n)))
    } else {
        None
    }
}

/// Why the per-row arrays of a fit do not fit the matrix.
pub open spec fn fit_rows_fault(
    y: Seq<F32>,
    weight: Option<Seq<F32>>,
    exposure: Option<Seq<F32>>,
    n: nat,
) -> Option<Fault> {
    if y.len() != n {
        rows_len_fault("y"@, y.len(), n)
    } else if weight is Some && weight->0.len() != n {
        rows_len_fault("weight"@, weight->0.len(), n)
    } else if exposure is Some && exposure->0.len() != n {
        rows_len_fault("exposure"@, exposure->0.len(), n)
    } else {
        None
    }
}

fn rows_error(label: &str, len: usize, n: usize) -> (e: PbError)
    requires
        len != n,
    ensures
        Some(e@) == rows_len_fault(label@, len as nat, n as nat),
{
    let mut what = String::from_str(label);
    what.append(" len ");
    what.append(decimal(len as u64).as_str());
    what.append(" != n_rows ");
    what.append(decimal(n as u64).as_str());
    PbError::ShapeMismatch { what }
}

/// Checks that targets, weights and exposures have one entry per row.
pub fn check_fit_rows(
    y: &Vec<F32>,
    weight: Option<&Vec<F32>>,
    exposure: Option<&Vec<F32>>,
    n_rows: u32,
) -> (r: Result<(), PbError>)
    ensures
        answers(r, fit_rows_fault(y@, opt_view(weight), opt_view(exposure), n_rows as nat)),
{
    let n: usize = n_rows as usize;
    if y.len() != n {
        return Err(rows_error("y", y.len(), n));
    }
    match weight {
        Some(w) => {
            if w.len() != n {
                return Err(rows_error("weight", w.len(), n));
            }
        },
        None => {},
    }
    match exposure {
        Some(e) => {
            if e.len() != n {
                return Err(rows_error("exposure", e.len(), n));
            }
        },
        None => {},
    }
    Ok(())
}

/// An interaction policy is accepted exactly when its order is 1 to 3, its groups,
/// where given, are some and each within the order, its prior is finite and not
/// negative, and its cell budget is not zero.
pub proof fn law_accepted_policies_are_sound(p: InteractionPolicy)
    ensures
        interaction_fault(p) is None <==> {
            &&& 1 <= p.max_order <= 3
            &&& p.groups matches Some(groups) ==> groups@.len() > 0 && forall|i: int|
                0 <= i < groups@.len() ==> 1 <= (#[trigger] groups@[i]).ids@.len() <= p.max_order
            &&& p.table_budget_beta.finite() && p.table_budget_beta.key() >= 0
            &&& p.table_budget_cells >= 1
        },
{
    let groups = p.groups->0@;
    let f = |i: int| group_fault(p.groups->0@, p.max_order, i);
    lemma_no_fault(f, groups.len() as int);
    if forall|i: int| 0 <= i < groups.len() ==> (#[trigger] f(i)) is None {
        assert forall|i: int| 0 <= i < groups.len() implies 1 <= (#[trigger] groups[i]).ids@.len()
            <= p.max_order by {
            assert(f(i) is None);
        }
    } else {
        let i = choose|i: int| 0 <= i < groups.len() && !((#[trigger] f(i)) is None);
        assert(!(1 <= groups[i].ids@.len() <= p.max_order));
    }
}

/// A sound matrix is accepted: its lists agree, every column has one bin per row
/// within its grid, and every grid has its missing bin first, finite ascending
/// borders and two bins more than borders, or one bin and no border.
pub proof fn law_sound_matrices_are_accepted(x: BinnedMatrix)
    requires
        x.grids@.len() == x.data@.len(),
        x.provenance@.len() == x.data@.len(),
        forall|a: int|
            0 <= a < x.data@.len() ==> {
                &&& (#[trigger] x.data@[a])@.len() == x.n_rows
                &&& x.grids@[a].missing_bin == 0
                &&& x.grids@[a].n_bins <= 255
                &&& x.grids@[a].n_bins == x.grids@[a].borders@.len() + 2 || (x.grids@[a].n_bins == 1
                    && x.grids@[a].borders@.len() == 0)
                &&& forall|i: int|
                    0 <= i < x.grids@[a].borders@.len() ==> (
                    #[trigger] x.grids@[a].borders@[i]).finite()
                &&& forall|i: int, j: int|
                    0 <= i < j < x.grids@[a].borders@.len() ==> x.grids@[a].borders@[i].key()
                        < x.grids@[a].borders@[j].key()
                &&& forall|r: int|
                    0 <= r < x.n_rows ==> (#[trigger] x.data@[a]@[r]) < x.grids@[a].n_bins
            },
    ensures
        matrix_fault(x) is None,
{
    let f = |a: int| matrix_axis_fault(x.grids@[a]@, x.data@[a]@, x.n_rows as nat, a as nat);
    assert forall|a: int| 0 <= a < x.data@.len() implies (#[trigger] f(a)) is None by {
        assert(x.data@[a]@.len() == x.n_rows);
        let g = x.grids@[a]@;
        let h = |i: int| grid_border_fault(g, a as nat, i);
        lemma_no_fault(h, g.borders.len() as int);
        let q = |row: int| row_bin_fault(g, x.data@[a]@, a as nat, row);
        assert forall|row: int| 0 <= row < x.data@[a]@.len() implies (#[trigger] q(row)) is None by {
            assert(x.data@[a]@[row] < x.grids@[a].n_bins);
        }
        lemma_no_fault(q, x.data@[a]@.len() as int);
    }
    lemma_no_fault(f, x.data@.len() as int);
}

/// The rows of a fit are accepted exactly when targets, weights and exposures are
/// as many as there are rows.
pub proof fn law_accepted_fit_rows_agree(
    y: Seq<F32>,
    weight: Option<Seq<F32>>,
    exposure: Option<Seq<F32>>,
    n: nat,
)
    ensures
        fit_rows_fault(y, weight, exposure, n) is None <==> y.len() == n && (weight is Some
            ==> weight->0.len() == n) && (exposure is Some ==> exposure->0.len() == n),
{
}

} // verus!
