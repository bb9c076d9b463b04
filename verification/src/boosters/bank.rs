//! Table banks: one dense table per feature set, over shared merged grids.
use crate::constraints::FeatureSet;
use crate::data::{borders_ascend, grid_views, BorderGrid, FeatureId, GridView};
use crate::error::{
    answers, first_fault, internal, invalid_config, invalid_input, lemma_all_none, lemma_first_fault, lemma_no_fault, shape_mismatch, Fault,
    PbError,
};
use crate::float::{F32, F64};
use crate::text::{dec, decimal, number_last, with_number};
use vstd::prelude::*;

verus! {

/// The measure under which tables are purified.
#[derive(Debug, Clone, Copy, PartialEq, Eq, Structural)]
pub enum RefMeasure {
    ProductMarginals,
    Uniform,
    /// The joint measure; not offered yet.
    Joint,
}

/// A dense row-major table.
#[derive(Debug, Clone, PartialEq)]
pub struct Tensor {
    pub shape: Vec<usize>,
    pub values: Vec<F64>,
}

/// The table of one feature set.
#[derive(Debug, Clone, PartialEq)]
pub struct EffectTable {
    pub u: FeatureSet,
    /// The raw feature of each axis.
    pub axes: Vec<FeatureId>,
    pub values: Tensor,
    pub support: Tensor,
}

/// An intercept and tables over shared merged grids.
#[derive(Debug, Clone, PartialEq)]
pub struct TableBank {
    pub f0: F64,
    pub merged_grids: Vec<BorderGrid>,
    pub tables: Vec<EffectTable>,
    pub measure: RefMeasure,
}

/// Why the border at `i` of a bank's grid is not usable.
pub open spec fn border_fault(g: GridView, raw: nat, i: int) -> Option<Fault> {
    if !g.borders[i].finite() {
        Some(
            Fault::InvalidInput(
                "bank grid "@ + dec(raw) + " border "@ + dec(i as nat) + " must be finite"@,
            ),
        )
    } else {
        None
    }
}

/// Whether two neighbouring borders are out of order.
pub open spec fn disordered(borders: Seq<F32>, i: int) -> bool {
    0 <= i < borders.len() - 1 && borders[i + 1].at_most(borders[i])
}

/// Why a bank's grid is malformed.
pub open spec fn bank_grid_fault(g: GridView, raw: nat) -> Option<Fault> {
    let border = first_fault(|i: int| border_fault(g, raw, i), 0, g.borders.len() as int);
    if g.missing_bin != 0 {
        Some(Fault::InvalidInput("bank grid "@ + dec(raw) + " missing_bin must be 0"@))
    } else if g.borders.len() + 2 > usize::MAX {
        Some(Fault::Internal("bank grid border count overflow"@))
    } else if g.n_bins as int != g.borders.len() + 2 {
        Some(
            Fault::InvalidInput(
                "bank grid "@ + dec(raw) + " n_bins "@ + dec(g.n_bins as nat) + " inconsistent with "@
                    + dec(g.borders.len()) + " borders"@,
            ),
        )
    } else if border is Some {
        border
    } else if exists|i: int| #[trigger] disordered(g.borders, i) {
        Some(
            Fault::InvalidInput("bank grid "@ + dec(raw) + " borders must be strictly ascending"@),
        )
    } else {
        None
    }
}

/// Neighbours in order make ascending borders.
pub proof fn lemma_ordered_borders(borders: Seq<F32>)
    requires
        forall|i: int| 0 <= i < borders.len() ==> (#[trigger] borders[i]).finite(),
        forall|i: int| !(#[trigger] disordered(borders, i)),
    ensures
        borders_ascend(borders),
    decreases borders.len(),
{
    if borders.len() > 0 {
        let rest = borders.drop_last();
        assert forall|i: int| 0 <= i < rest.len() implies (#[trigger] rest[i]).finite() by {
            assert(rest[i] == borders[i]);
        }
        assert forall|i: int| !(#[trigger] disordered(rest, i)) by {
            if 0 <= i < rest.len() - 1 {
                assert(!disordered(borders, i));
                assert(rest[i] == borders[i]);
                assert(rest[i + 1] == borders[i + 1]);
            }
        }
        lemma_ordered_borders(rest);
        let last = borders.len() - 1;
        assert forall|i: int, j: int| 0 <= i < j < borders.len() implies (#[trigger] borders[i]).key()
            < (#[trigger] borders[j]).key() by {
            if j < last {
                assert(rest[i].key() < rest[j].key());
            } else {
                assert(!disordered(borders, last - 1));
                assert(borders[last - 1].finite() && borders[last].finite());
                assert(borders[last - 1 + 1] == borders[last]);
                if i < last - 1 {
                    assert(rest[i].key() < rest[last - 1].key());
                }
            }
        }
        assert forall|i: int| 0 <= i < borders.len() implies !(#[trigger] borders[i]).nan() by {
            assert(borders[i].finite());
        }
    }
}

/// A grid that passes the check is well formed and has finite borders.
pub proof fn lemma_checked_grid(g: BorderGrid, raw: nat)
    requires
        bank_grid_fault(g@, raw) is None,
    ensures
        g.wf(),
        forall|i: int| 0 <= i < g.borders@.len() ==> (#[trigger] g.borders@[i]).finite(),
{
    let f = |i: int| border_fault(g@, raw, i);
    lemma_all_none(f, 0, g.borders@.len() as int);
    assert forall|i: int| 0 <= i < g.borders@.len() implies (#[trigger] g.borders@[i]).finite() by {
        assert(f(i) is None);
    }
    lemma_ordered_borders(g.borders@);
}

/// Checks a bank's grid.
pub fn validate_grid(grid: &BorderGrid, raw: usize) -> (r: Result<(), PbError>)
    ensures
        answers(r, bank_grid_fault(grid@, raw as nat)),
{
    if grid.missing_bin != 0 {
        let what = with_number("bank grid ", raw as u64, " missing_bin must be 0");
        return Err(PbError::InvalidInput { what });
    }
    let n: usize = grid.borders.len();
    if n > usize::MAX - 2 {
        return Err(internal("bank grid border count overflow"));
    }
    if grid.n_bins as usize != n + 2 {
        let mut what = with_number("bank grid ", raw as u64, " n_bins ");
        what.append(decimal(grid.n_bins as u64).as_str());
        what.append(" inconsistent with ");
        what.append(decimal(n as u64).as_str());
        what.append(" borders");
        return Err(PbError::InvalidInput { what });
    }
    let ghost f = |i: int| border_fault(grid@, raw as nat, i);
    let mut i: usize = 0;
    while i < n
        invariant
            i <= n,
            n == grid.borders@.len(),
            grid.missing_bin == 0,
            grid.n_bins as int == n + 2,
            f == (|i: int| border_fault(grid@, raw as nat, i)),
            forall|j: int| 0 <= j < i ==> (#[trigger] f(j)) is None,
        decreases n - i,
    {
        proof {
            lemma_first_fault(f, 0, i as int, n as int);
        }
        if !grid.borders[i].is_finite() {
            assert(f(i as int) is Some);
            let mut what = with_number("bank grid ", raw as u64, " border ");
            what.append(decimal(i as u64).as_str());
            what.append(" must be finite");
            return Err(PbError::InvalidInput { what });
        }
        assert(f(i as int) is None);
        i = i + 1;
    }
    proof {
        lemma_first_fault(f, 0, n as int, n as int);
    }
    let mut k: usize = 1;
    while k < n
        invariant
            1 <= k,
            n == grid.borders@.len(),
            grid.missing_bin == 0,
            grid.n_bins as int == n + 2,
            first_fault(|i: int| border_fault(grid@, raw as nat, i), 0, n as int) is None,
            forall|j: int| j < k - 1 ==> !(#[trigger] disordered(grid.borders@, j)),
        decreases n - k,
    {
        if grid.borders[k].le(&grid.borders[k - 1]) {
            assert(disordered(grid.borders@, k - 1));
            let what = with_number("bank grid ", raw as u64, " borders must be strictly ascending");
            return Err(PbError::InvalidInput { what });
        }
        assert(!disordered(grid.borders@, k - 1));
        k = k + 1;
    }
    Ok(())
}

/// Why a feature has no merged grid.
pub open spec fn extent_fault(n_grids: nat, u: Seq<FeatureId>, i: int) -> Option<Fault> {
    if u[i].0 >= n_grids {
        Some(Fault::ShapeMismatch("merged grid missing raw feature "@ + dec(u[i].0 as nat)))
    } else {
        None
    }
}

/// Why a feature set has no extents.
pub open spec fn extents_fault(n_grids: nat, u: Seq<FeatureId>) -> Option<Fault> {
    first_fault(|i: int| extent_fault(n_grids, u, i), 0, u.len() as int)
}

/// The extent of each axis of a feature set.
pub open spec fn extents_of(grids: Seq<GridView>, u: Seq<FeatureId>) -> Seq<usize> {
    u.map_values(|raw: FeatureId| grids[raw.0 as int].n_bins as usize)
}

/// The extent of each axis of a feature set.
pub fn table_extents(grids: &Vec<BorderGrid>, u: &FeatureSet) -> (r: Result<Vec<usize>, PbError>)
    ensures
        answers(r, extents_fault(grids@.len(), u.ids@)),
        r is Ok ==> r->Ok_0@ == extents_of(grid_views(grids@), u.ids@),
{
    let ghost f = |i: int| extent_fault(grids@.len(), u.ids@, i);
    let ghost want = extents_of(grid_views(grids@), u.ids@);
    let mut out: Vec<usize> = Vec::with_capacity(u.ids.len());
    let mut i: usize = 0;
    while i < u.ids.len()
        invariant
            i <= u.ids.len(),
            f == (|i: int| extent_fault(grids@.len(), u.ids@, i)),
            forall|j: int| 0 <= j < i ==> (#[trigger] f(j)) is None,
            want == extents_of(grid_views(grids@), u.ids@),
            out@.len() == i,
            forall|j: int| 0 <= j < i ==> #[trigger] out@[j] == want[j],
        decreases u.ids.len() - i,
    {
        proof {
            lemma_first_fault(f, 0, i as int, u.ids@.len() as int);
        }
        let raw: usize = u.ids[i].0 as usize;
        if raw >= grids.len() {
            assert(f(i as int) is Some);
            let what = number_last("merged grid missing raw feature ", raw as u64);
            return Err(PbError::ShapeMismatch { what });
        }
        assert(f(i as int) is None);
        assert(grid_views(grids@)[raw as int] == grids@[raw as int]@);
        out.push(grids[raw].n_bins as usize);
        i = i + 1;
    }
    proof {
        lemma_first_fault(f, 0, u.ids@.len() as int, u.ids@.len() as int);
        assert(out@ =~= want);
    }
    Ok(out)
}

/// Why a table of a bank is malformed.
pub open spec fn table_fault(grids: Seq<GridView>, t: EffectTable) -> Option<Fault> {
    if t.u.ids@.len() == 0 || t.u.ids@.len() > 3 {
        Some(
            Fault::InvalidInput("effect order "@ + dec(t.u.ids@.len()) + " outside 1..=3"@),
        )
    } else if t.axes@.len() != t.u.ids@.len() {
        Some(Fault::ShapeMismatch("effect axes length does not match support order"@))
    } else if t.axes@ != t.u.ids@ {
        Some(Fault::ShapeMismatch("effect axes are not parallel to support raw ids"@))
    } else if extents_fault(grids.len(), t.u.ids@) is Some {
        extents_fault(grids.len(), t.u.ids@)
    } else if t.values.shape@ != extents_of(grids, t.u.ids@) || t.support.shape@ != extents_of(
        grids,
        t.u.ids@,
    ) {
        Some(Fault::ShapeMismatch("effect tensor shape does not match its bank merged grid"@))
    } else if exists|i: int| 0 <= i < t.values.values@.len() && !(#[trigger] t.values.values@[i]).finite() {
        Some(Fault::InvalidInput("effect table value must be finite"@))
    } else if exists|i: int|
        0 <= i < t.support.values@.len() && !usable_support(#[trigger] t.support.values@[i]) {
        Some(Fault::InvalidInput("effect table support must be finite and >= 0"@))
    } else {
        None
    }
}

/// Whether a number can be a support.
pub open spec fn usable_support(s: F64) -> bool {
    s.finite() && s.key() >= 0
}

/// Why a bank cannot be averaged.
pub open spec fn bank_fault(bank: TableBank, w: RefMeasure, expected: nat) -> Option<Fault> {
    let grids = grid_views(bank.merged_grids@);
    let grid = first_fault(|i: int| bank_grid_fault(grids[i], i as nat), 0, grids.len() as int);
    if bank.measure != w {
        Some(
            Fault::InvalidConfig(
                "average_banks requires every member to use the requested RefMeasure"@,
            ),
        )
    } else if grids.len() != expected {
        Some(
            Fault::ShapeMismatch(
                "member has "@ + dec(grids.len()) + " merged grids, expected "@ + dec(expected),
            ),
        )
    } else if !bank.f0.finite() {
        Some(Fault::InvalidInput("member bank f0 must be finite"@))
    } else if grid is Some {
        grid
    } else {
        first_fault(|i: int| table_fault(grids, bank.tables@[i]), 0, bank.tables@.len() as int)
    }
}

/// Whether two lists are equal.
fn same_usizes(a: &Vec<usize>, b: &Vec<usize>) -> (r: bool)
    ensures
        r == (a@ == b@),
{
    if a.len() != b.len() {
        return false;
    }
    let mut i: usize = 0;
    while i < a.len()
        invariant
            i <= a.len(),
            a@.len() == b@.len(),
            forall|j: int| 0 <= j < i ==> a@[j] == b@[j],
        decreases a.len() - i,
    {
        if a[i] != b[i] {
            assert(a@[i as int] != b@[i as int]);
            return false;
        }
        i = i + 1;
    }
    assert(a@ =~= b@);
    true
}

/// Whether two feature lists are equal.
pub fn same_features(a: &Vec<FeatureId>, b: &Vec<FeatureId>) -> (r: bool)
    ensures
        r == (a@ == b@),
{
    if a.len() != b.len() {
        return false;
    }
    let mut i: usize = 0;
    while i < a.len()
        invariant
            i <= a.len(),
            a@.len() == b@.len(),
            forall|j: int| 0 <= j < i ==> a@[j] == b@[j],
        decreases a.len() - i,
    {
        if a[i] != b[i] {
            assert(a@[i as int] != b@[i as int]);
            return false;
        }
        i = i + 1;
    }
    assert(a@ =~= b@);
    true
}

/// Checks one table of a bank.
fn validate_table(grids: &Vec<BorderGrid>, t: &EffectTable) -> (r: Result<(), PbError>)
    ensures
        answers(r, table_fault(grid_views(grids@), *t)),
{
    let order: usize = t.u.ids.len();
    assert(grid_views(grids@).len() == grids@.len());
    if order == 0 || order > 3 {
        let what = with_number("effect order ", order as u64, " outside 1..=3");
        return Err(PbError::InvalidInput { what });
    }
    if t.axes.len() != order {
        return Err(shape_mismatch("effect axes length does not match support order"));
    }
    if !same_features(&t.axes, &t.u.ids) {
        return Err(shape_mismatch("effect axes are not parallel to support raw ids"));
    }
    let extents = match table_extents(grids, &t.u) {
        Err(e) => return Err(e),
        Ok(x) => x,
    };
    if !same_usizes(&t.values.shape, &extents) || !same_usizes(&t.support.shape, &extents) {
        return Err(shape_mismatch("effect tensor shape does not match its bank merged grid"));
    }
    let mut i: usize = 0;
    while i < t.values.values.len()
        invariant
            i <= t.values.values.len(),
            1 <= t.u.ids@.len() <= 3,
            t.axes@ == t.u.ids@,
            extents_fault(grid_views(grids@).len(), t.u.ids@) is None,
            t.values.shape@ == extents_of(grid_views(grids@), t.u.ids@),
            t.support.shape@ == extents_of(grid_views(grids@), t.u.ids@),
            forall|j: int| 0 <= j < i ==> (#[trigger] t.values.values@[j]).finite(),
        decreases t.values.values.len() - i,
    {
        if !t.values.values[i].is_finite() {
            assert(!t.values.values@[i as int].finite());
            return Err(invalid_input("effect table value must be finite"));
        }
        i = i + 1;
    }
    let mut k: usize = 0;
    while k < t.support.values.len()
        invariant
            k <= t.support.values.len(),
            1 <= t.u.ids@.len() <= 3,
            t.axes@ == t.u.ids@,
            extents_fault(grid_views(grids@).len(), t.u.ids@) is None,
            t.values.shape@ == extents_of(grid_views(grids@), t.u.ids@),
            t.support.shape@ == extents_of(grid_views(grids@), t.u.ids@),
            forall|j: int|
                0 <= j < t.values.values@.len() ==> (#[trigger] t.values.values@[j]).finite(),
            forall|j: int| 0 <= j < k ==> usable_support(#[trigger] t.support.values@[j]),
        decreases t.support.values.len() - k,
    {
        let s = t.support.values[k];
        if !s.is_finite() || s.order_key() < 0 {
            assert(!usable_support(t.support.values@[k as int]));
            return Err(invalid_input("effect table support must be finite and >= 0"));
        }
        k = k + 1;
    }
    Ok(())
}

/// Checks a bank against the measure and the number of features of the others.
pub fn validate_bank(bank: &TableBank, w: &RefMeasure, expected: usize) -> (r: Result<(), PbError>)
    ensures
        answers(r, bank_fault(*bank, *w, expected as nat)),
{
    let ghost grids = grid_views(bank.merged_grids@);
    if bank.measure != *w {
        return Err(
            invalid_config("average_banks requires every member to use the requested RefMeasure"),
        );
    }
    if bank.merged_grids.len() != expected {
        let mut what = with_number(
            "member has ",
            bank.merged_grids.len() as u64,
            " merged grids, expected ",
        );
        what.append(decimal(expected as u64).as_str());
        return Err(PbError::ShapeMismatch { what });
    }
    if !bank.f0.is_finite() {
        return Err(invalid_input("member bank f0 must be finite"));
    }
    let ghost f = |i: int| bank_grid_fault(grids[i], i as nat);
    let mut i: usize = 0;
    while i < bank.merged_grids.len()
        invariant
            i <= bank.merged_grids.len(),
            grids == grid_views(bank.merged_grids@),
            grids.len() == expected,
            bank.measure == *w,
            bank.f0.finite(),
            f == (|i: int| bank_grid_fault(grids[i], i as nat)),
            forall|j: int| 0 <= j < i ==> (#[trigger] f(j)) is None,
        decreases bank.merged_grids.len() - i,
    {
        proof {
            lemma_first_fault(f, 0, i as int, grids.len() as int);
            assert(grids[i as int] == bank.merged_grids@[i as int]@);
        }
        match validate_grid(&bank.merged_grids[i], i) {
            Err(e) => {
                assert(f(i as int) is Some);
                return Err(e);
            },
            Ok(()) => {},
        }
        assert(f(i as int) is None);
        i = i + 1;
    }
    proof {
        lemma_first_fault(f, 0, grids.len() as int, grids.len() as int);
    }
    let ghost h = |i: int| table_fault(grids, bank.tables@[i]);
    let mut k: usize = 0;
    while k < bank.tables.len()
        invariant
            k <= bank.tables.len(),
            grids == grid_views(bank.merged_grids@),
            grids.len() == expected,
            bank.measure == *w,
            bank.f0.finite(),
            first_fault(|i: int| bank_grid_fault(grids[i], i as nat), 0, grids.len() as int) is None,
            h == (|i: int| table_fault(grids, bank.tables@[i])),
            forall|j: int| 0 <= j < k ==> (#[trigger] h(j)) is None,
        decreases bank.tables.len() - k,
    {
        proof {
            lemma_first_fault(h, 0, k as int, bank.tables@.len() as int);
        }
        match validate_table(&bank.merged_grids, &bank.tables[k]) {
            Err(e) => {
                assert(h(k as int) is Some);
                return Err(e);
            },
            Ok(()) => {},
        }
        assert(h(k as int) is None);
        k = k + 1;
    }
    proof {
        lemma_first_fault(h, 0, bank.tables@.len() as int, bank.tables@.len() as int);
    }
    Ok(())
}


/// The first table of a feature set.
pub fn find_table(bank: &TableBank, u: &FeatureSet) -> (r: Option<usize>)
    ensures
        match r {
            Some(t) => {
                &&& t < bank.tables@.len()
                &&& bank.tables@[t as int].u.ids@ == u.ids@
                &&& forall|j: int| 0 <= j < t ==> (#[trigger] bank.tables@[j]).u.ids@ != u.ids@
            },
            None => forall|j: int|
                0 <= j < bank.tables@.len() ==> (#[trigger] bank.tables@[j]).u.ids@ != u.ids@,
        },
{
    let mut t: usize = 0;
    while t < bank.tables.len()
        invariant
            t <= bank.tables.len(),
            forall|j: int| 0 <= j < t ==> (#[trigger] bank.tables@[j]).u.ids@ != u.ids@,
        decreases bank.tables.len() - t,
    {
        if same_features(&bank.tables[t].u.ids, &u.ids) {
            return Some(t);
        }
        t = t + 1;
    }
    None
}

/// A grid is accepted exactly when its missing bin is the first, it has two bins
/// more than borders, and its borders are finite and ascend.
pub proof fn law_accepted_grids_are_sound(g: GridView, raw: nat)
    requires
        g.borders.len() + 2 <= usize::MAX,
    ensures
        bank_grid_fault(g, raw) is None <==> {
            &&& g.missing_bin == 0
            &&& g.n_bins == g.borders.len() + 2
            &&& forall|i: int| 0 <= i < g.borders.len() ==> (#[trigger] g.borders[i]).finite()
            &&& forall|i: int, j: int|
                0 <= i < j < g.borders.len() ==> (#[trigger] g.borders[i]).key() < (
                #[trigger] g.borders[j]).key()
        },
{
    let f = |i: int| border_fault(g, raw, i);
    lemma_no_fault(f, g.borders.len() as int);
    if forall|i: int| 0 <= i < g.borders.len() ==> (#[trigger] f(i)) is None {
        assert forall|i: int| 0 <= i < g.borders.len() implies (#[trigger] g.borders[i]).finite() by {
            assert(f(i) is None);
        }
        if forall|i: int| !(#[trigger] disordered(g.borders, i)) {
            lemma_ordered_borders(g.borders);
        } else {
            let i = choose|i: int| #[trigger] disordered(g.borders, i);
            assert(!(g.borders[i].key() < g.borders[i + 1].key()));
        }
    } else {
        let i = choose|i: int| 0 <= i < g.borders.len() && !((#[trigger] f(i)) is None);
        assert(!g.borders[i].finite());
    }
}

/// A table is accepted exactly when it has one to three features, its axes are
/// those features, both its tensors have the shape of their grids, its values are
/// finite, and its supports finite and not negative.
pub proof fn law_accepted_tables_are_sound(grids: Seq<GridView>, t: EffectTable)
    ensures
        table_fault(grids, t) is None <==> {
            &&& 1 <= t.u.ids@.len() <= 3
            &&& t.axes@ == t.u.ids@
            &&& forall|k: int| 0 <= k < t.u.ids@.len() ==> (#[trigger] t.u.ids@[k]).0 < grids.len()
            &&& t.values.shape@.len() == t.u.ids@.len()
            &&& t.support.shape@.len() == t.u.ids@.len()
            &&& forall|k: int|
                #![trigger t.u.ids@[k]]
                0 <= k < t.u.ids@.len() ==> t.values.shape@[k] == grids[t.u.ids@[k].0 as int].n_bins
                    && t.support.shape@[k] == grids[t.u.ids@[k].0 as int].n_bins
            &&& forall|i: int|
                0 <= i < t.values.values@.len() ==> (#[trigger] t.values.values@[i]).finite()
            &&& forall|i: int|
                0 <= i < t.support.values@.len() ==> (#[trigger] t.support.values@[i]).finite()
                    && t.support.values@[i].key() >= 0
        },
{
    let u = t.u.ids@;
    let f = |i: int| extent_fault(grids.len(), u, i);
    lemma_no_fault(f, u.len() as int);
    let e = extents_of(grids, u);
    if forall|i: int| 0 <= i < u.len() ==> (#[trigger] f(i)) is None {
        assert forall|k: int| 0 <= k < u.len() implies (#[trigger] u[k]).0 < grids.len() by {
            assert(f(k) is None);
        }
    } else {
        let i = choose|i: int| 0 <= i < u.len() && !((#[trigger] f(i)) is None);
        assert(u[i].0 >= grids.len());
    }
    if t.values.shape@ == e && t.support.shape@ == e {
        assert forall|k: int| #![trigger u[k]] 0 <= k < u.len() implies t.values.shape@[k]
            == grids[u[k].0 as int].n_bins && t.support.shape@[k] == grids[u[k].0 as int].n_bins by {
            assert(e[k] == grids[u[k].0 as int].n_bins);
        }
    }
    if t.values.shape@.len() == u.len() && t.support.shape@.len() == u.len() && forall|k: int|
        #![trigger u[k]]
        0 <= k < u.len() ==> t.values.shape@[k] == grids[u[k].0 as int].n_bins && t.support.shape@[k]
            == grids[u[k].0 as int].n_bins {
        assert forall|k: int| 0 <= k < u.len() implies t.values.shape@[k] == e[k]
            && t.support.shape@[k] == e[k] by {
            assert(u[k] == u[k]);
        }
        assert(t.values.shape@ =~= e);
        assert(t.support.shape@ =~= e);
    }
}

/// A bank is accepted exactly when it uses the measure and has the features asked
/// for, its intercept is finite, and every grid and every table is accepted.
pub proof fn law_accepted_banks_are_sound(bank: TableBank, w: RefMeasure, expected: nat)
    ensures
        bank_fault(bank, w, expected) is None <==> {
            let grids = grid_views(bank.merged_grids@);
            &&& bank.measure == w
            &&& grids.len() == expected
            &&& bank.f0.finite()
            &&& forall|i: int|
                0 <= i < grids.len() ==> bank_grid_fault(#[trigger] grids[i], i as nat) is None
            &&& forall|i: int|
                0 <= i < bank.tables@.len() ==> table_fault(grids, #[trigger] bank.tables@[i]) is None
        },
{
    let grids = grid_views(bank.merged_grids@);
    let f = |i: int| bank_grid_fault(grids[i], i as nat);
    let g = |i: int| table_fault(grids, bank.tables@[i]);
    lemma_no_fault(f, grids.len() as int);
    lemma_no_fault(g, bank.tables@.len() as int);
    if forall|i: int| 0 <= i < grids.len() ==> (#[trigger] f(i)) is None {
        assert forall|i: int| 0 <= i < grids.len() implies bank_grid_fault(
            #[trigger] grids[i],
            i as nat,
        ) is None by {
            assert(f(i) is None);
        }
    } else {
        let i = choose|i: int| 0 <= i < grids.len() && !((#[trigger] f(i)) is None);
        assert(!(bank_grid_fault(grids[i], i as nat) is None));
    }
    if forall|i: int| 0 <= i < bank.tables@.len() ==> (#[trigger] g(i)) is None {
        assert forall|i: int| 0 <= i < bank.tables@.len() implies table_fault(
            grids,
            #[trigger] bank.tables@[i],
        ) is None by {
            assert(g(i) is None);
        }
    } else {
        let i = choose|i: int| 0 <= i < bank.tables@.len() && !((#[trigger] g(i)) is None);
        assert(!(table_fault(grids, bank.tables@[i]) is None));
    }
}

} // verus!
