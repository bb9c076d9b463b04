//! The plan for averaging table banks on their union grid.
//!
//! Averaging checks every member, lays out the union grid and the tables that it
//! carries, and then says, for every cell of a union table, which cell of a
//! member it reads and among how many cells that member's support is split.
use crate::boosters::bank::{
    bank_fault, bank_grid_fault, extent_fault, extents_fault, extents_of,
    lemma_checked_grid, table_extents, validate_bank, RefMeasure, TableBank,
};
use crate::boosters::shape::{
    cells, cells_going_to, coord_of, flat_of, hits, hits_product, in_range, ints,
    law_cells_going_to_is_a_product, law_coord_inverts_flat, law_coord_is_in_range,
    law_flat_is_bounded, next_coord, product_cells, product_fault,
};
use crate::boosters::union::{
    covers, fanout_fault, fanout_of, has_border, law_every_source_cell_is_refined,
    law_fanouts_count_union_cells,
    lemma_count_bound, lemma_distinct_covers, map_fault, map_union_cell_to_source, mapped_cell, source_fanout, union_borders,
};
use crate::boosters::supports::{has_set, insert_set, set_name, set_text, sets_ascend};
use crate::constraints::FeatureSet;
use crate::data::grid::{
    distinct_of, lemma_distinct_ascends, lemma_value_sorted, total_sorted, unit_weight, value_sorted,
};
use crate::data::{borders_ascend, grid_views, BorderGrid, FeatureId, GridView};
use crate::error::{
    answers, first_fault, internal, invalid_config, lemma_all_none, lemma_first_fault, lemma_no_fault, Fault, PbError,
};
use crate::float::F32;
use crate::shown::{show, shown};
use crate::text::{dec, number_last, with_number};
use vstd::prelude::*;

verus! {

/// A bank with its weight in the average.
pub type Member = (F32, TableBank);

/// Why the weight of a member is refused.
pub open spec fn alpha_fault(members: Seq<Member>, i: int) -> Option<Fault> {
    if !members[i].0.finite() || members[i].0.key() < 0 {
        Some(
            Fault::InvalidConfig(
                "member "@ + dec(i as nat) + " alpha must be finite and >= 0, got "@ + shown(
                    members[i].0,
                ),
            ),
        )
    } else {
        None
    }
}

/// Why members cannot be averaged before looking at their banks.
pub open spec fn members_fault(members: Seq<Member>, w: RefMeasure) -> Option<Fault> {
    if members.len() == 0 {
        Some(Fault::InvalidConfig("average_banks requires at least one member"@))
    } else if w == RefMeasure::Joint {
        Some(
            Fault::InvalidConfig(
                "Joint reference measure is a v1.5 fork; v1 supports ProductMarginals/Uniform"@,
            ),
        )
    } else {
        first_fault(|i: int| alpha_fault(members, i), 0, members.len() as int)
    }
}

/// Checks that there are members, that the measure is offered, and that each
/// weight is usable.
pub fn check_members(members: &Vec<Member>, w: &RefMeasure) -> (r: Result<(), PbError>)
    ensures
        answers(r, members_fault(members@, *w)),
{
    if members.len() == 0 {
        return Err(invalid_config("average_banks requires at least one member"));
    }
    if *w == RefMeasure::Joint {
        return Err(
            invalid_config(
                "Joint reference measure is a v1.5 fork; v1 supports ProductMarginals/Uniform",
            ),
        );
    }
    let ghost f = |i: int| alpha_fault(members@, i);
    let mut i: usize = 0;
    while i < members.len()
        invariant
            i <= members.len(),
            members@.len() > 0,
            *w != RefMeasure::Joint,
            f == (|i: int| alpha_fault(members@, i)),
            forall|j: int| 0 <= j < i ==> (#[trigger] f(j)) is None,
        decreases members.len() - i,
    {
        proof {
            lemma_first_fault(f, 0, i as int, members@.len() as int);
        }
        let alpha: F32 = members[i].0;
        if !alpha.is_finite() || alpha.order_key() < 0 {
            assert(f(i as int) is Some);
            let mut what = with_number("member ", i as u64, " alpha must be finite and >= 0, got ");
            what.append(show(alpha).as_str());
            return Err(PbError::InvalidConfig { what });
        }
        assert(f(i as int) is None);
        i = i + 1;
    }
    proof {
        lemma_first_fault(f, 0, members@.len() as int, members@.len() as int);
    }
    Ok(())
}

/// The borders that the first `n` members have on one feature.
pub open spec fn all_borders(members: Seq<Member>, raw: int, n: nat) -> Seq<F32>
    decreases n,
{
    if n == 0 {
        Seq::empty()
    } else {
        all_borders(members, raw, (n - 1) as nat) + members[n - 1].1.merged_grids@[raw].borders@
    }
}

/// The borders of the union grid of one feature.
pub open spec fn union_of(members: Seq<Member>, raw: int) -> Seq<F32> {
    distinct_of(total_sorted(all_borders(members, raw, members.len())))
}

/// Whether every bank passes its check.
pub open spec fn banks_checked(members: Seq<Member>, w: RefMeasure) -> bool {
    &&& members.len() > 0
    &&& forall|i: int|
        0 <= i < members.len() ==> bank_fault(
            (#[trigger] members[i]).1,
            w,
            members[0].1.merged_grids@.len(),
        ) is None
}

/// A checked bank has well-formed grids with finite borders.
proof fn lemma_checked_bank(bank: TableBank, w: RefMeasure, expected: nat)
    requires
        bank_fault(bank, w, expected) is None,
    ensures
        bank.merged_grids@.len() == expected,
        forall|raw: int|
            0 <= raw < expected ==> (#[trigger] bank.merged_grids@[raw]).wf() && forall|i: int|
                0 <= i < bank.merged_grids@[raw].borders@.len()
                    ==> (#[trigger] bank.merged_grids@[raw].borders@[i]).finite(),
        forall|t: int|
            0 <= t < bank.tables@.len() ==> {
                &&& 1 <= (#[trigger] bank.tables@[t]).u.ids@.len() <= 3
                &&& extents_fault(expected, bank.tables@[t].u.ids@) is None
            },
{
    let grids = grid_views(bank.merged_grids@);
    let f = |i: int| bank_grid_fault(grids[i], i as nat);
    lemma_all_none(f, 0, grids.len() as int);
    assert forall|raw: int| 0 <= raw < expected implies (#[trigger] bank.merged_grids@[raw]).wf()
        && forall|i: int|
        0 <= i < bank.merged_grids@[raw].borders@.len()
            ==> (#[trigger] bank.merged_grids@[raw].borders@[i]).finite() by {
        assert(f(raw) is None);
        assert(grids[raw] == bank.merged_grids@[raw]@);
        lemma_checked_grid(bank.merged_grids@[raw], raw as nat);
    }
    let h = |i: int| crate::boosters::bank::table_fault(grids, bank.tables@[i]);
    lemma_all_none(h, 0, bank.tables@.len() as int);
    assert forall|t: int| 0 <= t < bank.tables@.len() implies {
        &&& 1 <= (#[trigger] bank.tables@[t]).u.ids@.len() <= 3
        &&& extents_fault(expected, bank.tables@[t].u.ids@) is None
    } by {
        assert(h(t) is None);
    }
}

/// Why a feature has no union grid.
pub open spec fn union_fault(members: Seq<Member>, raw: int) -> Option<Fault> {
    let n = union_of(members, raw).len() + 2;
    if n > u16::MAX {
        Some(Fault::TableBudget("union grid "@ + dec(raw as nat), n as u64, u16::MAX as u64))
    } else {
        None
    }
}

/// Whether a grid is the union grid of one feature.
pub open spec fn is_union_grid(g: BorderGrid, members: Seq<Member>, raw: int) -> bool {
    &&& g.wf()
    &&& g.borders@ == union_of(members, raw)
    &&& forall|m: int|
        0 <= m < members.len() ==> covers(
            g.borders@,
            (#[trigger] members[m]).1.merged_grids@[raw].borders@,
        )
}

/// The borders of every member are among all borders.
proof fn lemma_all_borders(members: Seq<Member>, raw: int, n: nat, m: int, i: int)
    requires
        0 <= m < n <= members.len(),
        0 <= i < members[m].1.merged_grids@[raw].borders@.len(),
    ensures
        all_borders(members, raw, n).contains(members[m].1.merged_grids@[raw].borders@[i]),
    decreases n,
{
    let before = all_borders(members, raw, (n - 1) as nat);
    let own = members[n - 1].1.merged_grids@[raw].borders@;
    let all = all_borders(members, raw, n);
    let b = members[m].1.merged_grids@[raw].borders@[i];
    if m < n - 1 {
        lemma_all_borders(members, raw, (n - 1) as nat, m, i);
        let j = choose|j: int| 0 <= j < before.len() && before[j] == b;
        assert(all[j] == b);
    } else {
        assert(all[before.len() + i] == b);
    }
}

/// Ascending borders are no more than there are numbers.
proof fn lemma_borders_are_few(borders: Seq<F32>, i: int)
    requires
        borders_ascend(borders),
        0 <= i < borders.len(),
    ensures
        borders[i].key() >= i - 0x7fff_ffff,
        i < 0x1_0000_0000,
    decreases i,
{
    if i > 0 {
        lemma_borders_are_few(borders, i - 1);
        assert(borders[i - 1].key() < borders[i].key());
    }
}

/// The union grid of each feature.
pub fn union_grids(members: &Vec<Member>, w: &RefMeasure) -> (r: Result<Vec<BorderGrid>, PbError>)
    requires
        banks_checked(members@, *w),
    ensures
        answers(
            r,
            first_fault(
                |raw: int| union_fault(members@, raw),
                0,
                members@[0].1.merged_grids@.len() as int,
            ),
        ),
        r is Ok ==> r->Ok_0@.len() == members@[0].1.merged_grids@.len() && forall|raw: int|
            0 <= raw < r->Ok_0@.len() ==> is_union_grid(#[trigger] r->Ok_0@[raw], members@, raw),
{
    let n: usize = members[0].1.merged_grids.len();
    let ghost f = |raw: int| union_fault(members@, raw);
    let mut out: Vec<BorderGrid> = Vec::with_capacity(n);
    let mut raw: usize = 0;
    while raw < n
        invariant
            raw <= n,
            n == members@[0].1.merged_grids@.len(),
            banks_checked(members@, *w),
            f == (|raw: int| union_fault(members@, raw)),
            forall|j: int| 0 <= j < raw ==> (#[trigger] f(j)) is None,
            out@.len() == raw,
            forall|j: int| 0 <= j < raw ==> is_union_grid(#[trigger] out@[j], members@, j),
        decreases n - raw,
    {
        proof {
            lemma_first_fault(f, 0, raw as int, n as int);
        }
        let mut all: Vec<F32> = Vec::new();
        let mut m: usize = 0;
        while m < members.len()
            invariant
                m <= members.len(),
                raw < n,
                n == members@[0].1.merged_grids@.len(),
                banks_checked(members@, *w),
                all@ == all_borders(members@, raw as int, m as nat),
                forall|i: int| 0 <= i < all@.len() ==> (#[trigger] all@[i]).finite(),
            decreases members.len() - m,
        {
            proof {
                assert(bank_fault(members@[m as int].1, *w, n as nat) is None);
                lemma_checked_bank(members@[m as int].1, *w, n as nat);
            }
            let ghost before = all@;
            let g: &BorderGrid = &members[m].1.merged_grids[raw];
            assert(members@[m as int].1.merged_grids@[raw as int].wf());
            let mut i: usize = 0;
            while i < g.borders.len()
                invariant
                    i <= g.borders.len(),
                    all@ == before + g.borders@.take(i as int),
                    forall|j: int| 0 <= j < before.len() ==> (#[trigger] before[j]).finite(),
                    forall|j: int| 0 <= j < g.borders@.len() ==> (#[trigger] g.borders@[j]).finite(),
                    forall|j: int| 0 <= j < all@.len() ==> (#[trigger] all@[j]).finite(),
                decreases g.borders.len() - i,
            {
                all.push(g.borders[i]);
                assert(before + g.borders@.take(i + 1) =~= (before + g.borders@.take(i as int)).push(
                    g.borders@[i as int],
                ));
                i = i + 1;
            }
            assert(g.borders@.take(i as int) =~= g.borders@);
            m = m + 1;
        }
        let borders = union_borders(&all);
        let k: usize = borders.len();
        if k > 65533 {
            assert(f(raw as int) is Some);
            proof {
                lemma_borders_are_few(borders@, k - 1);
            }
            return Err(
                PbError::TableBudget {
                    what: number_last("union grid ", raw as u64),
                    cells: k as u64 + 2,
                    budget: 65535,
                },
            );
        }
        assert(f(raw as int) is None);
        let g = BorderGrid { borders, n_bins: (k + 2) as u16, missing_bin: 0 };
        proof {
            assert forall|m: int| 0 <= m < members@.len() implies covers(
                g.borders@,
                (#[trigger] members@[m]).1.merged_grids@[raw as int].borders@,
            ) by {
                let own = members@[m].1.merged_grids@[raw as int].borders@;
                assert forall|i: int| 0 <= i < own.len() implies has_border(
                    g.borders@,
                    #[trigger] own[i],
                ) by {
                    lemma_all_borders(members@, raw as int, members@.len(), m, i);
                    let j = choose|j: int| 0 <= j < all@.len() && all@[j] == own[i];
                    assert(has_border(g.borders@, all@[j]));
                }
            }
        }
        out.push(g);
        raw = raw + 1;
    }
    proof {
        lemma_first_fault(f, 0, n as int, n as int);
    }
    Ok(out)
}


/// Whether some table of some member has this feature set.
pub open spec fn used_set(members: Seq<Member>, n: nat, ids: Seq<FeatureId>) -> bool {
    exists|m: int, t: int|
        0 <= m < n && 0 <= t < members[m].1.tables@.len() && (#[trigger] members[m].1.tables@[t]).u.ids@
            == ids
}

/// The feature sets of all tables, in ascending order, each once.
pub fn collect_supports(members: &Vec<Member>) -> (list: Vec<FeatureSet>)
    ensures
        sets_ascend(list@),
        forall|ids: Seq<FeatureId>| #[trigger]
            has_set(list@, ids) <==> used_set(members@, members@.len(), ids),
{
    let mut list: Vec<FeatureSet> = Vec::new();
    let mut m: usize = 0;
    while m < members.len()
        invariant
            m <= members.len(),
            sets_ascend(list@),
            forall|ids: Seq<FeatureId>| #[trigger]
                has_set(list@, ids) <==> used_set(members@, m as nat, ids),
        decreases members.len() - m,
    {
        let ghost before = list@;
        let tables = &members[m].1.tables;
        let mut t: usize = 0;
        while t < tables.len()
            invariant
                t <= tables.len(),
                m < members@.len(),
                *tables == members@[m as int].1.tables,
                sets_ascend(list@),
                forall|ids: Seq<FeatureId>| #[trigger]
                    has_set(list@, ids) <==> (has_set(before, ids) || exists|k: int|
                        0 <= k < t && (#[trigger] tables@[k]).u.ids@ == ids),
            decreases tables.len() - t,
        {
            insert_set(&mut list, &tables[t].u.ids);
            t = t + 1;
        }
        proof {
            assert forall|ids: Seq<FeatureId>| #[trigger] has_set(list@, ids) <==> used_set(
                members@,
                (m + 1) as nat,
                ids,
            ) by {
                if has_set(list@, ids) {
                    if has_set(before, ids) {
                        assert(used_set(members@, m as nat, ids));
                        let (a, b) = choose|a: int, b: int|
                            0 <= a < m && 0 <= b < members@[a].1.tables@.len() && (
                            #[trigger] members@[a].1.tables@[b]).u.ids@ == ids;
                        assert(members@[a].1.tables@[b].u.ids@ == ids);
                    } else {
                        let k = choose|k: int| 0 <= k < t && (#[trigger] tables@[k]).u.ids@ == ids;
                        assert(members@[m as int].1.tables@[k].u.ids@ == ids);
                    }
                }
                if used_set(members@, (m + 1) as nat, ids) {
                    let (a, b) = choose|a: int, b: int|
                        0 <= a < m + 1 && 0 <= b < members@[a].1.tables@.len() && (
                        #[trigger] members@[a].1.tables@[b]).u.ids@ == ids;
                    if a < m {
                        assert(used_set(members@, m as nat, ids));
                        assert(has_set(before, ids));
                    } else {
                        assert(tables@[b].u.ids@ == ids);
                    }
                }
            }
        }
        m = m + 1;
    }
    list
}

/// The cells of the tables of the first `n` feature sets.
pub open spec fn total_cells(grids: Seq<GridView>, sets: Seq<FeatureSet>, n: nat) -> nat
    decreases n,
{
    if n == 0 {
        0
    } else {
        total_cells(grids, sets, (n - 1) as nat) + set_cells(grids, sets[n - 1].ids@)
    }
}

/// The cells of the table of one feature set.
pub open spec fn set_cells(grids: Seq<GridView>, ids: Seq<FeatureId>) -> nat {
    cells(extents_of(grids, ids), ids.len())
}

/// Why the table of a feature set does not fit the budget.
pub open spec fn budget_fault(
    grids: Seq<GridView>,
    sets: Seq<FeatureSet>,
    max_table: u64,
    max_bank: u64,
    i: int,
) -> Option<Fault> {
    let ids = sets[i].ids@;
    let total = total_cells(grids, sets, (i + 1) as nat);
    if extents_fault(grids.len(), ids) is Some {
        extents_fault(grids.len(), ids)
    } else if product_fault(extents_of(grids, ids)) is Some {
        product_fault(extents_of(grids, ids))
    } else if set_cells(grids, ids) > max_table {
        Some(
            Fault::TableBudget(
                "average_banks table "@ + set_text(ids),
                set_cells(grids, ids) as u64,
                max_table,
            ),
        )
    } else if total > u64::MAX {
        Some(Fault::Internal("average_banks bank cell count overflow"@))
    } else if total > max_bank {
        Some(Fault::TableBudget("average_banks bank"@, total as u64, max_bank))
    } else {
        None
    }
}

/// The shape of each table of the average, within the budget of cells per table
/// and in all.
pub fn plan_tables(
    grids: &Vec<BorderGrid>,
    sets: &Vec<FeatureSet>,
    max_table_cells: u64,
    max_bank_cells: u64,
) -> (r: Result<Vec<Vec<usize>>, PbError>)
    ensures
        answers(
            r,
            first_fault(
                |i: int|
                    budget_fault(
                        grid_views(grids@),
                        sets@,
                        max_table_cells,
                        max_bank_cells,
                        i,
                    ),
                0,
                sets@.len() as int,
            ),
        ),
        r is Ok ==> r->Ok_0@.len() == sets@.len() && forall|i: int|
            0 <= i < sets@.len() ==> (#[trigger] r->Ok_0@[i])@ == extents_of(
                grid_views(grids@),
                sets@[i].ids@,
            ),
{
    let ghost views = grid_views(grids@);
    let ghost f = |i: int| budget_fault(views, sets@, max_table_cells, max_bank_cells, i);
    let mut out: Vec<Vec<usize>> = Vec::with_capacity(sets.len());
    let mut total: u64 = 0;
    let mut i: usize = 0;
    while i < sets.len()
        invariant
            i <= sets.len(),
            views == grid_views(grids@),
            f == (|i: int| budget_fault(views, sets@, max_table_cells, max_bank_cells, i)),
            forall|j: int| 0 <= j < i ==> (#[trigger] f(j)) is None,
            total == total_cells(views, sets@, i as nat),
            out@.len() == i,
            forall|j: int| 0 <= j < i ==> (#[trigger] out@[j])@ == extents_of(views, sets@[j].ids@),
        decreases sets.len() - i,
    {
        proof {
            lemma_first_fault(f, 0, i as int, sets@.len() as int);
            assert(f(i as int) == budget_fault(
                views,
                sets@,
                max_table_cells,
                max_bank_cells,
                i as int,
            ));
        }
        let extents = match table_extents(grids, &sets[i]) {
            Err(e) => return Err(e),
            Ok(x) => x,
        };
        let n: u64 = match product_cells(&extents) {
            Err(e) => return Err(e),
            Ok(n) => n,
        };
        assert(n == set_cells(views, sets@[i as int].ids@));
        if n > max_table_cells {
            let mut what = String::from_str("average_banks table ");
            what.append(set_name(&sets[i].ids).as_str());
            return Err(PbError::TableBudget { what, cells: n, budget: max_table_cells });
        }
        match total.checked_add(n) {
            None => return Err(internal("average_banks bank cell count overflow")),
            Some(t) => {
                total = t;
            },
        }
        if total > max_bank_cells {
            let what = String::from_str("average_banks bank");
            return Err(PbError::TableBudget { what, cells: total, budget: max_bank_cells });
        }
        assert(f(i as int) is None);
        out.push(extents);
        i = i + 1;
    }
    proof {
        lemma_first_fault(f, 0, sets@.len() as int, sets@.len() as int);
    }
    Ok(out)
}

/// What averaging writes to: the union grids, the feature sets, and the shape of
/// the table of each.
#[derive(Debug, Clone, PartialEq)]
pub struct AveragePlan {
    pub grids: Vec<BorderGrid>,
    pub supports: Vec<FeatureSet>,
    pub extents: Vec<Vec<usize>>,
}

/// Why there is no plan before the tables are sized.
pub open spec fn plan_fault(members: Seq<Member>, w: RefMeasure) -> Option<Fault> {
    let n = members[0].1.merged_grids@.len();
    let bank = first_fault(|i: int| bank_fault(members[i].1, w, n), 0, members.len() as int);
    if bank is Some {
        bank
    } else {
        first_fault(|raw: int| union_fault(members, raw), 0, n as int)
    }
}

/// Plans the average of checked members: checks each bank, makes the union grids,
/// collects the feature sets, and sizes their tables.
pub fn plan_average(
    members: &Vec<Member>,
    w: &RefMeasure,
    max_table_cells: u64,
    max_bank_cells: u64,
) -> (r: Result<AveragePlan, PbError>)
    requires
        members@.len() > 0,
    ensures
        plan_fault(members@, *w) is Some ==> answers(r, plan_fault(members@, *w)),
        plan_fault(members@, *w) is None ==> exists|grids: Seq<GridView>, sets: Seq<FeatureSet>|
            #[trigger] plan_outcome(r, members@, grids, sets, max_table_cells, max_bank_cells),
        r is Ok ==> banks_checked(members@, *w),
{
    let n: usize = members[0].1.merged_grids.len();
    let ghost f = |i: int| bank_fault(members@[i].1, *w, n as nat);
    let mut i: usize = 0;
    while i < members.len()
        invariant
            i <= members.len(),
            members@.len() > 0,
            n == members@[0].1.merged_grids@.len(),
            f == (|i: int| bank_fault(members@[i].1, *w, n as nat)),
            forall|j: int| 0 <= j < i ==> (#[trigger] f(j)) is None,
        decreases members.len() - i,
    {
        proof {
            lemma_first_fault(f, 0, i as int, members@.len() as int);
        }
        match validate_bank(&members[i].1, w, n) {
            Err(e) => {
                assert(f(i as int) is Some);
                return Err(e);
            },
            Ok(()) => {},
        }
        assert(f(i as int) is None);
        i = i + 1;
    }
    proof {
        lemma_first_fault(f, 0, members@.len() as int, members@.len() as int);
        assert forall|i: int| 0 <= i < members@.len() implies bank_fault(
            (#[trigger] members@[i]).1,
            *w,
            n as nat,
        ) is None by {
            assert(f(i) is None);
        }
    }
    let grids = match union_grids(members, w) {
        Err(e) => return Err(e),
        Ok(g) => g,
    };
    let supports = collect_supports(members);
    let ghost views = grid_views(grids@);
    let ghost sets = supports@;
    proof {
        assert forall|raw: int| 0 <= raw < n implies (#[trigger] views[raw]).borders == union_of(
            members@,
            raw,
        ) && views[raw].n_bins as int == union_of(members@, raw).len() + 2 && views[raw].missing_bin
            == 0 by {
            assert(is_union_grid(grids@[raw], members@, raw));
        }
    }
    match plan_tables(&grids, &supports, max_table_cells, max_bank_cells) {
        Err(e) => {
            let r = Err(e);
            assert(plan_outcome(r, members@, views, sets, max_table_cells, max_bank_cells));
            r
        },
        Ok(extents) => {
            let r = Ok(AveragePlan { grids, supports, extents });
            assert(plan_outcome(r, members@, views, sets, max_table_cells, max_bank_cells));
            r
        },
    }
}

/// How planning ends once the union grids are there: with the plan over the
/// union grids and the collected sets, or with the first set over budget.
pub open spec fn plan_outcome(
    r: Result<AveragePlan, PbError>,
    members: Seq<Member>,
    grids: Seq<GridView>,
    sets: Seq<FeatureSet>,
    max_table: u64,
    max_bank: u64,
) -> bool {
    &&& grids.len() == members[0].1.merged_grids@.len()
    &&& forall|raw: int|
        0 <= raw < grids.len() ==> (#[trigger] grids[raw]).borders == union_of(members, raw)
            && grids[raw].n_bins as int == union_of(members, raw).len() + 2
            && grids[raw].missing_bin == 0
    &&& sets_ascend(sets)
    &&& forall|ids: Seq<FeatureId>| #[trigger]
        has_set(sets, ids) <==> used_set(members, members.len(), ids)
    &&& answers(
        r,
        first_fault(|i: int| budget_fault(grids, sets, max_table, max_bank, i), 0, sets.len() as int),
    )
    &&& r is Ok ==> {
        &&& grid_views(r->Ok_0.grids@) == grids
        &&& forall|raw: int|
            0 <= raw < grids.len() ==> is_union_grid(#[trigger] r->Ok_0.grids@[raw], members, raw)
        &&& r->Ok_0.supports@ == sets
        &&& r->Ok_0.extents@.len() == sets.len()
        &&& forall|i: int|
            0 <= i < sets.len() ==> (#[trigger] r->Ok_0.extents@[i])@ == extents_of(
                grids,
                sets[i].ids@,
            )
    }
}

/// The map from union cells to source cells on each axis of a feature set.
pub open spec fn axis_map(
    unions: Seq<GridView>,
    sources: Seq<GridView>,
    u: Seq<FeatureId>,
) -> spec_fn(int, int) -> int {
    |k: int, c: int|
        mapped_cell(unions[u[k].0 as int].borders, sources[u[k].0 as int].borders, c)
}

/// The source coordinate of a union coordinate.
pub open spec fn mapped_coord(
    unions: Seq<GridView>,
    sources: Seq<GridView>,
    u: Seq<FeatureId>,
    coord: Seq<int>,
) -> Seq<int> {
    Seq::new(u.len(), |k: int| axis_map(unions, sources, u)(k, coord[k]))
}

/// Where a union cell reads in a source table, and among how many union cells
/// the support there is split.
#[derive(Debug, Clone, Copy, PartialEq, Eq, Structural)]
pub struct SourceCell {
    pub index: u64,
    pub share: u64,
}

/// Whether grids are well formed at every feature of a set.
pub open spec fn grids_serve(grids: Seq<BorderGrid>, u: Seq<FeatureId>) -> bool {
    forall|k: int|
        0 <= k < u.len() ==> (#[trigger] u[k]).0 < grids.len() && grids[u[k].0 as int].wf()
}

/// Whether a source cell is the one of the union cell at `j`.
pub open spec fn is_source_cell(
    s: SourceCell,
    unions: Seq<GridView>,
    sources: Seq<GridView>,
    u: Seq<FeatureId>,
    j: int,
) -> bool {
    let ext = extents_of(unions, u);
    let src = mapped_coord(unions, sources, u, coord_of(ext, j, u.len()));
    &&& s.index as int == flat_of(extents_of(sources, u), src, u.len())
    &&& (s.index as int) < cells(extents_of(sources, u), u.len())
    &&& s.share == hits_product(axis_map(unions, sources, u), ext, src, u.len())
}


/// A bound on counts over `n` axes.
spec fn axis_power(n: nat) -> nat {
    if n == 0 {
        1
    } else if n == 1 {
        65535
    } else if n == 2 {
        4294836225
    } else {
        281462092005375
    }
}

proof fn lemma_axis_power(a: nat, b: nat, n: nat)
    requires
        n <= 2,
        a <= axis_power(n),
        b <= 65535,
    ensures
        a * b <= axis_power(n + 1),
{
    assert(a * b <= axis_power(n) * 65535) by (nonlinear_arith)
        requires
            a <= axis_power(n),
            b <= 65535,
    ;
}

proof fn lemma_cells_bound(shape: Seq<usize>, n: nat)
    requires
        n <= 3,
        n <= shape.len(),
        forall|k: int| 0 <= k < shape.len() ==> (#[trigger] shape[k]) <= 65535,
    ensures
        cells(shape, n) <= axis_power(n),
    decreases n,
{
    if n > 0 {
        lemma_cells_bound(shape, (n - 1) as nat);
        assert(shape[n - 1] <= 65535);
        lemma_axis_power(cells(shape, (n - 1) as nat), shape[n - 1] as nat, (n - 1) as nat);
    }
}

proof fn lemma_hits_bound(m: spec_fn(int, int) -> int, k: int, s: int, n: nat)
    ensures
        hits(m, k, s, n) <= n,
    decreases n,
{
    if n > 0 {
        lemma_hits_bound(m, k, s, (n - 1) as nat);
    }
}

/// The hits of an axis are its fanout.
proof fn lemma_hits_is_fanout(
    unions: Seq<GridView>,
    sources: Seq<GridView>,
    u: Seq<FeatureId>,
    k: int,
    s: int,
    n: nat,
)
    ensures
        hits(axis_map(unions, sources, u), k, s, n) == fanout_of(
            unions[u[k].0 as int].borders,
            sources[u[k].0 as int].borders,
            s,
            n,
        ),
    decreases n,
{
    if n > 0 {
        lemma_hits_is_fanout(unions, sources, u, k, s, (n - 1) as nat);
    }
}

/// Between well-formed grids every union cell has a source cell.
proof fn lemma_maps_within(union: BorderGrid, source: BorderGrid, c: int)
    requires
        union.wf(),
        source.wf(),
        0 <= c < union.n_bins,
    ensures
        fanout_fault(union.borders@, source@, c) is None,
        map_fault(union.borders@, source@, c) is None,
        0 <= mapped_cell(union.borders@, source.borders@, c) < source.n_bins,
{
    if c >= 2 {
        lemma_count_bound(source.borders@, union.borders@[c - 2]);
    }
}

/// The fanout of every axis of a feature set.
fn all_fanouts(unions: &Vec<BorderGrid>, sources: &Vec<BorderGrid>, u: &FeatureSet) -> (f: Vec<
    Vec<usize>,
>)
    requires
        grids_serve(unions@, u.ids@),
        grids_serve(sources@, u.ids@),
    ensures
        f@.len() == u.ids@.len(),
        forall|k: int|
            0 <= k < f@.len() ==> is_fanout((#[trigger] f@[k])@, unions@, sources@, u.ids@[k]),
{
    let mut out: Vec<Vec<usize>> = Vec::with_capacity(u.ids.len());
    let mut k: usize = 0;
    while k < u.ids.len()
        invariant
            k <= u.ids.len(),
            grids_serve(unions@, u.ids@),
            grids_serve(sources@, u.ids@),
            out@.len() == k,
            forall|j: int|
                0 <= j < k ==> is_fanout((#[trigger] out@[j])@, unions@, sources@, u.ids@[j]),
        decreases u.ids.len() - k,
    {
        let raw: usize = u.ids[k].0 as usize;
        assert(u.ids@[k as int].0 == raw);
        let ghost a = unions@[raw as int];
        let ghost b = sources@[raw as int];
        let ghost f = |c: int| fanout_fault(a.borders@, b@, c);
        proof {
            assert forall|c: int| 0 <= c < a.n_bins implies (#[trigger] f(c)) is None by {
                lemma_maps_within(a, b, c);
            }
            lemma_first_fault(f, 0, a.n_bins as int, a.n_bins as int);
        }
        match source_fanout(&unions[raw], &sources[raw]) {
            Ok(v) => {
                out.push(v);
            },
            Err(_) => {
                assert(false);
            },
        }
        k = k + 1;
    }
    out
}

/// Whether a list holds the fanout of every source cell of one feature.
pub open spec fn is_fanout(
    f: Seq<usize>,
    unions: Seq<BorderGrid>,
    sources: Seq<BorderGrid>,
    raw: FeatureId,
) -> bool {
    let a = unions[raw.0 as int];
    let b = sources[raw.0 as int];
    &&& f.len() == b.n_bins
    &&& forall|s: int|
        0 <= s < f.len() ==> (#[trigger] f[s]) == fanout_of(
            a.borders@,
            b.borders@,
            s,
            a.n_bins as nat,
        )
}

/// The source cell of one union coordinate.
fn source_cell(
    unions: &Vec<BorderGrid>,
    sources: &Vec<BorderGrid>,
    u: &FeatureSet,
    fanouts: &Vec<Vec<usize>>,
    coord: &Vec<usize>,
) -> (s: SourceCell)
    requires
        u.ids@.len() <= 3,
        grids_serve(unions@, u.ids@),
        grids_serve(sources@, u.ids@),
        in_range(ints(coord@), extents_of(grid_views(unions@), u.ids@)),
        fanouts@.len() == u.ids@.len(),
        forall|k: int|
            0 <= k < fanouts@.len() ==> is_fanout(
                (#[trigger] fanouts@[k])@,
                unions@,
                sources@,
                u.ids@[k],
            ),
    ensures
        ({
            let a = grid_views(unions@);
            let b = grid_views(sources@);
            let src = mapped_coord(a, b, u.ids@, ints(coord@));
            let n = u.ids@.len();
            &&& s.index as int == flat_of(extents_of(b, u.ids@), src, n)
            &&& (s.index as int) < cells(extents_of(b, u.ids@), n)
            &&& s.share == hits_product(
                axis_map(a, b, u.ids@),
                extents_of(a, u.ids@),
                src,
                n,
            )
        }),
{
    let ghost a = grid_views(unions@);
    let ghost b = grid_views(sources@);
    let ghost ext = extents_of(a, u.ids@);
    let ghost sext = extents_of(b, u.ids@);
    let ghost m = axis_map(a, b, u.ids@);
    let ghost src = mapped_coord(a, b, u.ids@, ints(coord@));
    proof {
        assert forall|k: int| 0 <= k < sext.len() implies (#[trigger] sext[k]) <= 65535 && 0 <= src[k]
            < sext[k] by {
            let raw = u.ids@[k].0 as int;
            assert(b[raw] == sources@[raw]@);
            assert(a[raw] == unions@[raw]@);
            assert(ints(coord@)[k] < ext[k]);
            lemma_maps_within(unions@[raw], sources@[raw], ints(coord@)[k]);
        }
        assert(in_range(src, sext));
    }
    let mut index: u64 = 0;
    let mut share: u64 = 1;
    let mut k: usize = 0;
    while k < u.ids.len()
        invariant
            k <= u.ids.len(),
            u.ids@.len() <= 3,
            grids_serve(unions@, u.ids@),
            grids_serve(sources@, u.ids@),
            a == grid_views(unions@),
            b == grid_views(sources@),
            ext == extents_of(a, u.ids@),
            sext == extents_of(b, u.ids@),
            m == axis_map(a, b, u.ids@),
            src == mapped_coord(a, b, u.ids@, ints(coord@)),
            in_range(ints(coord@), ext),
            in_range(src, sext),
            forall|j: int| 0 <= j < sext.len() ==> (#[trigger] sext[j]) <= 65535,
            fanouts@.len() == u.ids@.len(),
            forall|j: int|
                0 <= j < fanouts@.len() ==> is_fanout(
                    (#[trigger] fanouts@[j])@,
                    unions@,
                    sources@,
                    u.ids@[j],
                ),
            index as int == flat_of(sext, src, k as nat),
            share == hits_product(m, ext, src, k as nat),
            share <= axis_power(k as nat),
        decreases u.ids.len() - k,
    {
        let raw: usize = u.ids[k].0 as usize;
        assert(u.ids@[k as int].0 == raw);
        let c: usize = coord[k];
        proof {
            assert(a[raw as int] == unions@[raw as int]@);
            assert(b[raw as int] == sources@[raw as int]@);
            assert(ints(coord@)[k as int] == c);
            assert(ints(coord@)[k as int] < ext[k as int]);
            lemma_maps_within(unions@[raw as int], sources@[raw as int], c as int);
        }
        let s: usize = match map_union_cell_to_source(&unions[raw], &sources[raw], c) {
            Ok(s) => s,
            Err(_) => {
                assert(false);
                0
            },
        };
        assert(src[k as int] == s);
        assert(is_fanout(fanouts@[k as int]@, unions@, sources@, u.ids@[k as int]));
        let f: usize = fanouts[k][s];
        proof {
            lemma_hits_is_fanout(a, b, u.ids@, k as int, s as int, ext[k as int] as nat);
            lemma_hits_bound(m, k as int, s as int, ext[k as int] as nat);
            lemma_axis_power(share as nat, f as nat, k as nat);
            law_flat_is_bounded(sext, src, k as nat);
            law_flat_is_bounded(sext, src, (k + 1) as nat);
            lemma_cells_bound(sext, k as nat);
            lemma_cells_bound(sext, (k + 1) as nat);
            assert(sext[k as int] <= 65535);
            lemma_axis_power(index as nat, sext[k as int] as nat, k as nat);
        }
        index = index * (sources[raw].n_bins as u64) + s as u64;
        share = share * f as u64;
        k = k + 1;
    }
    proof {
        law_flat_is_bounded(sext, src, u.ids@.len());
    }
    SourceCell { index, share }
}

/// For every cell of a union table, in row-major order, the source cell it reads
/// and its share of the support there.
pub fn source_cells(unions: &Vec<BorderGrid>, sources: &Vec<BorderGrid>, u: &FeatureSet) -> (v: Vec<
    SourceCell,
>)
    requires
        u.ids@.len() <= 3,
        grids_serve(unions@, u.ids@),
        grids_serve(sources@, u.ids@),
    ensures
        v@.len() == set_cells(grid_views(unions@), u.ids@),
        forall|j: int|
            0 <= j < v@.len() ==> is_source_cell(
                #[trigger] v@[j],
                grid_views(unions@),
                grid_views(sources@),
                u.ids@,
                j,
            ),
{
    let ghost a = grid_views(unions@);
    let ghost b = grid_views(sources@);
    let ghost ext = extents_of(a, u.ids@);
    let ghost n = u.ids@.len();
    let fanouts = all_fanouts(unions, sources, u);
    let mut extents: Vec<usize> = Vec::with_capacity(u.ids.len());
    let mut coord: Vec<usize> = Vec::with_capacity(u.ids.len());
    let mut k: usize = 0;
    while k < u.ids.len()
        invariant
            k <= u.ids.len(),
            a == grid_views(unions@),
            ext == extents_of(a, u.ids@),
            grids_serve(unions@, u.ids@),
            extents@.len() == k,
            coord@.len() == k,
            forall|j: int| 0 <= j < k ==> #[trigger] extents@[j] == ext[j],
            forall|j: int| 0 <= j < k ==> #[trigger] coord@[j] == 0,
            forall|j: int| 0 <= j < k ==> (#[trigger] ext[j]) > 0,
        decreases u.ids.len() - k,
    {
        let raw: usize = u.ids[k].0 as usize;
        assert(u.ids@[k as int].0 == raw);
        assert(a[raw as int] == unions@[raw as int]@);
        extents.push(unions[raw].n_bins as usize);
        coord.push(0);
        k = k + 1;
    }
    assert(extents@ =~= ext);
    let mut out: Vec<SourceCell> = Vec::new();
    let mut more: bool = true;
    proof {
        assert(in_range(ints(coord@), ext));
        lemma_flat_of_zeros(ext, ints(coord@), n);
    }
    while more
        invariant
            a == grid_views(unions@),
            b == grid_views(sources@),
            ext == extents_of(a, u.ids@),
            extents@ == ext,
            n == u.ids@.len(),
            n <= 3,
            ext.len() == n,
            grids_serve(unions@, u.ids@),
            grids_serve(sources@, u.ids@),
            fanouts@.len() == n,
            forall|j: int|
                0 <= j < fanouts@.len() ==> is_fanout(
                    (#[trigger] fanouts@[j])@,
                    unions@,
                    sources@,
                    u.ids@[j],
                ),
            in_range(ints(coord@), ext),
            more ==> out@.len() == flat_of(ext, ints(coord@), n),
            !more ==> out@.len() == cells(ext, n),
            forall|j: int| 0 <= j < out@.len() ==> is_source_cell(#[trigger] out@[j], a, b, u.ids@, j),
        decreases (if more {
            cells(ext, n) - out@.len()
        } else {
            0
        }),
    {
        let s = source_cell(unions, sources, u, &fanouts, &coord);
        proof {
            law_flat_is_bounded(ext, ints(coord@), n);
            law_coord_inverts_flat(ext, ints(coord@), n);
            assert(ints(coord@).take(n as int) =~= ints(coord@));
            assert(is_source_cell(s, a, b, u.ids@, out@.len() as int));
        }
        out.push(s);
        more = next_coord(&mut coord, &extents);
        proof {
            law_flat_is_bounded(ext, ints(coord@), n);
        }
    }
    out
}

proof fn lemma_flat_of_zeros(shape: Seq<usize>, coord: Seq<int>, n: nat)
    requires
        forall|k: int| 0 <= k < n ==> #[trigger] coord[k] == 0,
    ensures
        flat_of(shape, coord, n) == 0,
    decreases n,
{
    if n > 0 {
        lemma_flat_of_zeros(shape, coord, (n - 1) as nat);
        assert(coord[n - 1] == 0);
    }
}

/// Splitting conserves support: the share at which a union cell reads a source
/// cell is the number of union cells that read that source cell.
pub proof fn law_share_counts_readers(
    unions: Seq<BorderGrid>,
    sources: Seq<BorderGrid>,
    u: Seq<FeatureId>,
    s: SourceCell,
    j: int,
)
    requires
        grids_serve(unions, u),
        grids_serve(sources, u),
        is_source_cell(s, grid_views(unions), grid_views(sources), u, j),
    ensures
        s.share == cells_going_to(
            axis_map(grid_views(unions), grid_views(sources), u),
            extents_of(grid_views(unions), u),
            mapped_coord(
                grid_views(unions),
                grid_views(sources),
                u,
                coord_of(extents_of(grid_views(unions), u), j, u.len()),
            ),
            u.len(),
            set_cells(grid_views(unions), u),
        ),
{
    let a = grid_views(unions);
    let ext = extents_of(a, u);
    assert forall|k: int| 0 <= k < u.len() implies (#[trigger] ext[k]) > 0 by {
        assert(u[k].0 < unions.len());
        assert(a[u[k].0 as int] == unions[u[k].0 as int]@);
    }
    law_cells_going_to_is_a_product(
        axis_map(a, grid_views(sources), u),
        ext,
        mapped_coord(a, grid_views(sources), u, coord_of(ext, j, u.len())),
        u.len(),
    );
}

/// No support is lost: every cell of a source table is read by a union cell.
pub proof fn law_every_source_cell_has_a_reader(
    unions: Seq<BorderGrid>,
    sources: Seq<BorderGrid>,
    u: Seq<FeatureId>,
    q: int,
) -> (j: int)
    requires
        grids_serve(unions, u),
        grids_serve(sources, u),
        forall|k: int|
            0 <= k < u.len() ==> covers(
                unions[(#[trigger] u[k]).0 as int].borders@,
                sources[u[k].0 as int].borders@,
            ),
        0 <= q < set_cells(grid_views(sources), u),
    ensures
        0 <= j < set_cells(grid_views(unions), u),
        flat_of(
            extents_of(grid_views(sources), u),
            mapped_coord(
                grid_views(unions),
                grid_views(sources),
                u,
                coord_of(extents_of(grid_views(unions), u), j, u.len()),
            ),
            u.len(),
        ) == q,
{
    let a = grid_views(unions);
    let b = grid_views(sources);
    let ext = extents_of(a, u);
    let src_ext = extents_of(b, u);
    let n = u.len();
    let src = coord_of(src_ext, q, n);
    law_coord_is_in_range(src_ext, q, n);
    let refines = |k: int, c: int| 0 <= c < ext[k] && axis_map(a, b, u)(k, c) == src[k];
    let coord = Seq::new(n, |k: int| choose|c: int| #[trigger] refines(k, c));
    assert forall|k: int| 0 <= k < n implies refines(k, #[trigger] coord[k]) by {
        let raw = u[k].0 as int;
        assert(a[raw] == unions[raw]@ && b[raw] == sources[raw]@);
        assert(0 <= src[k] < src_ext[k]);
        let c = law_every_source_cell_is_refined(
            unions[raw].borders@,
            sources[raw].borders@,
            src[k],
        );
        assert(refines(k, c));
    }
    assert(in_range(coord, ext)) by {
        assert forall|k: int| 0 <= k < coord.len() implies 0 <= #[trigger] coord[k] < ext[k] by {
            assert(refines(k, coord[k]));
        }
    }
    law_flat_is_bounded(ext, coord, n);
    law_coord_inverts_flat(ext, coord, n);
    assert(coord.take(n as int) =~= coord);
    let j = flat_of(ext, coord, n);
    assert(mapped_coord(a, b, u, coord_of(ext, j, n)) =~= src) by {
        assert forall|k: int| 0 <= k < n implies mapped_coord(a, b, u, coord)[k] == src[k] by {
            assert(refines(k, coord[k]));
        }
    }
    j
}

/// The grids of a plan serve every table of every member.
pub proof fn law_plan_serves_members(
    plan: AveragePlan,
    members: Seq<Member>,
    w: RefMeasure,
    m: int,
    t: int,
)
    requires
        banks_checked(members, w),
        plan.grids@.len() == members[0].1.merged_grids@.len(),
        forall|raw: int|
            0 <= raw < plan.grids@.len() ==> is_union_grid(#[trigger] plan.grids@[raw], members, raw),
        0 <= m < members.len(),
        0 <= t < members[m].1.tables@.len(),
    ensures
        members[m].1.tables@[t].u.ids@.len() <= 3,
        grids_serve(plan.grids@, members[m].1.tables@[t].u.ids@),
        grids_serve(members[m].1.merged_grids@, members[m].1.tables@[t].u.ids@),
{
    let n = plan.grids@.len();
    let bank = members[m].1;
    assert(bank_fault(bank, w, n) is None);
    lemma_checked_bank(bank, w, n);
    let ids = bank.tables@[t].u.ids@;
    assert(extents_fault(n, ids) is None);
    let f = |i: int| extent_fault(n, ids, i);
    lemma_all_none(f, 0, ids.len() as int);
    assert forall|k: int| 0 <= k < ids.len() implies (#[trigger] ids[k]).0 < n && plan.grids@[ids[k].0 as int].wf()
        && bank.merged_grids@[ids[k].0 as int].wf() by {
        assert(f(k) is None);
        assert(is_union_grid(plan.grids@[ids[k].0 as int], members, ids[k].0 as int));
    }
}

/// Members are accepted exactly when there are some, the measure is not the joint
/// one, and every weight is finite and not negative.
pub proof fn law_accepted_members_are_sound(members: Seq<Member>, w: RefMeasure)
    ensures
        members_fault(members, w) is None <==> members.len() > 0 && w != RefMeasure::Joint && forall|
            i: int,
        |
            0 <= i < members.len() ==> (#[trigger] members[i]).0.finite() && members[i].0.key() >= 0,
{
    let f = |i: int| alpha_fault(members, i);
    lemma_no_fault(f, members.len() as int);
    if forall|i: int| 0 <= i < members.len() ==> (#[trigger] f(i)) is None {
        assert forall|i: int| 0 <= i < members.len() implies (#[trigger] members[i]).0.finite()
            && members[i].0.key() >= 0 by {
            assert(f(i) is None);
        }
    } else {
        let i = choose|i: int| 0 <= i < members.len() && !((#[trigger] f(i)) is None);
        assert(members[i] == members[i]);
    }
}

/// Tables are planned exactly when every support lies within the grids, no table
/// has more cells than a table may have, and all together no more than a bank may
/// have.
pub proof fn law_planned_tables_keep_both_budgets(
    grids: Seq<GridView>,
    sets: Seq<FeatureSet>,
    max_table: u64,
    max_bank: u64,
)
    requires
        forall|i: int|
            #![trigger sets[i]]
            0 <= i < sets.len() ==> extents_fault(grids.len(), sets[i].ids@) is None && product_fault(
                extents_of(grids, sets[i].ids@),
            ) is None,
    ensures
        first_fault(
            |i: int| budget_fault(grids, sets, max_table, max_bank, i),
            0,
            sets.len() as int,
        ) is None <==> {
            &&& forall|i: int|
                #![trigger sets[i]]
                0 <= i < sets.len() ==> cells(extents_of(grids, sets[i].ids@), sets[i].ids@.len())
                    <= max_table
            &&& sets.len() > 0 ==> total_cells(grids, sets, sets.len()) <= max_bank
        },
{
    let f = |i: int| budget_fault(grids, sets, max_table, max_bank, i);
    lemma_no_fault(f, sets.len() as int);
    if forall|i: int| 0 <= i < sets.len() ==> (#[trigger] f(i)) is None {
        assert forall|i: int| #![trigger sets[i]] 0 <= i < sets.len() implies cells(
            extents_of(grids, sets[i].ids@),
            sets[i].ids@.len(),
        ) <= max_table by {
            assert(f(i) is None);
        }
        if sets.len() > 0 {
            assert(f(sets.len() - 1) is None);
        }
    } else {
        let i = choose|i: int| 0 <= i < sets.len() && !((#[trigger] f(i)) is None);
        assert(sets[i] == sets[i]);
        lemma_totals_grow(grids, sets, (i + 1) as nat, sets.len());
    }
}

/// More tables have no fewer cells.
proof fn lemma_totals_grow(grids: Seq<GridView>, sets: Seq<FeatureSet>, m: nat, n: nat)
    requires
        m <= n,
    ensures
        total_cells(grids, sets, m) <= total_cells(grids, sets, n),
    decreases n,
{
    if m < n {
        lemma_totals_grow(grids, sets, m, (n - 1) as nat);
    }
}

/// The cells of a support are the product of the bins of its grids.
pub proof fn law_a_support_has_a_cell_per_combination(grids: Seq<GridView>, ids: Seq<FeatureId>)
    requires
        1 <= ids.len() <= 3,
    ensures
        ({
            let a = grids[ids[0].0 as int].n_bins as nat;
            let b = grids[ids[1].0 as int].n_bins as nat;
            let c = grids[ids[2].0 as int].n_bins as nat;
            &&& ids.len() == 1 ==> set_cells(grids, ids) == a
            &&& ids.len() == 2 ==> set_cells(grids, ids) == a * b
            &&& ids.len() == 3 ==> set_cells(grids, ids) == a * b * c
        }),
{
    reveal_with_fuel(cells, 4);
    let e = extents_of(grids, ids);
    let a = grids[ids[0].0 as int].n_bins as nat;
    assert(1 * a == a);
    assert(e[0] == a);
    if ids.len() > 1 {
        assert(e[1] == grids[ids[1].0 as int].n_bins as nat);
    }
    if ids.len() > 2 {
        assert(e[2] == grids[ids[2].0 as int].n_bins as nat);
    }
}

/// The union has the borders of the members and no others: every border of a
/// member has its equal in it, every border of it is one of some member, and they
/// ascend.
pub proof fn law_the_union_has_the_borders_of_its_members(
    members: Seq<Member>,
    raw: int,
    m: int,
    i: int,
    j: int,
)
    requires
        forall|m: int, i: int|
            0 <= m < members.len() && 0 <= i < members[m].1.merged_grids@[raw].borders@.len() ==> (
            #[trigger] members[m].1.merged_grids@[raw].borders@[i]).finite(),
    ensures
        0 <= m < members.len() && 0 <= i < members[m].1.merged_grids@[raw].borders@.len() ==> exists|
            k: int,
        |
            0 <= k < union_of(members, raw).len() && (#[trigger] union_of(members, raw)[k]).same(
                members[m].1.merged_grids@[raw].borders@[i],
            ),
        0 <= j < union_of(members, raw).len() ==> exists|n: int, k: int|
            0 <= n < members.len() && 0 <= k < members[n].1.merged_grids@[raw].borders@.len()
                && union_of(members, raw)[j] == #[trigger] members[n].1.merged_grids@[raw].borders@[k],
        borders_ascend(union_of(members, raw)),
{
    let all = all_borders(members, raw, members.len());
    let pairs = all.map_values(|v: F32| (v, unit_weight()));
    lemma_value_sorted(pairs);
    let s = value_sorted(pairs);
    let vs = total_sorted(all);
    let d = union_of(members, raw);
    assert forall|x: int| 0 <= x < vs.len() implies all.contains(#[trigger] vs[x]) by {
        assert(pairs.contains(s[x]));
        let r = choose|r: int| 0 <= r < pairs.len() && pairs[r] == s[x];
        assert(all[r] == vs[x]);
    }
    assert forall|x: int| 0 <= x < vs.len() implies (#[trigger] vs[x]).finite() by {
        assert(all.contains(vs[x]));
        let r = choose|r: int| 0 <= r < all.len() && all[r] == vs[x];
        let (n, k) = lemma_border_owner(members, raw, members.len(), r);
        assert(members[n].1.merged_grids@[raw].borders@[k].finite());
    }
    lemma_distinct_ascends(vs);
    if 0 <= m < members.len() && 0 <= i < members[m].1.merged_grids@[raw].borders@.len() {
        let b = members[m].1.merged_grids@[raw].borders@[i];
        lemma_all_borders(members, raw, members.len(), m, i);
        let r = choose|r: int| 0 <= r < all.len() && all[r] == b;
        assert(pairs[r] == (b, unit_weight()));
        assert(pairs.contains((b, unit_weight())));
        assert(s.contains((b, unit_weight())));
        let x = choose|x: int| 0 <= x < s.len() && s[x] == (b, unit_weight());
        assert(vs[x] == b);
        lemma_distinct_covers(vs, x);
        let k = choose|k: int| 0 <= k < d.len() && (#[trigger] d[k]).same(b);
        assert(d[k].same(b));
    }
    if 0 <= j < d.len() {
        assert(vs.contains(d[j]));
        let x = choose|x: int| 0 <= x < vs.len() && vs[x] == d[j];
        assert(all.contains(vs[x]));
        let r = choose|r: int| 0 <= r < all.len() && all[r] == vs[x];
        let (n, k) = lemma_border_owner(members, raw, members.len(), r);
        assert(d[j] == members[n].1.merged_grids@[raw].borders@[k]);
    }
}

/// Every border is one of some member.
proof fn lemma_border_owner(members: Seq<Member>, raw: int, n: nat, r: int) -> (at: (int, int))
    requires
        n <= members.len(),
        0 <= r < all_borders(members, raw, n).len(),
    ensures
        0 <= at.0 < n,
        0 <= at.1 < members[at.0].1.merged_grids@[raw].borders@.len(),
        all_borders(members, raw, n)[r] == members[at.0].1.merged_grids@[raw].borders@[at.1],
    decreases n,
{
    let before = all_borders(members, raw, (n - 1) as nat);
    if r < before.len() {
        lemma_border_owner(members, raw, (n - 1) as nat, r)
    } else {
        (n - 1, r - before.len())
    }
}

/// A support is averaged exactly when some table of some member has it.
pub proof fn law_averaged_supports_belong_to_members(members: Seq<Member>, ids: Seq<FeatureId>)
    ensures
        used_set(members, members.len(), ids) <==> exists|m: int, t: int|
            0 <= m < members.len() && 0 <= t < members[m].1.tables@.len() && (
            #[trigger] members[m].1.tables@[t]).u.ids@ == ids,
{
}

/// Members are planned exactly when every bank is accepted, with the features of the
/// first, and the union of every feature has bins that 16 bits count.
pub proof fn law_planned_members_fit(members: Seq<Member>, w: RefMeasure)
    requires
        members.len() > 0,
    ensures
        plan_fault(members, w) is None <==> {
            &&& forall|i: int|
                0 <= i < members.len() ==> bank_fault(
                    (#[trigger] members[i]).1,
                    w,
                    members[0].1.merged_grids@.len(),
                ) is None
            &&& forall|raw: int|
                0 <= raw < members[0].1.merged_grids@.len() ==> (#[trigger] union_of(members, raw)).len()
                    + 2 <= 0xffff
        },
{
    let n = members[0].1.merged_grids@.len();
    let f = |i: int| bank_fault(members[i].1, w, n);
    let g = |raw: int| union_fault(members, raw);
    lemma_no_fault(f, members.len() as int);
    lemma_no_fault(g, n as int);
    if forall|i: int| 0 <= i < members.len() ==> (#[trigger] f(i)) is None {
        assert forall|i: int| 0 <= i < members.len() implies bank_fault(
            (#[trigger] members[i]).1,
            w,
            n,
        ) is None by {
            assert(f(i) is None);
        }
    } else {
        let i = choose|i: int| 0 <= i < members.len() && !((#[trigger] f(i)) is None);
        assert(!(bank_fault(members[i].1, w, n) is None));
    }
    if forall|raw: int| 0 <= raw < n ==> (#[trigger] g(raw)) is None {
        assert forall|raw: int| 0 <= raw < n implies (#[trigger] union_of(members, raw)).len() + 2
            <= 0xffff by {
            assert(g(raw) is None);
        }
    } else {
        let raw = choose|raw: int| 0 <= raw < n && !((#[trigger] g(raw)) is None);
        assert(union_of(members, raw).len() + 2 > 0xffff);
    }
}

/// A plan keeps both budgets, has a table for every support that some member has and
/// for no other, and lays each table out on the bins of the union.
pub proof fn law_plans_keep_their_promises(
    r: Result<AveragePlan, PbError>,
    members: Seq<Member>,
    grids: Seq<GridView>,
    sets: Seq<FeatureSet>,
    max_table: u64,
    max_bank: u64,
    i: int,
    k: int,
)
    requires
        plan_outcome(r, members, grids, sets, max_table, max_bank),
        r is Ok,
        0 <= i < r->Ok_0.supports@.len(),
        0 <= k < r->Ok_0.supports@[i].ids@.len(),
    ensures
        ({
            let plan = r->Ok_0;
            let ids = plan.supports@[i].ids@;
            &&& cells(plan.extents@[i]@, ids.len()) <= max_table
            &&& total_cells(grid_views(plan.grids@), plan.supports@, plan.supports@.len()) <= max_bank
            &&& exists|m: int, t: int|
                0 <= m < members.len() && 0 <= t < members[m].1.tables@.len() && (
                #[trigger] members[m].1.tables@[t]).u.ids@ == ids
            &&& plan.extents@[i]@.len() == ids.len()
            &&& ids[k].0 < plan.grids@.len()
            &&& plan.extents@[i]@[k] == plan.grids@[ids[k].0 as int].n_bins
            &&& plan.grids@[ids[k].0 as int].n_bins == plan.grids@[ids[k].0 as int].borders@.len() + 2
        }),
        forall|m: int, t: int|
            0 <= m < members.len() && 0 <= t < members[m].1.tables@.len() ==> has_set(
                r->Ok_0.supports@,
                (#[trigger] members[m].1.tables@[t]).u.ids@,
            ),
{
    let plan = r->Ok_0;
    let ids = sets[i].ids@;
    let f = |j: int| budget_fault(grids, sets, max_table, max_bank, j);
    lemma_no_fault(f, sets.len() as int);
    assert(f(i) is None);
    assert(f(sets.len() - 1) is None);
    let g = |j: int| extent_fault(grids.len(), ids, j);
    lemma_no_fault(g, ids.len() as int);
    assert(g(k) is None);
    assert(plan.extents@[i]@ == extents_of(grids, ids));
    assert(grids[ids[k].0 as int] == plan.grids@[ids[k].0 as int]@);
    assert(has_set(sets, ids)) by {
        assert(sets[i].ids@ == ids);
    }
    assert(used_set(members, members.len(), ids));
    assert forall|m: int, t: int|
        0 <= m < members.len() && 0 <= t < members[m].1.tables@.len() implies has_set(
        sets,
        (#[trigger] members[m].1.tables@[t]).u.ids@,
    ) by {
        assert(used_set(members, members.len(), members[m].1.tables@[t].u.ids@));
    }
}

/// A list of fanouts holds for every source cell the number of union cells that read
/// it.
pub proof fn law_fanout_lists_count_readers(
    f: Seq<usize>,
    unions: Seq<BorderGrid>,
    sources: Seq<BorderGrid>,
    raw: FeatureId,
    s: int,
)
    requires
        is_fanout(f, unions, sources, raw),
        0 <= s < f.len(),
    ensures
        f.len() == sources[raw.0 as int].n_bins,
        f[s] == Seq::new(
            unions[raw.0 as int].n_bins as nat,
            |c: int|
                mapped_cell(unions[raw.0 as int].borders@, sources[raw.0 as int].borders@, c),
        ).filter(|m: int| m == s).len(),
{
    law_fanouts_count_union_cells(
        unions[raw.0 as int].borders@,
        sources[raw.0 as int].borders@,
        s,
        unions[raw.0 as int].n_bins as nat,
    );
}

} // verus!
