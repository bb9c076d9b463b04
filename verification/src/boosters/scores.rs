//! What averaging banks means for scores, in exact numbers: the average of the
//! tables scores every row as the average of the members' scores.
use crate::boosters::average::{
    banks_checked, grids_serve, is_source_cell, is_union_grid, law_plan_serves_members,
    mapped_coord, used_set, AveragePlan, Member, SourceCell,
};
use crate::boosters::bank::{extents_of, RefMeasure};
use crate::boosters::shape::{coord_of, flat_of, in_range, law_coord_inverts_flat};
use crate::boosters::supports::{has_set, law_set_order_is_total, sets_ascend};
use crate::boosters::union::{covers, law_union_is_lossless, mapped_cell};
use crate::data::bin::{bin_of, law_only_nan_is_missing};
use crate::data::{grid_views, BorderGrid, FeatureId, GridView};
use crate::float::F32;
use vstd::prelude::*;

verus! {

/// The sum of the first `n` values of a function.
pub open spec fn sum_of(f: spec_fn(int) -> int, n: nat) -> int
    decreases n,
{
    if n == 0 {
        0
    } else {
        sum_of(f, (n - 1) as nat) + f(n - 1)
    }
}

proof fn lemma_same_terms(f: spec_fn(int) -> int, g: spec_fn(int) -> int, n: nat)
    requires
        forall|i: int| 0 <= i < n ==> #[trigger] f(i) == g(i),
    ensures
        sum_of(f, n) == sum_of(g, n),
    decreases n,
{
    if n > 0 {
        lemma_same_terms(f, g, (n - 1) as nat);
        assert(f(n - 1) == g(n - 1));
    }
}

proof fn lemma_sum_adds(
    f: spec_fn(int) -> int,
    g: spec_fn(int) -> int,
    h: spec_fn(int) -> int,
    n: nat,
)
    requires
        forall|i: int| 0 <= i < n ==> #[trigger] h(i) == f(i) + g(i),
    ensures
        sum_of(h, n) == sum_of(f, n) + sum_of(g, n),
    decreases n,
{
    if n > 0 {
        lemma_sum_adds(f, g, h, (n - 1) as nat);
        assert(h(n - 1) == f(n - 1) + g(n - 1));
    }
}

proof fn lemma_sum_scales(f: spec_fn(int) -> int, g: spec_fn(int) -> int, c: int, n: nat)
    requires
        forall|i: int| 0 <= i < n ==> #[trigger] g(i) == c * f(i),
    ensures
        sum_of(g, n) == c * sum_of(f, n),
    decreases n,
{
    if n > 0 {
        lemma_sum_scales(f, g, c, (n - 1) as nat);
        assert(g(n - 1) == c * f(n - 1));
        let s = sum_of(f, (n - 1) as nat);
        let t = f(n - 1);
        assert(c * (s + t) == c * s + c * t) by (nonlinear_arith);
    } else {
        assert(c * 0 == 0) by (nonlinear_arith);
    }
}

/// Sums over two indices may be taken in either order.
proof fn lemma_sums_swap(f: spec_fn(int, int) -> int, n: nat, m: nat)
    ensures
        sum_of(|i: int| sum_of(|j: int| f(i, j), m), n) == sum_of(
            |j: int| sum_of(|i: int| f(i, j), n),
            m,
        ),
    decreases n,
{
    let rows = |i: int| sum_of(|j: int| f(i, j), m);
    let cols = |j: int| sum_of(|i: int| f(i, j), n);
    if n == 0 {
        let zero = |j: int| 0int;
        lemma_same_terms(cols, zero, m);
        lemma_zero_sum(m);
    } else {
        let p = (n - 1) as nat;
        lemma_sums_swap(f, p, m);
        let head = |j: int| sum_of(|i: int| f(i, j), p);
        let last = |j: int| f(n - 1, j);
        assert forall|j: int| 0 <= j < m implies #[trigger] cols(j) == head(j) + last(j) by {
            let own = |i: int| f(i, j);
            assert(cols(j) == sum_of(own, n));
            assert(head(j) == sum_of(own, p));
        }
        lemma_sum_adds(head, last, cols, m);
        assert(rows(n - 1) == sum_of(last, m)) by {
            lemma_same_terms(|j: int| f(n - 1, j), last, m);
        }
    }
}

proof fn lemma_zero_sum(n: nat)
    ensures
        sum_of(|j: int| 0int, n) == 0,
    decreases n,
{
    if n > 0 {
        lemma_zero_sum((n - 1) as nat);
    }
}

/// A sum with one term is that term.
proof fn lemma_one_term(f: spec_fn(int) -> int, k: int, n: nat)
    requires
        forall|i: int| 0 <= i < n && i != k ==> #[trigger] f(i) == 0,
    ensures
        0 <= k < n ==> sum_of(f, n) == f(k),
        !(0 <= k < n) ==> sum_of(f, n) == 0,
    decreases n,
{
    if n > 0 {
        lemma_one_term(f, k, (n - 1) as nat);
        assert(n - 1 != k ==> f(n - 1) == 0);
    }
}

/// The coordinate of a row in a table: the bin of each of its values.
pub open spec fn row_coord(grids: Seq<GridView>, u: Seq<FeatureId>, row: Seq<F32>) -> Seq<int> {
    Seq::new(u.len(), |k: int| bin_of(row[u[k].0 as int], grids[u[k].0 as int]))
}

/// The cell of a row in a table.
pub open spec fn row_cell(grids: Seq<GridView>, u: Seq<FeatureId>, row: Seq<F32>) -> int {
    flat_of(extents_of(grids, u), row_coord(grids, u, row), u.len())
}

/// The source cell that a union cell reads, as [`is_source_cell`] has it.
pub open spec fn read_cell(
    unions: Seq<GridView>,
    sources: Seq<GridView>,
    u: Seq<FeatureId>,
    j: int,
) -> int {
    flat_of(
        extents_of(sources, u),
        mapped_coord(unions, sources, u, coord_of(extents_of(unions, u), j, u.len())),
        u.len(),
    )
}

proof fn lemma_row_coord_in_range(grids: Seq<BorderGrid>, u: Seq<FeatureId>, row: Seq<F32>)
    requires
        grids_serve(grids, u),
    ensures
        in_range(row_coord(grid_views(grids), u, row), extents_of(grid_views(grids), u)),
{
    let views = grid_views(grids);
    let coord = row_coord(views, u, row);
    let ext = extents_of(views, u);
    assert forall|k: int| 0 <= k < ext.len() implies 0 <= #[trigger] coord[k] < ext[k] by {
        assert(u[k].0 < grids.len() && grids[u[k].0 as int].wf());
        let g = grids[u[k].0 as int];
        assert(views[u[k].0 as int] == g@);
        law_only_nan_is_missing(row[u[k].0 as int], g);
    }
}

/// The average reads each member where the member itself would look: the union
/// cell of a row reads the cell that the row has in the member's own grids.
pub proof fn law_average_reads_members_at_their_own_cells(
    s: SourceCell,
    unions: Seq<BorderGrid>,
    sources: Seq<BorderGrid>,
    u: Seq<FeatureId>,
    row: Seq<F32>,
)
    requires
        grids_serve(unions, u),
        grids_serve(sources, u),
        forall|k: int|
            0 <= k < u.len() ==> covers(
                unions[(#[trigger] u[k]).0 as int].borders@,
                sources[u[k].0 as int].borders@,
            ),
    ensures
        read_cell(
            grid_views(unions),
            grid_views(sources),
            u,
            row_cell(grid_views(unions), u, row),
        ) == row_cell(grid_views(sources), u, row),
        is_source_cell(
            s,
            grid_views(unions),
            grid_views(sources),
            u,
            row_cell(grid_views(unions), u, row),
        ) ==> s.index == row_cell(grid_views(sources), u, row),
{
    let vu = grid_views(unions);
    let vs = grid_views(sources);
    let cu = row_coord(vu, u, row);
    let ext = extents_of(vu, u);
    lemma_row_coord_in_range(unions, u, row);
    law_coord_inverts_flat(ext, cu, u.len());
    assert(cu.take(u.len() as int) =~= cu);
    let mapped = mapped_coord(vu, vs, u, cu);
    assert forall|k: int| 0 <= k < u.len() implies #[trigger] mapped[k] == row_coord(
        vs,
        u,
        row,
    )[k] by {
        let raw = u[k].0 as int;
        assert(u[k].0 < unions.len() && unions[raw].wf());
        assert(u[k].0 < sources.len() && sources[raw].wf());
        assert(covers(unions[raw].borders@, sources[raw].borders@));
        assert(vu[raw] == unions[raw]@ && vs[raw] == sources[raw]@);
        law_union_is_lossless(row[raw], vu[raw], vs[raw]);
        assert(mapped[k] == mapped_cell(vu[raw].borders, vs[raw].borders, cu[k]));
    }
    assert(mapped =~= row_coord(vs, u, row));
}

/// Exact values of the tables of all members: by member, table and cell.
pub type Values = spec_fn(int, int, int) -> int;

/// What a member adds to a cell of an averaged table: the sum of its tables of
/// that feature set, each read at the source cell.
pub open spec fn member_share(
    plan: AveragePlan,
    members: Seq<Member>,
    values: Values,
    m: int,
    ids: Seq<FeatureId>,
    cell: int,
) -> int {
    let bank = members[m].1;
    let at = read_cell(grid_views(plan.grids@), grid_views(bank.merged_grids@), ids, cell);
    sum_of(
        |t: int|
            if bank.tables@[t].u.ids@ == ids {
                values(m, t, at)
            } else {
                0
            },
        bank.tables@.len(),
    )
}

/// A cell of an averaged table: the weighted sum of what the members add.
pub open spec fn averaged_cell(
    plan: AveragePlan,
    members: Seq<Member>,
    weights: spec_fn(int) -> int,
    values: Values,
    ids: Seq<FeatureId>,
    cell: int,
) -> int {
    sum_of(
        |m: int| weights(m) * member_share(plan, members, values, m, ids, cell),
        members.len(),
    )
}

/// The score of a row by the averaged tables.
pub open spec fn average_score(
    plan: AveragePlan,
    members: Seq<Member>,
    weights: spec_fn(int) -> int,
    values: Values,
    row: Seq<F32>,
) -> int {
    sum_of(
        |k: int|
            averaged_cell(
                plan,
                members,
                weights,
                values,
                plan.supports@[k].ids@,
                row_cell(grid_views(plan.grids@), plan.supports@[k].ids@, row),
            ),
        plan.supports@.len(),
    )
}

/// The score of a row by the tables of one member.
pub open spec fn member_score(members: Seq<Member>, values: Values, m: int, row: Seq<F32>) -> int {
    let bank = members[m].1;
    sum_of(
        |t: int|
            values(m, t, row_cell(grid_views(bank.merged_grids@), bank.tables@[t].u.ids@, row)),
        bank.tables@.len(),
    )
}

/// Over all averaged tables, a member adds its own score.
proof fn lemma_shares_make_the_score(
    plan: AveragePlan,
    members: Seq<Member>,
    w: RefMeasure,
    values: Values,
    m: int,
    row: Seq<F32>,
)
    requires
        banks_checked(members, w),
        plan.grids@.len() == members[0].1.merged_grids@.len(),
        forall|raw: int|
            0 <= raw < plan.grids@.len() ==> is_union_grid(#[trigger] plan.grids@[raw], members, raw),
        sets_ascend(plan.supports@),
        forall|ids: Seq<FeatureId>| #[trigger]
            has_set(plan.supports@, ids) <==> used_set(members, members.len(), ids),
        0 <= m < members.len(),
    ensures
        sum_of(
            |k: int|
                member_share(
                    plan,
                    members,
                    values,
                    m,
                    plan.supports@[k].ids@,
                    row_cell(grid_views(plan.grids@), plan.supports@[k].ids@, row),
                ),
            plan.supports@.len(),
        ) == member_score(members, values, m, row),
{
    let bank = members[m].1;
    let sets = plan.supports@;
    let vu = grid_views(plan.grids@);
    let vs = grid_views(bank.merged_grids@);
    let nt = bank.tables@.len();
    let ns = sets.len();
    let both = |k: int, t: int|
        if bank.tables@[t].u.ids@ == sets[k].ids@ {
            values(m, t, read_cell(vu, vs, sets[k].ids@, row_cell(vu, sets[k].ids@, row)))
        } else {
            0
        };
    let shares = |k: int|
        member_share(plan, members, values, m, sets[k].ids@, row_cell(vu, sets[k].ids@, row));
    let by_set = |k: int| sum_of(|t: int| both(k, t), nt);
    assert forall|k: int| 0 <= k < ns implies #[trigger] shares(k) == by_set(k) by {
        let at = read_cell(vu, vs, sets[k].ids@, row_cell(vu, sets[k].ids@, row));
        lemma_same_terms(
            |t: int|
                if bank.tables@[t].u.ids@ == sets[k].ids@ {
                    values(m, t, at)
                } else {
                    0
                },
            |t: int| both(k, t),
            nt,
        );
    }
    lemma_same_terms(shares, by_set, ns);
    lemma_sums_swap(both, ns, nt);
    let by_table = |t: int| sum_of(|k: int| both(k, t), ns);
    let own = |t: int| values(m, t, row_cell(vs, bank.tables@[t].u.ids@, row));
    assert forall|t: int| 0 <= t < nt implies #[trigger] by_table(t) == own(t) by {
        let ids = bank.tables@[t].u.ids@;
        assert(members[m].1.tables@[t].u.ids@ == ids);
        assert(used_set(members, members.len(), ids));
        assert(has_set(sets, ids));
        let k = choose|k: int| 0 <= k < sets.len() && (#[trigger] sets[k]).ids@ == ids;
        let column = |k: int| both(k, t);
        assert forall|i: int| 0 <= i < ns && i != k implies #[trigger] column(i) == 0 by {
            law_set_order_is_total(sets[i].ids@, sets[k].ids@, ids);
        }
        lemma_one_term(column, k, ns);
        law_plan_serves_members(plan, members, w, m, t);
        assert forall|j: int| 0 <= j < ids.len() implies covers(
            plan.grids@[(#[trigger] ids[j]).0 as int].borders@,
            bank.merged_grids@[ids[j].0 as int].borders@,
        ) by {
            assert(is_union_grid(plan.grids@[ids[j].0 as int], members, ids[j].0 as int));
            assert(covers(
                plan.grids@[ids[j].0 as int].borders@,
                members[m].1.merged_grids@[ids[j].0 as int].borders@,
            ));
        }
        law_average_reads_members_at_their_own_cells(
            SourceCell { index: 0, share: 0 },
            plan.grids@,
            bank.merged_grids@,
            ids,
            row,
        );
        assert(by_table(t) == sum_of(column, ns));
    }
    lemma_same_terms(by_table, own, nt);
}

/// The averaged tables score every row as the weighted sum of the members'
/// scores, whatever the weights and the values, in exact numbers.
pub proof fn law_average_scores_are_averages_of_scores(
    plan: AveragePlan,
    members: Seq<Member>,
    w: RefMeasure,
    weights: spec_fn(int) -> int,
    values: Values,
    row: Seq<F32>,
)
    requires
        banks_checked(members, w),
        plan.grids@.len() == members[0].1.merged_grids@.len(),
        forall|raw: int|
            0 <= raw < plan.grids@.len() ==> is_union_grid(#[trigger] plan.grids@[raw], members, raw),
        sets_ascend(plan.supports@),
        forall|ids: Seq<FeatureId>| #[trigger]
            has_set(plan.supports@, ids) <==> used_set(members, members.len(), ids),
    ensures
        average_score(plan, members, weights, values, row) == sum_of(
            |m: int| weights(m) * member_score(members, values, m, row),
            members.len(),
        ),
{
    let sets = plan.supports@;
    let vu = grid_views(plan.grids@);
    let ns = sets.len();
    let nm = members.len();
    let term = |k: int, m: int|
        weights(m) * member_share(
            plan,
            members,
            values,
            m,
            sets[k].ids@,
            row_cell(vu, sets[k].ids@, row),
        );
    let cells = |k: int|
        averaged_cell(
            plan,
            members,
            weights,
            values,
            sets[k].ids@,
            row_cell(vu, sets[k].ids@, row),
        );
    let by_set = |k: int| sum_of(|m: int| term(k, m), nm);
    assert forall|k: int| 0 <= k < ns implies #[trigger] cells(k) == by_set(k) by {
        let cell = row_cell(vu, sets[k].ids@, row);
        lemma_same_terms(
            |m: int| weights(m) * member_share(plan, members, values, m, sets[k].ids@, cell),
            |m: int| term(k, m),
            nm,
        );
    }
    lemma_same_terms(cells, by_set, ns);
    lemma_sums_swap(term, ns, nm);
    let by_member = |m: int| sum_of(|k: int| term(k, m), ns);
    let scores = |m: int| weights(m) * member_score(members, values, m, row);
    assert forall|m: int| 0 <= m < nm implies #[trigger] by_member(m) == scores(m) by {
        let share = |k: int|
            member_share(plan, members, values, m, sets[k].ids@, row_cell(vu, sets[k].ids@, row));
        lemma_sum_scales(share, |k: int| term(k, m), weights(m), ns);
        lemma_shares_make_the_score(plan, members, w, values, m, row);
        lemma_same_terms(
            share,
            |k: int|
                member_share(
                    plan,
                    members,
                    values,
                    m,
                    plan.supports@[k].ids@,
                    row_cell(grid_views(plan.grids@), plan.supports@[k].ids@, row),
                ),
            ns,
        );
    }
    lemma_same_terms(by_member, scores, nm);
}

/// Averaging copies of one bank gives its scores back, as many times as the
/// weights make up.
pub proof fn law_averaging_copies_gives_the_scores_back(
    plan: AveragePlan,
    members: Seq<Member>,
    w: RefMeasure,
    weights: spec_fn(int) -> int,
    values: Values,
    row: Seq<F32>,
)
    requires
        banks_checked(members, w),
        plan.grids@.len() == members[0].1.merged_grids@.len(),
        forall|raw: int|
            0 <= raw < plan.grids@.len() ==> is_union_grid(#[trigger] plan.grids@[raw], members, raw),
        sets_ascend(plan.supports@),
        forall|ids: Seq<FeatureId>| #[trigger]
            has_set(plan.supports@, ids) <==> used_set(members, members.len(), ids),
        forall|m: int| 0 <= m < members.len() ==> (#[trigger] members[m]).1 == members[0].1,
        forall|m: int, t: int, c: int|
            0 <= m < members.len() ==> #[trigger] values(m, t, c) == values(0, t, c),
    ensures
        average_score(plan, members, weights, values, row) == sum_of(weights, members.len())
            * member_score(members, values, 0, row),
{
    let n = members.len();
    let one = member_score(members, values, 0, row);
    law_average_scores_are_averages_of_scores(plan, members, w, weights, values, row);
    let scores = |m: int| weights(m) * member_score(members, values, m, row);
    assert forall|m: int| 0 <= m < n implies #[trigger] scores(m) == one * weights(m) by {
        let bank = members[m].1;
        assert(bank == members[0].1);
        let f = |t: int|
            values(m, t, row_cell(grid_views(bank.merged_grids@), bank.tables@[t].u.ids@, row));
        let g = |t: int|
            values(
                0,
                t,
                row_cell(
                    grid_views(members[0].1.merged_grids@),
                    members[0].1.tables@[t].u.ids@,
                    row,
                ),
            );
        lemma_same_terms(f, g, bank.tables@.len());
        assert(member_score(members, values, m, row) == one);
        assert(weights(m) * one == one * weights(m)) by (nonlinear_arith);
    }
    lemma_sum_scales(weights, scores, one, n);
    assert(one * sum_of(weights, n) == sum_of(weights, n) * one) by (nonlinear_arith);
}

/// The distance of two numbers.
pub open spec fn apart(a: int, b: int) -> int {
    if a >= b {
        a - b
    } else {
        b - a
    }
}

proof fn lemma_sums_stay_close(f: spec_fn(int) -> int, g: spec_fn(int) -> int, e: int, n: nat)
    requires
        forall|i: int| 0 <= i < n ==> apart(#[trigger] f(i), g(i)) <= e,
    ensures
        apart(sum_of(f, n), sum_of(g, n)) <= n * e,
    decreases n,
{
    if n > 0 {
        lemma_sums_stay_close(f, g, e, (n - 1) as nat);
        assert(apart(f(n - 1), g(n - 1)) <= e);
        let m = (n - 1) as nat;
        assert(m * e + e == n * e) by (nonlinear_arith)
            requires
                m == n - 1,
        ;
    } else {
        assert(n * e == 0) by (nonlinear_arith)
            requires
                n == 0,
        ;
    }
}

/// Averages that are computed with an error stay close: where no averaged cell is
/// off by more than `e`, no score is off by more than `e` for each averaged table.
pub proof fn law_rounded_averages_stay_close(
    plan: AveragePlan,
    members: Seq<Member>,
    w: RefMeasure,
    weights: spec_fn(int) -> int,
    values: Values,
    row: Seq<F32>,
    computed: spec_fn(int) -> int,
    e: int,
)
    requires
        banks_checked(members, w),
        plan.grids@.len() == members[0].1.merged_grids@.len(),
        forall|raw: int|
            0 <= raw < plan.grids@.len() ==> is_union_grid(#[trigger] plan.grids@[raw], members, raw),
        sets_ascend(plan.supports@),
        forall|ids: Seq<FeatureId>| #[trigger]
            has_set(plan.supports@, ids) <==> used_set(members, members.len(), ids),
        forall|k: int|
            0 <= k < plan.supports@.len() ==> apart(
                #[trigger] computed(k),
                averaged_cell(
                    plan,
                    members,
                    weights,
                    values,
                    plan.supports@[k].ids@,
                    row_cell(grid_views(plan.grids@), plan.supports@[k].ids@, row),
                ),
            ) <= e,
    ensures
        apart(
            sum_of(computed, plan.supports@.len()),
            sum_of(|m: int| weights(m) * member_score(members, values, m, row), members.len()),
        ) <= plan.supports@.len() * e,
{
    law_average_scores_are_averages_of_scores(plan, members, w, weights, values, row);
    lemma_sums_stay_close(
        computed,
        |k: int|
            averaged_cell(
                plan,
                members,
                weights,
                values,
                plan.supports@[k].ids@,
                row_cell(grid_views(plan.grids@), plan.supports@[k].ids@, row),
            ),
        e,
        plan.supports@.len(),
    );
}

} // verus!
