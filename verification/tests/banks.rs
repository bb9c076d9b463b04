use tri_boost_core::boosters::average::{
    check_members, collect_supports, plan_average, plan_tables, source_cells, union_grids, Member,
};
use tri_boost_core::boosters::bank::{
    find_table, same_features, table_extents, validate_bank, validate_grid, EffectTable, RefMeasure,
    TableBank, Tensor,
};
use tri_boost_core::boosters::shape::{next_coord, product_cells};
use tri_boost_core::boosters::supports::{ids_less, insert_set, set_name};
use tri_boost_core::boosters::union::{map_union_cell_to_source, source_fanout, union_borders};
use tri_boost_core::cell_refit::{
    build_design, check_weights, coarse_groups, correction_cell, expand_cells, fit_problem, fit_rows, splitmix64,
    CellRefitSpec, CorrectionTable,
};
use tri_boost_core::constraints::FeatureSet;
use tri_boost_core::data::{BorderGrid, FeatureId};
use tri_boost_core::error::PbError;
use tri_boost_core::float::{F32, F64};

fn f(v: f32) -> F32 {
    F32::from_bits(v.to_bits())
}

fn d(v: f64) -> F64 {
    F64::from_bits(v.to_bits())
}

fn fs(v: &[f32]) -> Vec<F32> {
    v.iter().map(|&x| f(x)).collect()
}

fn ids(v: &[u32]) -> Vec<FeatureId> {
    v.iter().map(|&i| FeatureId(i)).collect()
}

fn set(v: &[u32]) -> FeatureSet {
    FeatureSet { ids: ids(v) }
}

fn grid(borders: &[f32]) -> BorderGrid {
    BorderGrid {
        borders: fs(borders),
        n_bins: borders.len() as u16 + 2,
        missing_bin: 0,
    }
}

fn tensor(shape: &[usize], from: f64) -> Tensor {
    let n: usize = shape.iter().product();
    Tensor {
        shape: shape.to_vec(),
        values: (0..n).map(|i| d(from + i as f64)).collect(),
    }
}

fn table(u: &[u32], shape: &[usize]) -> EffectTable {
    EffectTable {
        u: set(u),
        axes: ids(u),
        values: tensor(shape, 0.5),
        support: tensor(shape, 1.0),
    }
}

/// Two features of three cells each, with both mains and the pair.
fn bank() -> TableBank {
    TableBank {
        f0: d(0.25),
        merged_grids: vec![grid(&[1.0]), grid(&[5.0])],
        tables: vec![table(&[0], &[3]), table(&[1], &[3]), table(&[0, 1], &[3, 3])],
        measure: RefMeasure::Uniform,
    }
}

/// Checks and plans an average: the library checks the members, floats add up
/// their weights.
fn average(weights: &[f32], measure: RefMeasure) -> Result<(), PbError> {
    let members: Vec<Member> = weights.iter().map(|&w| (f(w), bank())).collect();
    check_members(&members, &measure)?;
    let total: f64 = weights.iter().map(|&w| f64::from(w)).sum();
    if (total - 1.0).abs() > 1.0e-6 {
        return Err(PbError::InvalidConfig { what: "bank weights must sum to 1".into() });
    }
    plan_average(&members, &measure, 1000, 1000).map(|_| ())
}

#[test]
fn average_rejects_nonconvex_or_mismatched_members() {
    assert!(average(&[0.25, 0.75], RefMeasure::Uniform).is_ok());
    assert!(matches!(
        average(&[0.5], RefMeasure::Uniform),
        Err(PbError::InvalidConfig { .. })
    ));
    assert!(matches!(
        average(&[-1.0, 2.0], RefMeasure::Uniform),
        Err(PbError::InvalidConfig { .. })
    ));
    assert!(matches!(
        average(&[1.0], RefMeasure::ProductMarginals),
        Err(PbError::InvalidConfig { .. })
    ));
    assert!(matches!(
        average(&[f32::NAN, 1.0], RefMeasure::Uniform),
        Err(PbError::InvalidConfig { .. })
    ));
    assert!(matches!(
        average(&[], RefMeasure::Uniform),
        Err(PbError::InvalidConfig { .. })
    ));
}

fn v(x: F64) -> f64 {
    f64::from_bits(x.bits)
}

/// The weighted sum of banks on their union grid: values are repeated, row
/// counts are split among the cells that read them.
fn averaged(members: &Vec<Member>, measure: RefMeasure) -> TableBank {
    check_members(members, &measure).unwrap();
    let plan = plan_average(members, &measure, 1000, 1000).unwrap();
    let mut tables = Vec::new();
    for (u, shape) in plan.supports.iter().zip(&plan.extents) {
        let n: usize = shape.iter().product();
        let mut values = vec![0.0_f64; n];
        let mut support = vec![0.0_f64; n];
        for (alpha, member) in members {
            let alpha = f64::from(f32::from_bits(alpha.bits));
            let Some(at) = find_table(member, u) else { continue };
            let cells = source_cells(&plan.grids, &member.merged_grids, u);
            assert_eq!(cells.len(), n);
            for (i, cell) in cells.iter().enumerate() {
                let from = cell.index as usize;
                values[i] += alpha * v(member.tables[at].values.values[from]);
                support[i] += alpha * v(member.tables[at].support.values[from]) / cell.share as f64;
            }
        }
        let tensor = |t: Vec<f64>| Tensor {
            shape: shape.clone(),
            values: t.into_iter().map(d).collect(),
        };
        tables.push(EffectTable {
            u: u.clone(),
            axes: u.ids.clone(),
            values: tensor(values),
            support: tensor(support),
        });
    }
    let f0: f64 =
        members.iter().map(|(a, m)| f64::from(f32::from_bits(a.bits)) * v(m.f0)).sum();
    TableBank { f0: d(f0), merged_grids: plan.grids, tables, measure }
}

/// The score of a row of cells.
fn score(bank: &TableBank, cells: &[usize]) -> f64 {
    let mut total = v(bank.f0);
    for t in &bank.tables {
        let mut flat = 0;
        for (axis, extent) in t.axes.iter().zip(&t.values.shape) {
            flat = flat * extent + cells[axis.0 as usize];
        }
        total += v(t.values.values[flat]);
    }
    total
}

#[test]
fn average_identical_banks_is_identity() {
    let members: Vec<Member> = vec![(f(0.25), bank()), (f(0.75), bank())];
    let avg = averaged(&members, RefMeasure::Uniform);
    assert!((v(avg.f0) - v(bank().f0)).abs() < 1.0e-10);
    for c0 in 0..3 {
        for c1 in 0..3 {
            let cells = [c0, c1];
            assert!((score(&avg, &cells) - score(&bank(), &cells)).abs() < 1.0e-10);
        }
    }
    assert_eq!(avg.measure, RefMeasure::Uniform);
}

#[test]
fn average_identical_product_marginal_banks_is_identity() {
    let mut own = bank();
    own.measure = RefMeasure::ProductMarginals;
    let members: Vec<Member> = vec![(f(0.4), own.clone()), (f(0.6), own.clone())];
    let avg = averaged(&members, RefMeasure::ProductMarginals);
    assert_eq!(avg.measure, RefMeasure::ProductMarginals);
    for c0 in 0..3 {
        for c1 in 0..3 {
            let cells = [c0, c1];
            assert!((score(&avg, &cells) - score(&own, &cells)).abs() < 1.0e-6);
        }
    }
}

#[test]
fn union_grid_mapping_represents_coarse_member_losslessly() {
    let coarse_of = [0, 1, 1, 2, 2];
    let mut coarse = bank();
    coarse.merged_grids[0] = grid(&[1.5]);
    let mut fine = coarse.clone();
    fine.merged_grids[0] = grid(&[1.0, 1.5, 2.0]);
    for t in fine.tables.iter_mut().filter(|t| t.u.contains(FeatureId(0))) {
        let inner: usize = t.values.shape[1..].iter().product();
        for part in [&mut t.values, &mut t.support] {
            let old = part.values.clone();
            part.shape[0] = 5;
            part.values =
                (0..5 * inner).map(|i| old[coarse_of[i / inner] * inner + i % inner]).collect();
        }
    }
    let members: Vec<Member> = vec![(f(0.5), coarse.clone()), (f(0.5), fine.clone())];
    let plan = plan_average(&members, &RefMeasure::Uniform, 1000, 1000).unwrap();
    assert_eq!(plan.supports, vec![set(&[0]), set(&[0, 1]), set(&[1])]);
    assert_eq!(plan.extents, vec![vec![5], vec![5, 3], vec![3]]);
    let avg = averaged(&members, RefMeasure::Uniform);
    assert_eq!(avg.merged_grids[0].borders, fs(&[1.0, 1.5, 2.0]));
    assert_eq!(avg.merged_grids[1], coarse.merged_grids[1]);
    // Every union cell reads the coarse cell that holds it.
    for c0 in 0..5 {
        for c1 in 0..3 {
            let want = score(&coarse, &[coarse_of[c0], c1]);
            assert!((score(&avg, &[c0, c1]) - want).abs() < 1.0e-10);
        }
    }
    let union = &plan.grids[0];
    let source = &coarse.merged_grids[0];
    let mapped: Vec<usize> =
        (0..5).map(|c| map_union_cell_to_source(union, source, c).unwrap()).collect();
    assert_eq!(mapped, coarse_of.to_vec());
    assert!(map_union_cell_to_source(union, source, 5).is_err());
    assert_eq!(source_fanout(union, source).unwrap(), vec![1, 2, 2]);
    let cells = source_cells(&plan.grids, &coarse.merged_grids, &set(&[0]));
    let got: Vec<(u64, u64)> = cells.iter().map(|c| (c.index, c.share)).collect();
    assert_eq!(got, vec![(0, 1), (1, 2), (1, 2), (2, 2), (2, 2)]);
    let pair = source_cells(&plan.grids, &coarse.merged_grids, &set(&[0, 1]));
    assert_eq!((pair[14].index, pair[14].share), (8, 2));
}

/// A main effect over ten values, one row in each data cell.
fn main_effect_bank(values: &[f32]) -> TableBank {
    let mids: Vec<f32> = values.windows(2).map(|w| (w[0] + w[1]) / 2.0).collect();
    let n = mids.len() + 2;
    let mut t = table(&[0], &[n]);
    t.support.values = (0..n).map(|c| d(if c == 0 { 0.0 } else { 1.0 })).collect();
    TableBank {
        f0: d(0.0),
        merged_grids: vec![grid(&mids)],
        tables: vec![t],
        measure: RefMeasure::ProductMarginals,
    }
}

#[test]
fn average_banks_conserves_support_across_differing_grids() {
    let a: Vec<f32> = (1..=10).map(|i| i as f32).collect();
    let b: Vec<f32> = (1..=10).map(|i| (i * 2) as f32).collect();
    let ba = main_effect_bank(&a);
    let bb = main_effect_bank(&b);
    assert_ne!(ba.merged_grids, bb.merged_grids);
    let members: Vec<Member> = vec![(f(0.5), ba.clone()), (f(0.5), bb.clone())];
    let avg = averaged(&members, RefMeasure::ProductMarginals);
    let total = |bank: &TableBank| -> f64 {
        bank.tables[0].support.values.iter().map(|&x| v(x)).sum()
    };
    let want = 0.5 * total(&ba) + 0.5 * total(&bb);
    assert!((total(&avg) - want).abs() < 1e-6);
    assert!((want - 10.0).abs() < 1e-6);
    let all: Vec<F32> =
        ba.merged_grids[0].borders.iter().chain(&bb.merged_grids[0].borders).copied().collect();
    assert_eq!(union_borders(&all), avg.merged_grids[0].borders);
}

#[test]
fn plans_keep_the_budgets() {
    let members: Vec<Member> = vec![(f(1.0), bank())];
    let grids = union_grids(&members, &RefMeasure::Uniform).unwrap();
    let sets = collect_supports(&members);
    assert!(plan_tables(&grids, &sets, 9, 15).is_ok());
    match plan_tables(&grids, &sets, 8, 15) {
        Err(PbError::TableBudget { cells, budget, .. }) => assert_eq!((cells, budget), (9, 8)),
        _ => panic!("the pair is over the table budget"),
    }
    match plan_tables(&grids, &sets, 9, 14) {
        Err(PbError::TableBudget { budget, .. }) => assert_eq!(budget, 14),
        _ => panic!("the bank is over its budget"),
    }
}

#[test]
fn banks_are_checked_table_by_table() {
    let ok = |b: &TableBank| validate_bank(b, &RefMeasure::Uniform, 2);
    assert!(ok(&bank()).is_ok());
    assert!(validate_bank(&bank(), &RefMeasure::Uniform, 3).is_err());
    let mut b = bank();
    b.f0 = d(f64::NAN);
    assert!(ok(&b).is_err());
    let mut b = bank();
    b.tables[1].values.values[0] = d(f64::INFINITY);
    assert!(ok(&b).is_err());
    let mut b = bank();
    b.tables[0].values = tensor(&[4], 0.0);
    assert!(ok(&b).is_err());
    let mut b = bank();
    b.tables[2].axes = ids(&[1, 0]);
    assert!(ok(&b).is_err());
    assert_eq!(find_table(&bank(), &set(&[0, 1])), Some(2));
    assert_eq!(find_table(&bank(), &set(&[2])), None);
    assert_eq!(table_extents(&bank().merged_grids, &set(&[0, 1])).unwrap(), vec![3, 3]);
    assert!(table_extents(&bank().merged_grids, &set(&[7])).is_err());
    assert!(same_features(&ids(&[1, 2]), &ids(&[1, 2])));
    assert!(!same_features(&ids(&[1, 2]), &ids(&[2, 1])));
    assert!(validate_grid(&grid(&[1.0, 2.0]), 0).is_ok());
    assert!(validate_grid(&grid(&[2.0, 1.0]), 0).is_err());
    assert!(validate_grid(&grid(&[f32::NAN]), 0).is_err());
}

#[test]
fn coordinates_count_in_row_major_order() {
    let extents = vec![2, 3];
    let mut coord = vec![0, 0];
    let mut seen = vec![coord.clone()];
    while next_coord(&mut coord, &extents) {
        seen.push(coord.clone());
    }
    assert_eq!(
        seen,
        vec![vec![0, 0], vec![0, 1], vec![0, 2], vec![1, 0], vec![1, 1], vec![1, 2]]
    );
    assert_eq!(product_cells(&extents).unwrap(), 6);
    assert_eq!(product_cells(&vec![]).unwrap(), 1);
    assert!(product_cells(&vec![usize::MAX, usize::MAX]).is_err());
}

#[test]
fn supports_are_kept_once_and_in_order() {
    let mut list = Vec::new();
    for s in [vec![1u32], vec![0, 2], vec![1], vec![0], vec![0, 1, 2]] {
        insert_set(&mut list, &ids(&s));
    }
    assert_eq!(list, vec![set(&[0]), set(&[0, 1, 2]), set(&[0, 2]), set(&[1])]);
    assert!(ids_less(&ids(&[0]), &ids(&[0, 1])));
    assert!(!ids_less(&ids(&[1]), &ids(&[0, 1])));
    assert_eq!(set_name(&ids(&[0, 12])), "FeatureSet([FeatureId(0), FeatureId(12)])");
}

fn correction(axes: &[u32], shape: &[u32], cells: &[&[u32]]) -> CorrectionTable {
    let n: u32 = shape.iter().product();
    CorrectionTable {
        axes: axes.to_vec(),
        shape: shape.to_vec(),
        bin_to_cell: cells.iter().map(|c| c.to_vec()).collect(),
        values: vec![d(0.0); n as usize],
    }
}

#[test]
fn design_lists_one_column_per_row_and_table() {
    let tables = vec![
        correction(&[0], &[3], &[&[0, 1, 2]]),
        correction(&[0, 1], &[3, 2], &[&[0, 1, 2], &[0, 1]]),
    ];
    let data = vec![vec![0u8, 1, 2, 2], vec![0u8, 1, 1, 0]];
    let design = build_design(&tables, &data, &vec![0, 1, 2, 3], 24).unwrap();
    assert_eq!(design.n_cols, 9);
    assert_eq!(design.term_cols, vec![3, 6]);
    assert_eq!(design.active.len(), 2);
    assert_eq!(design.active[0], vec![0, 1, 2, 2]);
    assert_eq!(design.col_term, vec![0, 0, 0, 1, 1, 1, 1, 1, 1]);
    // Rows are numbered by the list, so that a subset is a shorter column.
    let sub = build_design(&tables, &data, &vec![2, 0], 24).unwrap();
    assert_eq!(sub.active[0], vec![2, 0]);
    assert!(build_design(&tables, &data, &vec![9], 24).is_err());
}

#[test]
fn coarse_cells_serve_what_was_fitted() {
    assert_eq!(coarse_groups(4, 10), (vec![0, 1, 2, 3], 4));
    let (groups, n) = coarse_groups(10, 3);
    assert_eq!(n, 3);
    assert!(groups.windows(2).all(|w| w[0] <= w[1] && w[1] - w[0] <= 1));
    assert_eq!((groups[0], groups[9]), (0, 2));
    // A pair of ten by two cells, fitted as three by two.
    let t = correction(
        &[0, 1],
        &[10, 2],
        &[&[0, 1, 2, 3, 4, 5, 6, 7, 8, 9], &[0, 1]],
    );
    let data = vec![(0..10u8).collect::<Vec<u8>>(), vec![1u8; 10]];
    let rows: Vec<usize> = (0..10).collect();
    let design = build_design(&vec![t.clone()], &data, &rows, 3).unwrap();
    let serve = expand_cells(&t, 3);
    assert_eq!(serve.len(), 20);
    for r in 0..10usize {
        let flat = r * 2 + 1;
        assert_eq!(serve[flat], usize::from(design.active[0][r]));
    }
}

#[test]
fn fit_rows_are_weighted_and_strided() {
    let w: Vec<F64> = (0..10).map(|i| d(if i % 2 == 0 { 1.0 } else { 0.0 })).collect();
    assert_eq!(fit_rows(&w, 100), vec![0, 2, 4, 6, 8]);
    let many: Vec<F64> = vec![d(1.0); 2000];
    let some = fit_rows(&many, 500);
    assert!(some.len() <= 500 && some.len() >= 250);
    assert!(some.windows(2).all(|p| p[0] < p[1]));
    assert_eq!(some, fit_rows(&many, 500));
    assert!(check_weights(3, 3).is_ok());
    assert!(check_weights(3, 4).is_err());
    let residual: Vec<F64> = (0..10).map(|i| d(f64::from(i))).collect();
    let fit = fit_problem(&residual, &w, 100).unwrap();
    assert_eq!(fit.rows, vec![0, 2, 4, 6, 8]);
    assert_eq!(fit.weight, vec![d(1.0); 5]);
    assert_eq!(fit.target, vec![d(0.0), d(2.0), d(4.0), d(6.0), d(8.0)]);
    let mut other = residual.clone();
    other[3] = d(f64::NAN);
    other[9] = d(-7.0);
    assert_eq!(fit, fit_problem(&other, &w, 100).unwrap());
    other[2] = d(-7.0);
    assert_ne!(fit, fit_problem(&other, &w, 100).unwrap());
    assert!(matches!(
        fit_problem(&residual, &vec![d(1.0)], 100),
        Err(PbError::ShapeMismatch { .. })
    ));
    assert_eq!(splitmix64(0), 0xE220_A839_7B1D_CDAF);
    assert_ne!(splitmix64(1), splitmix64(2));
    assert_eq!(CellRefitSpec::default().pair_cell_cap, 24);
}

/// Ridge on the design's columns by plain gradient steps.
fn solve(design_active: &[u16], n_cols: usize, resid: &[f64], base: f64) -> Vec<f64> {
    let mut top = vec![0.0; n_cols];
    let mut bottom = vec![base; n_cols];
    for (r, &c) in design_active.iter().enumerate() {
        top[usize::from(c)] += resid[r];
        bottom[usize::from(c)] += 1.0;
    }
    (0..n_cols).map(|c| top[c] / bottom[c]).collect()
}

#[test]
fn cg_recovers_a_known_main_effect() {
    let n = 200usize;
    let a0: Vec<u8> = (0..n).map(|i| if i % 2 == 0 { 1 } else { 2 }).collect();
    let data = vec![a0.clone(), vec![1u8; n]];
    let resid: Vec<f64> = a0.iter().map(|&b| if b == 1 { 3.0 } else { -3.0 }).collect();
    let rows: Vec<usize> = (0..n).collect();
    let design = build_design(&vec![correction(&[0], &[3], &[&[0, 1, 2]])], &data, &rows, 24).unwrap();
    // One table: every row has one column, so the ridge has a closed form.
    let delta = solve(&design.active[0], design.n_cols, &resid, 1.0);
    let before: f64 = resid.iter().map(|r| r * r).sum();
    let after: f64 = resid
        .iter()
        .zip(&design.active[0])
        .map(|(r, &c)| (r - delta[usize::from(c)]).powi(2))
        .sum();
    assert!(after < 0.05 * before, "residual not reduced: before {before} after {after}");
}

#[test]
fn fit_row_cap_recovers_the_effect_and_stays_deterministic() {
    let n = 2000usize;
    let a0: Vec<u8> = (0..n).map(|i| if i % 2 == 0 { 1 } else { 2 }).collect();
    let data = vec![a0.clone(), vec![1u8; n]];
    let resid: Vec<f64> = a0.iter().map(|&b| if b == 1 { 3.0 } else { -3.0 }).collect();
    let weights = vec![d(1.0); n];
    let tables = vec![correction(&[0], &[3], &[&[0, 1, 2]])];
    let fit = || {
        let rows = fit_rows(&weights, 500);
        let design = build_design(&tables, &data, &rows, 24).unwrap();
        let picked: Vec<f64> = rows.iter().map(|&r| resid[r]).collect();
        solve(&design.active[0], design.n_cols, &picked, 1.0)
    };
    let (one, two) = (fit(), fit());
    for (a, b) in one.iter().zip(&two) {
        assert_eq!(a.to_bits(), b.to_bits(), "capped fit is not deterministic");
    }
    let rows: Vec<usize> = (0..n).collect();
    let design = build_design(&tables, &data, &rows, 24).unwrap();
    let before: f64 = resid.iter().map(|r| r * r).sum();
    let after: f64 = resid
        .iter()
        .zip(&design.active[0])
        .map(|(r, &c)| (r - one[usize::from(c)]).powi(2))
        .sum();
    assert!(after < 0.1 * before, "before {before} after {after}");
}

#[test]
fn a_row_is_served_from_the_cell_it_was_fitted_in() {
    let t = correction(&[1, 0], &[2, 3], &[&[0, 1, 1], &[0, 1, 2]]);
    // Axis 1 leads: bins 2 and 1 of the row give the cells 1 and 1.
    assert_eq!(correction_cell(&t, &vec![1, 2]).unwrap(), 4);
    assert_eq!(correction_cell(&t, &vec![0, 0]).unwrap(), 0);
    assert_eq!(correction_cell(&t, &vec![2, 1]).unwrap(), 5);
    let refused = |t: &CorrectionTable, row: &[u8]| match correction_cell(t, &row.to_vec()) {
        Err(PbError::ShapeMismatch { what }) => what,
        _ => panic!("expected a refused row"),
    };
    assert_eq!(refused(&t, &[1]), "correction row is outside the table's axes");
    assert_eq!(refused(&t, &[1, 9]), "correction row is outside the table's axes");
    let mut short = t.clone();
    short.values.truncate(4);
    assert_eq!(refused(&short, &[1, 2]), "correction cell is out of range");
}

#[test]
fn a_member_weight_is_named_in_its_refusal() {
    let member: Vec<Member> = vec![(f(-0.25), bank())];
    match check_members(&member, &RefMeasure::Uniform) {
        Err(PbError::InvalidConfig { what }) => {
            assert_eq!(what, "member 0 alpha must be finite and >= 0, got -0.25")
        }
        _ => panic!("expected a refused weight"),
    }
}
