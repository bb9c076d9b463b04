use rand::{RngCore, SeedableRng};
use tri_boost_core::backend::{pb_rng, pb_seed, CpuBackend, LevelConstraints, Stage};
use tri_boost_core::boosters::config::{
    hp_choice_at, BoosterConfig, DartSpec, EnsembleSpec, HpGrid, NesterovSpec, RefitSpec,
};
use tri_boost_core::cat::{CatEncoderStore, TsEncodingId};
use tri_boost_core::constraints::{
    default_table_budget_cells, sign, CredibilityFloor, FeatureSet, InteractionPolicy, MonoSign,
};
use tri_boost_core::data::{AxisKind, AxisProvenance, BinnedMatrix, BorderGrid, FeatureId};
use tri_boost_core::draw::{draw_positions, seeded_order};
use tri_boost_core::engine::bags::{plan_bags, BagDraw, BagPlan};
use tri_boost_core::engine::check::{check_fit_rows, validate_binned_matrix, validate_interaction};
use tri_boost_core::engine::config::{Booster, Config, HistPrecision, Sampling};
use tri_boost_core::engine::correct::{
    correctable_supports, correction_rows, in_bag_mask, is_judge_row, kept_quarters, oob_counts,
    pick_strength, FULL_STRENGTH,
};
use tri_boost_core::engine::dart::{dart_drop_mask, dart_normalization, is_below};
use tri_boost_core::engine::hist::Hist;
use tri_boost_core::engine::members::{
    collect_leaf_theta, collect_tree_alphas, leaf_from_membership, leaf_memberships, matrix_offset,
    membership_offset, refit_col, set_tree_alphas, write_leaf_theta, WeightedTree,
};
use tri_boost_core::engine::model::{
    averaged_model, check_soup, default_names, fitted_model, validate_soup_member, Link, LossId,
    Model, ModelSchema, ObjectiveTag, WeightedModel,
};
use tri_boost_core::engine::monotone::{parse_axis, resolve_monotone, MonotoneMap};
use tri_boost_core::engine::progress::{
    should_refit_after_round, should_refit_at_end, FitPlan, FitProgress, Outcome, Step,
};
use tri_boost_core::engine::refine::{
    LineSearch, RefitSearch, RefitStep, SearchStep, REFIT_MAX_BACKTRACKS,
};
use tri_boost_core::engine::rows::{
    bootstrap_indices, bootstrap_rows, carve_validation_rows, gather_f32, gather_rows,
    holdout_split, mvs_count, row_subset, sample_axes, sample_rows, smallest_items, subagging_rows,
};
use tri_boost_core::engine::select::{
    bag_seed, check_selection, count_picks, member_seed, pick_member, pick_seed, rank_members,
    Pick,
};
use tri_boost_core::engine::{ExactnessMode, ObliviousTree, Split};
use tri_boost_core::error::{Invariant, PbError};
use tri_boost_core::float::{F32, F64};
use tri_boost_core::sort::sort_pairs;
use tri_boost_core::text::decimal;

fn f(v: f32) -> F32 {
    F32::from_bits(v.to_bits())
}

fn d(v: f64) -> F64 {
    F64::from_bits(v.to_bits())
}

fn fs(v: &[f32]) -> Vec<F32> {
    v.iter().map(|&x| f(x)).collect()
}

fn ds(v: &[f64]) -> Vec<F64> {
    v.iter().map(|&x| d(x)).collect()
}

fn set(ids: &[u32]) -> FeatureSet {
    FeatureSet { ids: ids.iter().map(|&i| FeatureId(i)).collect() }
}

/// One numeric column of three bins.
fn small_matrix() -> BinnedMatrix {
    BinnedMatrix {
        data: vec![vec![1, 2, 3]],
        n_rows: 3,
        grids: vec![BorderGrid { borders: fs(&[1.5, 2.5]), n_bins: 4, missing_bin: 0 }],
        provenance: vec![AxisProvenance { raw: FeatureId(0), kind: AxisKind::Numeric }],
    }
}

fn tree(axes: &[u32], leaves: [f32; 8]) -> ObliviousTree {
    let prov: Vec<AxisProvenance> = (0..8)
        .map(|i| AxisProvenance { raw: FeatureId(i), kind: AxisKind::Numeric })
        .collect();
    let splits = axes
        .iter()
        .map(|&axis| Split { axis, bin_le: 1, missing_left: false })
        .collect();
    ObliviousTree::try_new(splits, leaves.map(f), &prov).unwrap()
}

#[test]
fn pb_seed_is_frozen() {
    assert_eq!(pb_seed(7, 3, 2, 9), pb_seed(7, 3, 2, 9));
    assert_eq!(pb_seed(0, 0, 0, 0), 0);
    assert_ne!(pb_seed(1, 0, 0, 0), pb_seed(0, 0, 0, 0));
    assert_ne!(pb_seed(0, 1, 0, 0), pb_seed(0, 0, 0, 0));
    assert_ne!(pb_seed(0, 0, 1, 0), pb_seed(0, 0, 0, 0));
    assert_ne!(pb_seed(0, 0, 0, 1), pb_seed(0, 0, 0, 0));
    assert_eq!(pb_seed(1, 0, 0, 0), 6_238_072_747_940_578_789);
    assert_eq!(pb_seed(0, 1, 0, 0), 16_294_208_416_658_607_535);
    assert_eq!(pb_seed(42, 1, 2, 3), 1_962_896_480_199_194_022);
}

#[test]
fn streams_are_those_of_the_generator() {
    // The stream of a coordinate is the generator's own, seeded with its mix.
    let mut ours = pb_rng(42, 1, Stage::Sample, 3);
    let mut theirs = rand_pcg::Pcg64::seed_from_u64(1_962_896_480_199_194_022);
    for _ in 0..5 {
        assert_eq!(ours.next_u64(), theirs.next_u64());
    }
}

#[test]
fn drawn_positions_follow_the_stream() {
    let (n, k) = (50usize, 12usize);
    let mut rng = pb_rng(9, 0, Stage::Binning, 4);
    let mut idx: Vec<usize> = (0..n).collect();
    for i in 0..k {
        let off = (rng.next_u64() % (n - i) as u64) as usize;
        idx.swap(i, i + off);
    }
    let mut want: Vec<usize> = idx[..k].to_vec();
    want.sort_unstable();
    assert_eq!(draw_positions(n, k, pb_rng(9, 0, Stage::Binning, 4)), want);
}

#[test]
fn seeded_orders_are_permutations_by_seed() {
    let order = seeded_order(3, 1, Stage::Holdout, 20);
    let mut want: Vec<(u64, u32)> =
        (0..20u32).map(|r| (pb_seed(3, 1, Stage::Holdout.number(), r), r)).collect();
    want.sort_unstable();
    assert_eq!(order, want.iter().map(|p| p.1).collect::<Vec<u32>>());
    assert_eq!(sort_pairs(vec![(2, 1), (1, 9), (2, 0)]), vec![(1, 9), (2, 0), (2, 1)]);
}

#[test]
fn cpu_backend_delegates_row_kernels_and_fail_closes_unreconciled_methods() {
    let be = CpuBackend::new(1);
    let full = fs(&[0.5, 1.5, 2.5, 3.5]);
    let mut out = fs(&[0.0, 0.0]);
    be.predict_block(&full, &vec![0, 3], &mut out).unwrap();
    assert_eq!(out, vec![full[0], full[3]]);
    let x = small_matrix();
    let mut hist = Hist::try_zeros(1, 1, 2).unwrap();
    assert!(be.build_histograms(&x, &vec![0, 1], &mut hist).is_err());
    assert!(be
        .best_level_split(&hist, f(1.0), &LevelConstraints::default())
        .is_err());
    assert!(be.predict_block(&full, &vec![9, 0], &mut out).is_err());
    assert!(be.predict_block(&full, &vec![0], &mut out).is_err());
    assert_eq!(CpuBackend::new(4).n_threads, 4);
}

#[test]
fn inert_config_validates() {
    BoosterConfig::default().validate().unwrap();
}

#[test]
fn booster_config_rejects_invalid_knobs() {
    let mut cfg = BoosterConfig {
        random_strength: f(-1.0),
        ..BoosterConfig::default()
    };
    assert!(matches!(cfg.validate(), Err(PbError::InvalidConfig { .. })));
    cfg.random_strength = f(0.0);
    cfg.ensemble = EnsembleSpec::OuterBag { n_bags: 0 };
    assert!(matches!(cfg.validate(), Err(PbError::InvalidConfig { .. })));
    cfg.ensemble = EnsembleSpec::Off;
    cfg.dart = Some(DartSpec {
        drop_rate: f(0.1),
        normalize: true,
    });
    cfg.nesterov = NesterovSpec::Agbm {
        momentum_correction: false,
    };
    assert!(matches!(cfg.validate(), Err(PbError::InvalidConfig { .. })));
}

#[test]
fn booster_config_refuses_each_bad_part() {
    let refit = |l2: f32, max_iter: u8, every: Option<u32>| BoosterConfig {
        refit_leaves: RefitSpec::Ridge { l2: f(l2), max_iter, every_k_trees: every },
        ..BoosterConfig::default()
    };
    assert!(refit(1.0, 3, Some(2)).validate().is_ok());
    assert!(refit(-1.0, 3, None).validate().is_err());
    assert!(refit(1.0, 0, None).validate().is_err());
    assert!(refit(1.0, 3, Some(0)).validate().is_err());
    for rate in [-0.1_f32, 1.5, f32::NAN] {
        assert!(DartSpec { drop_rate: f(rate), normalize: false }.validate().is_err());
    }
    assert!(DartSpec { drop_rate: f(0.0), normalize: false }.validate().is_ok());
    assert!(HpGrid::default().validate().is_ok());
    let bad = HpGrid { lambdas: vec![], ..HpGrid::default() };
    assert!(bad.validate().is_err());
    let select = |library_size: u16, selection_bags: u16, seed_top_n: u8| EnsembleSpec::GreedySelect {
        library_size,
        hp_grid: HpGrid::default(),
        selection_bags,
        seed_top_n,
    };
    assert!(select(4, 2, 1).validate().is_ok());
    assert!(select(0, 2, 1).validate().is_err());
    assert!(select(4, 0, 1).validate().is_err());
    assert!(select(4, 2, 0).validate().is_err());
}

#[test]
fn grid_ordinals_count_through_the_settings() {
    let grid = HpGrid {
        max_bins: vec![32, 64],
        lambdas: fs(&[0.0, 1.0, 2.0]),
        learning_rates: fs(&[0.1]),
        n_trees: vec![10],
        max_interaction_orders: vec![1, 3],
        random_strengths: fs(&[0.0]),
    };
    let a = hp_choice_at(&grid, 0).unwrap();
    assert_eq!((a.max_bin, a.lambda, a.max_order), (32, f(0.0), 1));
    // Twelve settings, all different; the thirteenth is the first again.
    let all: Vec<_> = (0..12).map(|i| hp_choice_at(&grid, i).unwrap()).collect();
    for i in 0..12 {
        for j in 0..i {
            assert_ne!(all[i], all[j]);
        }
    }
    assert_eq!(hp_choice_at(&grid, 12).unwrap(), a);
}

#[test]
fn config_and_shape_are_checked() {
    assert!(Config::default().validate().is_ok());
    assert_eq!(Booster::new().config().n_trees, 1000);
    let c = Config { n_trees: 7, ..Config::default() };
    assert_eq!(Booster::with_config(c).config().n_trees, 7);
    for bad in [
        Config { n_trees: 0, ..Config::default() },
        Config { learning_rate: f(0.0), ..Config::default() },
        Config { learning_rate: f(f32::NAN), ..Config::default() },
        Config { lambda: f(-1.0), ..Config::default() },
        Config { min_split_gain: f(-0.5), ..Config::default() },
        Config { max_delta_step: Some(f(0.0)), ..Config::default() },
    ] {
        assert!(matches!(bad.validate(), Err(PbError::InvalidConfig { .. })));
    }
    // The configured cap comes first, then the one of the loss.
    assert_eq!(Config::default().step_cap(Some(f(0.7))), Some(f(0.7)));
    let capped = Config { max_delta_step: Some(f(0.2)), ..Config::default() };
    assert_eq!(capped.step_cap(Some(f(0.7))), Some(f(0.2)));
    assert_eq!(Config::default().step_cap(None), None);
}

#[test]
fn mvs_config_validation_is_fail_closed() {
    for sampling in [
        Sampling::Mvs { rate: f(0.0), min_rows: 1 },
        Sampling::Mvs { rate: f(1.1), min_rows: 1 },
        Sampling::Mvs { rate: f(0.5), min_rows: 0 },
    ] {
        let cfg = Config { sampling, ..Config::default() };
        assert!(matches!(cfg.validate(), Err(PbError::InvalidConfig { .. })));
    }
    let all = Config { sampling: Sampling::Mvs { rate: f(1.0), min_rows: 1 }, ..Config::default() };
    assert!(all.validate().is_ok());
    assert_eq!(Sampling::default(), Sampling::Full);
    assert_eq!(HistPrecision::default(), HistPrecision::FullF64);
}

#[test]
fn new_accuracy_config_validation_is_fail_closed() {
    for cfg in [
        Config { l1_leaf: f(-1.0), ..Config::default() },
        Config { colsample_bytree: f(0.0), ..Config::default() },
        Config { colsample_bytree: f(1.1), ..Config::default() },
        Config { learning_rate_decay: f(-0.1), ..Config::default() },
        Config { validation_fraction: Some(f(0.0)), ..Config::default() },
        Config { validation_fraction: Some(f(1.0)), ..Config::default() },
        Config {
            validation_fraction: Some(f(0.2)),
            early_stopping_rounds: 0,
            ..Config::default()
        },
        Config {
            leaf_refine_steps: 1,
            leaf_refine_backtracks: 0,
            ..Config::default()
        },
    ] {
        assert!(matches!(cfg.validate(), Err(PbError::InvalidConfig { .. })));
    }
}

#[test]
fn floors_are_checked_and_the_default_is_inert() {
    assert!(CredibilityFloor::default().rejects_nothing());
    assert!(CredibilityFloor::default().validate().is_ok());
    let one = CredibilityFloor { min_data_in_leaf: 1, ..CredibilityFloor::default() };
    assert!(!one.rejects_nothing());
    let smooth = CredibilityFloor { path_smooth: f(2.0), ..CredibilityFloor::default() };
    assert!(smooth.rejects_nothing());
    for bad in [
        CredibilityFloor { min_sum_hessian_in_leaf: f(-1.0), ..one },
        CredibilityFloor { min_weight_sum_in_leaf: f(f32::NAN), ..one },
        CredibilityFloor { path_smooth: f(f32::INFINITY), ..one },
    ] {
        assert!(matches!(bad.validate(), Err(PbError::InvalidConfig { .. })));
    }
}

#[test]
fn bad_config_and_shape_errors() {
    assert!(matches!(
        Config { n_trees: 0, ..Config::default() }.validate(),
        Err(PbError::InvalidConfig { .. })
    ));
    let bad = Config {
        boosters: BoosterConfig { random_strength: f(-1.0), ..BoosterConfig::default() },
        ..Config::default()
    };
    assert!(matches!(bad.validate(), Err(PbError::InvalidConfig { .. })));
    assert!(matches!(
        check_fit_rows(&fs(&[1.0]), None, None, 2),
        Err(PbError::ShapeMismatch { .. })
    ));
    assert!(matches!(
        check_fit_rows(&fs(&[1.0, 2.0]), Some(&fs(&[1.0])), None, 2),
        Err(PbError::ShapeMismatch { .. })
    ));
    assert!(matches!(
        check_fit_rows(&fs(&[1.0, 2.0]), None, Some(&fs(&[1.0])), 2),
        Err(PbError::ShapeMismatch { .. })
    ));
    assert!(check_fit_rows(&fs(&[1.0, 2.0]), None, None, 2).is_ok());
}

#[test]
fn unsupported_future_fit_spec_knobs_are_rejected() {
    let policy = InteractionPolicy::default();
    assert!(validate_interaction(&policy).is_ok());
    assert_eq!(policy.table_budget_cells, default_table_budget_cells());
    let mut p = InteractionPolicy::default();
    p.max_order = 0;
    assert!(matches!(validate_interaction(&p), Err(PbError::InvalidConfig { .. })));
    p.max_order = 4;
    assert!(matches!(validate_interaction(&p), Err(PbError::InvalidConfig { .. })));
    let mut p = InteractionPolicy::default();
    p.groups = Some(Vec::new());
    assert!(matches!(validate_interaction(&p), Err(PbError::InvalidConfig { .. })));
    let mut p = InteractionPolicy::default();
    p.max_order = 1;
    p.groups = Some(vec![set(&[0, 1])]);
    assert!(matches!(validate_interaction(&p), Err(PbError::InvalidConfig { .. })));
    let mut p = InteractionPolicy::default();
    p.groups = Some(vec![set(&[0])]);
    assert!(validate_interaction(&p).is_ok());
    let mut p = InteractionPolicy::default();
    p.table_budget_beta = f(f32::NAN);
    assert!(matches!(validate_interaction(&p), Err(PbError::InvalidConfig { .. })));
    let mut p = InteractionPolicy::default();
    p.table_budget_cells = 0;
    assert!(matches!(validate_interaction(&p), Err(PbError::InvalidConfig { .. })));
    let mut m = MonotoneMap::new();
    m.insert("f0", MonoSign::Increasing);
    assert_eq!(resolve_monotone(&m, 1).unwrap(), vec![Some(MonoSign::Increasing)]);
    let mut m = MonotoneMap::new();
    m.insert("unknown_feature", MonoSign::Increasing);
    assert!(matches!(resolve_monotone(&m, 1), Err(PbError::InvalidConfig { .. })));
}

#[test]
fn monotone_names_are_default_names() {
    assert_eq!(default_names(3), vec!["f0", "f1", "f2"]);
    for i in 0..12 {
        assert_eq!(parse_axis(&default_names(12)[i]), Some(i));
    }
    assert_eq!(parse_axis("f"), None);
    assert_eq!(parse_axis("g1"), None);
    assert_eq!(parse_axis("f-1"), None);
    assert_eq!(parse_axis("f99999999999999999999999"), None);
    let mut m = MonotoneMap::new();
    m.insert("f2", MonoSign::Decreasing);
    m.insert("f0", MonoSign::Increasing);
    m.insert("f2", MonoSign::Free);
    assert_eq!(
        resolve_monotone(&m, 3).unwrap(),
        vec![Some(MonoSign::Increasing), None, None]
    );
    assert!(matches!(resolve_monotone(&m, 2), Err(PbError::InvalidConfig { .. })));
}

#[test]
fn malformed_binned_matrix_errors_at_fit_boundary() {
    let x = small_matrix();
    assert!(validate_binned_matrix(&x).is_ok());
    let mut bad = x.clone();
    bad.data[0].push(1);
    assert!(matches!(validate_binned_matrix(&bad), Err(PbError::ShapeMismatch { .. })));
    let mut bad = x.clone();
    bad.grids.pop();
    assert!(matches!(validate_binned_matrix(&bad), Err(PbError::ShapeMismatch { .. })));
    let mut bad = x.clone();
    bad.provenance.pop();
    assert!(matches!(validate_binned_matrix(&bad), Err(PbError::ShapeMismatch { .. })));
    let mut bad = x.clone();
    bad.grids[0].n_bins = 0;
    assert!(matches!(validate_binned_matrix(&bad), Err(PbError::InvalidInput { .. })));
    let mut bad = x.clone();
    bad.grids[0].borders.clear();
    assert!(matches!(validate_binned_matrix(&bad), Err(PbError::InvalidInput { .. })));
    let mut bad = x;
    bad.data[0][0] = u8::MAX;
    assert!(matches!(validate_binned_matrix(&bad), Err(PbError::InvalidInput { .. })));
}

#[test]
fn rows_are_gathered_by_number() {
    let v = fs(&[1.0, 2.0, 3.0]);
    assert_eq!(gather_rows(&v, &vec![2, 0, 2]).unwrap(), fs(&[3.0, 1.0, 3.0]));
    assert!(matches!(gather_rows(&v, &vec![3]), Err(PbError::Internal { .. })));
    assert!(gather_f32("y", &v, &vec![3]).is_err());
    let x = small_matrix();
    let sub = row_subset(&x, &v, Some(&v), None, &vec![2, 0]).unwrap();
    assert_eq!(sub.x.data, vec![vec![3, 1]]);
    assert_eq!(sub.x.n_rows, 2);
    assert_eq!(sub.y, fs(&[3.0, 1.0]));
    assert_eq!(sub.weight, Some(fs(&[3.0, 1.0])));
    assert_eq!(sub.exposure, None);
    assert_eq!(sub.x.grids, x.grids);
    assert!(row_subset(&x, &v, None, None, &vec![5]).is_err());
}

#[test]
fn bags_follow_the_stream() {
    let rows = bootstrap_rows(11, 2, 30, 30).unwrap();
    let want: Vec<u32> = (0..30).map(|i| (pb_seed(11, 2, Stage::Sample.number(), i) % 30) as u32).collect();
    assert_eq!(rows, want);
    let sub = subagging_rows(11, 2, 30, 10).unwrap();
    let drawn = draw_positions(30, 10, pb_rng(11, 2, Stage::Sample, 0));
    assert_eq!(sub, drawn.iter().map(|&i| i as u32).collect::<Vec<u32>>());
    assert_eq!(sub.len(), 10);
    assert!(sub.windows(2).all(|w| w[0] < w[1]));
    assert_ne!(sub, subagging_rows(12, 2, 30, 10).unwrap());
    let idx = bootstrap_indices(5, 1, 8).unwrap();
    assert_eq!(idx.len(), 8);
    assert!(idx.iter().all(|&i| i < 8));
}

#[test]
fn greedy_select_requires_a_holdout_row() {
    assert!(matches!(holdout_split(0, 1), Err(PbError::InvalidInput { .. })));
    let (train, hold) = holdout_split(3, 10).unwrap();
    assert_eq!((train.len(), hold.len()), (8, 2));
}

#[test]
fn splits_are_partitions() {
    let (train, hold) = holdout_split(3, 23).unwrap();
    let mut all: Vec<u32> = train.iter().chain(&hold).copied().collect();
    all.sort_unstable();
    assert_eq!(all, (0..23).collect::<Vec<u32>>());
    assert_eq!(hold.len(), 4);
    let (fit, none) = carve_validation_rows(5, None, 1).unwrap();
    assert_eq!(fit, vec![0, 1, 2, 3, 4]);
    assert_eq!(none, None);
    let (fit, held) = carve_validation_rows(10, Some(3), 1).unwrap();
    let held = held.unwrap();
    assert_eq!((fit.len(), held.len()), (7, 3));
    let mut all: Vec<u32> = fit.iter().chain(&held).copied().collect();
    all.sort_unstable();
    assert_eq!(all, (0..10).collect::<Vec<u32>>());
}

#[test]
fn smallest_keys_are_picked_whatever_their_order() {
    let a = vec![(5, 0), (1, 1), (9, 2), (1, 3)];
    let mut b = a.clone();
    b.reverse();
    let mut x = smallest_items(a, 2);
    let mut y = smallest_items(b, 2);
    x.sort_unstable();
    y.sort_unstable();
    assert_eq!(x, vec![1, 3]);
    assert_eq!(x, y);
    let axes = vec![0, 1, 2, 3, 4];
    assert_eq!(sample_axes(&axes, None, 1, 0), axes);
    let some = sample_axes(&axes, Some(2), 1, 0);
    assert_eq!(some.len(), 2);
    assert!(some.windows(2).all(|w| w[0] < w[1]));
    assert_eq!(sample_axes(&axes, Some(0), 1, 0).len(), 1);
    assert_eq!(sample_axes(&axes, Some(9), 1, 0).len(), 5);
}

#[test]
fn mvs_sampler_is_deterministic_and_gradient_weighted() {
    let rows: Vec<u32> = (0..20).collect();
    let g: Vec<f32> = (0..20).map(|i| if i < 5 { 20.0 - i as f32 } else { 0.1 }).collect();
    let pick = || {
        let keys: Vec<F64> = rows
            .iter()
            .map(|&r| {
                let bits = pb_seed(123, 7, Stage::Sample.number(), r) >> 11;
                let unit = (bits as f64 + 1.0) / 9_007_199_254_740_993.0;
                let mag = (f64::from(g[r as usize]).powi(2) + 1.0).sqrt();
                d(unit.ln() / mag)
            })
            .collect();
        let k = mvs_count(rows.len(), 5, 4);
        sample_rows(&rows, &keys, k)
    };
    let a = pick();
    assert_eq!(a, pick());
    assert_eq!(a.len(), 5);
    let sampled: f32 = a.iter().map(|&r| g[r as usize].abs()).sum::<f32>() / a.len() as f32;
    let population: f32 = g.iter().map(|v| v.abs()).sum::<f32>() / g.len() as f32;
    assert!(sampled > population);
    assert_eq!(mvs_count(20, 3, 4), 4);
    assert_eq!(mvs_count(20, 50, 4), 20);
    assert_eq!(sample_rows(&vec![7, 8, 9], &ds(&[0.1, 0.3, 0.2]), 2), vec![8, 9]);
}

#[test]
fn dart_rate_decides_the_drops() {
    assert!(dart_drop_mask(None, 1, 0, 3).unwrap().is_empty());
    let never = DartSpec { drop_rate: f(0.0), normalize: true };
    assert_eq!(dart_drop_mask(Some(never), 1, 0, 3).unwrap(), vec![false; 3]);
    let often = DartSpec { drop_rate: f(0.9), normalize: true };
    let mask = dart_drop_mask(Some(often), 1, 0, 200).unwrap();
    let dropped = mask.iter().filter(|&&b| b).count();
    assert!((150..200).contains(&dropped), "{dropped}");
    assert_eq!(mask, dart_drop_mask(Some(often), 1, 0, 200).unwrap());
    assert_ne!(mask, dart_drop_mask(Some(often), 2, 0, 200).unwrap());
    // A draw of 53 bits counts from one, as a fraction of two to the 53rd.
    assert!(is_below(0, f(0.5)));
    assert!(is_below((1 << 52) - 2, f(0.5)));
    assert!(!is_below((1 << 52) - 1, f(0.5)));
    assert!(!is_below(0, f(0.0)));
    assert_eq!(dart_normalization(3, &vec![true, false, true], &often).unwrap(), 2);
    let plain = DartSpec { drop_rate: f(0.9), normalize: false };
    assert_eq!(dart_normalization(3, &vec![true, false, true], &plain).unwrap(), 0);
    assert!(dart_normalization(2, &vec![true], &often).is_err());
}

#[test]
fn fit_stops_early_and_keeps_the_best_trees() {
    let plan = FitPlan {
        n_rounds: 10,
        early_stopping_rounds: 2,
        has_validation: true,
        refit: RefitSpec::Ridge { l2: f(1.0), max_iter: 2, every_k_trees: Some(2) },
        correction: false,
    };
    let mut s = FitProgress::start(plan, Some(d(10.0)));
    let mut scores = vec![9.0, 8.0, 8.5, 8.0].into_iter();
    let mut steps = Vec::new();
    while s.step != Step::Done {
        steps.push(s.step);
        let o = match s.step {
            Step::Grow => Outcome::Grew,
            Step::RefitTree | Step::RefitEnd => Outcome::Refitted,
            Step::Score => Outcome::Scored(d(scores.next().unwrap())),
            Step::Truncate => Outcome::Truncated,
            _ => panic!("no correction here"),
        };
        s.advance(o);
    }
    assert_eq!(
        steps,
        vec![
            Step::Grow,
            Step::Score,
            Step::Grow,
            Step::RefitTree,
            Step::Score,
            Step::Grow,
            Step::Score,
            Step::Grow,
            Step::RefitTree,
            Step::Score,
            Step::Truncate,
        ]
    );
    assert_eq!(s.n_trees, 2);
    assert_eq!(s.best, Some(d(8.0)));
    assert_eq!(s.last_refit, 2);
}

#[test]
fn fit_refits_at_the_end_and_ends_without_splits() {
    let plan = FitPlan {
        n_rounds: 3,
        early_stopping_rounds: 1,
        has_validation: false,
        refit: RefitSpec::Ridge { l2: f(1.0), max_iter: 2, every_k_trees: None },
        correction: true,
    };
    let mut s = FitProgress::start(plan, None);
    s.advance(Outcome::Grew);
    assert_eq!(s.step, Step::Correct);
    s.advance(Outcome::Grew);
    assert_eq!((s.step, s.round, s.n_trees), (Step::Grow, 1, 2));
    s.advance(Outcome::NoSplit);
    assert_eq!(s.step, Step::RefitEnd);
    s.advance(Outcome::Refitted);
    assert_eq!((s.step, s.last_refit), (Step::Done, 2));
    let off = RefitSpec::Off;
    assert!(!should_refit_at_end(&off, 5, 0));
    let every = RefitSpec::Ridge { l2: f(0.0), max_iter: 1, every_k_trees: Some(3) };
    assert!(should_refit_after_round(&every, 6));
    assert!(!should_refit_after_round(&every, 5));
    assert!(!should_refit_after_round(&every, 0));
    assert!(should_refit_at_end(&every, 5, 3));
    assert!(!should_refit_at_end(&every, 6, 6));
}

#[test]
fn line_search_halves_until_the_deviance_falls() {
    let mut s = LineSearch::start(2, 3, d(10.0));
    s.proposed(true);
    assert!(!s.tried(d(11.0)));
    assert_eq!(s.step, SearchStep::Try { halvings: 1 });
    assert!(s.tried(d(9.0)));
    assert_eq!((s.step, s.best), (SearchStep::Propose, d(9.0)));
    s.proposed(true);
    for _ in 0..3 {
        assert!(!s.tried(d(f64::NAN)));
    }
    assert_eq!((s.step, s.best, s.accepted), (SearchStep::Done, d(9.0), 1));
    let mut none = LineSearch::start(2, 3, d(1.0));
    none.proposed(false);
    assert_eq!(none.step, SearchStep::Done);
    assert_eq!(LineSearch::start(0, 3, d(1.0)).step, SearchStep::Done);
}

fn ridge(max_iter: u8) -> RefitSpec {
    RefitSpec::Ridge { l2: f(1.0), max_iter, every_k_trees: None }
}

#[test]
fn refit_search_ends() {
    let mut s = RefitSearch::start(&ridge(2), 5);
    s.solved(d(10.0));
    assert_eq!(s.standing, Some(d(10.0)));
    assert!(!s.tried(d(11.0), d(10.5), d(1.0), d(0.5)));
    assert_eq!(s.step, RefitStep::Try { halvings: 1 });
    assert!(s.tried(d(9.0), d(10.5), d(1.0), d(0.5)));
    assert_eq!((s.step, s.iter, s.standing), (RefitStep::Solve, 1, Some(d(9.0))));
    s.solved(d(77.0));
    assert_eq!(s.standing, Some(d(9.0)));
    for _ in 0..REFIT_MAX_BACKTRACKS {
        assert!(matches!(s.step, RefitStep::Try { .. }));
        assert!(!s.tried(d(f64::NAN), d(f64::INFINITY), d(0.0), d(1.0)));
    }
    assert_eq!((s.step, s.iter, s.standing), (RefitStep::Done, 1, Some(d(9.0))));
    assert_eq!(RefitSearch::start(&ridge(2), 0).step, RefitStep::Done);
    assert_eq!(RefitSearch::start(&ridge(0), 3).step, RefitStep::Done);
    assert_eq!(RefitSearch::start(&RefitSpec::Off, 3).step, RefitStep::Done);
}

#[test]
fn refit_keeps_a_trial_at_its_limit_and_stops_where_nothing_moves() {
    let mut s = RefitSearch::start(&ridge(5), 1);
    s.solved(d(10.0));
    assert!(!s.tried(d(f64::NEG_INFINITY), d(10.5), d(f64::INFINITY), d(0.5)));
    assert!(!s.tried(d(10.0), d(f64::NAN), d(0.0), d(0.5)));
    assert!(s.tried(d(10.5), d(10.5), d(0.5), d(0.5)));
    assert_eq!((s.step, s.iter, s.standing), (RefitStep::Done, 1, Some(d(10.5))));
    let mut m = RefitSearch::start(&ridge(5), 1);
    m.solved(d(10.0));
    assert!(m.tried(d(8.0), d(10.5), d(2.0), d(0.5)));
    assert_eq!((m.step, m.iter), (RefitStep::Solve, 1));
    let mut last = RefitSearch::start(&ridge(1), 1);
    last.solved(d(10.0));
    assert!(last.tried(d(8.0), d(10.5), d(2.0), d(0.5)));
    assert_eq!((last.step, last.iter), (RefitStep::Done, 1));
}

#[test]
fn memberships_and_leaves_are_laid_out_by_row_and_tree() {
    let trees: Vec<WeightedTree> = vec![
        (f(1.0), tree(&[0], [1.0, 2.0, 0.0, 0.0, 0.0, 0.0, 0.0, 0.0])),
        (f(0.5), tree(&[0], [3.0, 4.0, 0.0, 0.0, 0.0, 0.0, 0.0, 0.0])),
    ];
    let x = small_matrix();
    let m = leaf_memberships(&x, &trees).unwrap();
    assert_eq!(m, vec![1, 1, 0, 0, 0, 0]);
    assert_eq!(leaf_from_membership(&m, 0, 1, 2).unwrap(), 1);
    assert!(leaf_from_membership(&m, 9, 0, 2).is_err());
    assert_eq!(membership_offset(2, 1, 2).unwrap(), 5);
    assert!(membership_offset(usize::MAX, 0, 2).is_err());
    assert_eq!(refit_col(2, 3).unwrap(), 19);
    assert_eq!(matrix_offset(4, 2, 1).unwrap(), 9);
    let theta = collect_leaf_theta(&trees, 16).unwrap();
    assert_eq!((theta[0], theta[1], theta[8], theta[9]), (f(1.0), f(2.0), f(3.0), f(4.0)));
    assert!(collect_leaf_theta(&trees, 15).is_err());
    let mut moved = trees.clone();
    let new: Vec<F32> = (0..16).map(|i| f(i as f32)).collect();
    write_leaf_theta(&mut moved, &new);
    assert_eq!(moved[1].1.leaves[1], f(9.0));
    assert_eq!(moved[1].0, f(0.5));
    assert_eq!(collect_tree_alphas(&trees).unwrap(), fs(&[1.0, 0.5]));
    set_tree_alphas(&mut moved, &fs(&[0.25, 0.75])).unwrap();
    assert_eq!(collect_tree_alphas(&moved).unwrap(), fs(&[0.25, 0.75]));
    assert!(set_tree_alphas(&mut moved, &fs(&[1.0])).is_err());
}

#[test]
fn selection_prefers_the_lowest_deviance() {
    assert_eq!(rank_members(&ds(&[3.0, 1.0, 2.0, 1.0])), vec![1, 3, 2, 0]);
    assert_eq!(pick_seed(&vec![4, 7, 9], &ds(&[2.0, 1.0, 1.0])), 7);
    assert_eq!(pick_member(&ds(&[2.0, 0.5, 0.5])), Pick { member: 1, scored: true });
    let first = Pick { member: 0, scored: false };
    assert_eq!(pick_member(&ds(&[])), first);
    assert_eq!(pick_member(&ds(&[f64::INFINITY, f64::NAN])), first);
    assert_eq!(pick_member(&ds(&[f64::NAN, 3.0])), Pick { member: 1, scored: true });
    assert_eq!(count_picks(&vec![2, 0, 2, 2], 3).unwrap(), vec![1, 0, 3]);
    assert!(count_picks(&vec![3], 3).is_err());
    assert!(check_selection(3, 2, 1).is_ok());
    assert!(check_selection(0, 2, 1).is_err());
    assert_eq!(bag_seed(5, 1), bag_seed(5, 1));
    assert_ne!(bag_seed(5, 1), bag_seed(5, 2));
    assert_ne!(member_seed(5, 1, 64), member_seed(5, 1, 128));
}

#[test]
fn corrections_use_rows_outside_the_bags() {
    let trees: Vec<WeightedTree> = vec![
        (f(1.0), tree(&[2, 0], [0.0; 8])),
        (f(1.0), tree(&[1], [0.0; 8])),
        (f(1.0), tree(&[0, 2, 1], [0.0; 8])),
    ];
    let s = correctable_supports(&trees);
    assert_eq!(s.mains, vec![0, 1, 2]);
    assert_eq!(s.pairs, vec![(0, 1), (0, 2), (1, 2)]);
    assert_eq!(in_bag_mask(&vec![2, 2, 0], 4), vec![true, false, true, false]);
    let masks = vec![vec![true, false, false], vec![false, false, true]];
    let counts = oob_counts(&masks, 3);
    assert_eq!(counts, vec![1, 2, 1]);
    let counts: Vec<u32> = (0..400).map(|i| u32::from(i % 3 != 0)).collect();
    let (fit, judge) = correction_rows(&counts);
    assert!(judge.iter().all(|&r| is_judge_row(r as u64) && counts[r] > 0));
    assert!(fit.iter().all(|&r| !is_judge_row(r as u64) && counts[r] > 0));
    assert_eq!(fit.len() + judge.len(), counts.iter().filter(|&&c| c > 0).count());
    assert!(!judge.is_empty());
    assert_eq!(pick_strength(&fs(&[1.0, 0.5, 0.5])), 1);
    assert_eq!(pick_strength(&fs(&[1.0, 1.0, 2.0])), 0);
    assert_eq!(pick_strength(&fs(&[f32::NAN, f32::NAN])), 0);
    assert_eq!(kept_quarters(0, &vec![]), FULL_STRENGTH);
    assert_eq!(kept_quarters(3, &fs(&[5.0, 4.0, 3.0, 2.0, 2.0])), 3);
    assert_eq!(kept_quarters(3, &fs(&[2.0, 2.0, 2.0, 2.0, 2.0])), 0);
}

#[test]
fn one_bag_is_the_plain_fit() {
    for draw in [BagDraw::Replaced, BagDraw::Share { rows: 2 }] {
        assert_eq!(plan_bags(7, draw, 5, 1).unwrap(), BagPlan::Plain);
    }
    let BagPlan::Bags(bags) = plan_bags(7, BagDraw::Replaced, 5, 3).unwrap() else {
        panic!("expected bags");
    };
    assert_eq!(bags.len(), 3);
    for (b, bag) in bags.iter().enumerate() {
        assert_eq!(bag.rows, bootstrap_rows(7, b as u32, 5, 5).unwrap());
        assert_eq!(bag.seed, bag_seed(7, b as u32));
    }
    let BagPlan::Bags(shares) = plan_bags(7, BagDraw::Share { rows: 0 }, 5, 2).unwrap() else {
        panic!("expected bags");
    };
    assert!(shares.iter().all(|b| b.rows.len() == 1));
    let BagPlan::Bags(wide) = plan_bags(7, BagDraw::Share { rows: 3 }, 5, 2).unwrap() else {
        panic!("expected bags");
    };
    assert_eq!(wide[1].rows, subagging_rows(7, 1, 5, 3).unwrap());
}

#[test]
fn a_fitted_model_carries_its_data() {
    let x = small_matrix();
    let objective = ObjectiveTag {
        link: Link::Log,
        loss: LossId::Tweedie,
        tweedie_rho: Some(f(1.5)),
    };
    let trees = vec![(f(1.0), tree(&[0], [1.0, 2.0, 0.0, 0.0, 0.0, 0.0, 0.0, 0.0]))];
    let fit = |f0: f32| {
        fitted_model(
            f(f0),
            trees.clone(),
            &x,
            Link::Log,
            objective,
            CatEncoderStore::new(),
            1,
        )
    };
    let m = fit(0.25);
    assert_eq!((m.f0, &m.mode, m.link), (f(0.25), &ExactnessMode::Exact, Link::Log));
    assert_eq!((&m.grids, &m.provenance), (&x.grids, &x.provenance));
    assert_eq!(m.trees, trees);
    assert_eq!(m.schema.feature_names, default_names(x.data.len()));
    assert_eq!(m.schema.feature_kinds.len(), x.provenance.len());
    assert_eq!(m.schema.objective, objective);
    assert!(validate_soup_member(&m, &fit(0.75)).is_ok());
    let mean = averaged_model(m.clone(), f(0.5), vec![]);
    assert_eq!((mean.f0, mean.trees.len(), &mean.mode), (f(0.5), 0, &ExactnessMode::Exact));
    assert_eq!((&mean.grids, &mean.schema), (&m.grids, &m.schema));
}

fn model(trees: Vec<WeightedTree>) -> Model {
    let x = small_matrix();
    Model {
        f0: f(0.0),
        trees,
        grids: x.grids,
        provenance: x.provenance,
        link: Link::Identity,
        mode: ExactnessMode::Exact,
        schema: ModelSchema {
            feature_names: default_names(1),
            feature_kinds: vec![AxisKind::Numeric],
            cat_encoders: CatEncoderStore::new(),
            class_labels: None,
            objective: ObjectiveTag {
                link: Link::Identity,
                loss: LossId::SquaredError,
                tweedie_rho: None,
            },
        },
        schema_version: 1,
    }
}

#[test]
fn models_score_and_mix() {
    let m = model(vec![(f(1.0), tree(&[0], [1.0, 2.0, 0.0, 0.0, 0.0, 0.0, 0.0, 0.0]))]);
    assert_eq!(m.lookups(&vec![1]).unwrap(), fs(&[2.0]));
    assert_eq!(m.lookups(&vec![2]).unwrap(), fs(&[1.0]));
    assert!(m.lookups(&vec![]).is_err());
    assert!(validate_soup_member(&m, &m).is_ok());
    let mut other = m.clone();
    other.link = Link::Log;
    assert!(validate_soup_member(&m, &other).is_err());
    let mut grids = m.clone();
    grids.grids[0].n_bins = 9;
    assert!(validate_soup_member(&m, &grids).is_err());
    let soup = |a: f64, b: f64| vec![
        WeightedModel { alpha: d(a), model: m.clone() },
        WeightedModel { alpha: d(b), model: m.clone() },
    ];
    assert!(check_soup(&soup(0.5, 0.5)).is_ok());
    assert!(check_soup(&vec![]).is_err());
    assert!(check_soup(&soup(-0.5, 1.5)).is_err());
    assert!(check_soup(&soup(f64::NAN, 1.0)).is_err());
}

#[test]
fn errors_print_their_kind() {
    let text = |e: PbError| e.message();
    assert_eq!(text(PbError::InvalidInput { what: "a".into() }), "invalid input: a");
    assert_eq!(text(PbError::InvalidConfig { what: "b".into() }), "invalid config: b");
    assert_eq!(text(PbError::ShapeMismatch { what: "c".into() }), "shape mismatch: c");
    assert_eq!(text(PbError::DtypeMismatch { expected: "f32" }), "dtype mismatch: expected f32");
    assert_eq!(text(PbError::ExactnessFirewall("d".into())), "exactness firewall: d");
    assert_eq!(text(PbError::Serialization("e".into())), "serialization: e");
    assert_eq!(text(PbError::Internal { what: "g".into() }), "internal bug: g");
    assert_eq!(
        text(PbError::TableBudget { what: "t".into(), cells: 9, budget: 4 }),
        "table budget exceeded: t would materialize 9 cells (budget 4)"
    );
    assert_eq!(decimal(0), "0");
    assert_eq!(decimal(u64::MAX), "18446744073709551615");
    match PbError::invariant_violated(Invariant::FeatureBudget) {
        PbError::InvariantViolated { broken } => {
            assert_eq!(broken, Invariant::FeatureBudget);
            assert_eq!(broken.name(), "FeatureBudget (I1: depth-3, ≤3 distinct raw features)");
        }
        _ => panic!("expected an invariant"),
    }
    assert_eq!(TsEncodingId(3), TsEncodingId(3));
}

#[test]
fn parity_signs_multiply() {
    // The sign of a mask on a leaf is the parity of their common bits.
    for mask in 0..8u8 {
        for leaf in 0..8u8 {
            let odd = (mask & leaf).count_ones() % 2 == 1;
            assert_eq!(sign(mask, leaf), if odd { -1 } else { 1 });
        }
    }
}

fn wht(leaves: [f64; 8]) -> [f64; 8] {
    let mut out = [0.0; 8];
    for mask in 0..8u8 {
        let total: f64 = (0..8u8).map(|l| f64::from(sign(mask, l)) * leaves[l as usize]).sum();
        out[mask as usize] = total / 8.0;
    }
    out
}

#[test]
fn wht8_round_trips_leaf_values() {
    let leaves = [1.0, -2.0, 3.5, 4.0, -1.0, 0.25, 8.0, -3.0];
    let coeffs = wht(leaves);
    for leaf in 0..8u8 {
        let back: f64 = (0..8u8).map(|m| f64::from(sign(m, leaf)) * coeffs[m as usize]).sum();
        assert!((back - leaves[leaf as usize]).abs() < 1e-12);
    }
}

#[test]
fn wht8_names_constant_main_pair_and_triple_masks() {
    let leaves = [0.0, 1.0, 2.0, 3.0, 4.0, 5.0, 6.0, 9.0];
    let coeffs = wht(leaves);
    assert_eq!(coeffs[0], leaves.iter().sum::<f64>() / 8.0);
    assert!(coeffs[0b111].abs() > 0.0);
    for coeff in coeffs.iter().take(0b110 + 1).skip(0b001) {
        assert!(coeff.is_finite());
    }
}

#[test]
fn refused_settings_name_their_number() {
    let what = |r: Result<(), PbError>| match r {
        Err(PbError::InvalidConfig { what }) => what,
        _ => panic!("expected a configuration error"),
    };
    let c = || Config::default();
    assert_eq!(
        what(Config { learning_rate: f(0.0), ..c() }.validate()),
        "learning_rate must be finite and > 0, got 0"
    );
    assert_eq!(
        what(Config { lambda: f(-0.1), ..c() }.validate()),
        "lambda must be finite and >= 0, got -0.1"
    );
    assert_eq!(
        what(Config { min_split_gain: f(f32::NAN), ..c() }.validate()),
        "min_split_gain must be finite and >= 0, got NaN"
    );
    assert_eq!(
        what(Config { max_delta_step: Some(f(-3.0e10)), ..c() }.validate()),
        "max_delta_step must be finite and > 0 when set, got -30000000000"
    );
    let refit = RefitSpec::Ridge { l2: f(-1.0), max_iter: 1, every_k_trees: None };
    assert_eq!(what(refit.validate()), "refit l2 must be finite and >= 0, got -1");
    let dart = DartSpec { drop_rate: f(1.25), normalize: true };
    assert_eq!(what(dart.validate()), "DART drop_rate must be finite and in [0, 1), got 1.25");
    let boosters = BoosterConfig { random_strength: f(-0.5), ..BoosterConfig::default() };
    assert_eq!(what(boosters.validate()), "random_strength must be finite and >= 0, got -0.5");
    let grid = || HpGrid::default();
    assert_eq!(
        what(HpGrid { lambdas: fs(&[1.0, -2.0, -3.0]), ..grid() }.validate()),
        "HpGrid lambda must be finite and >= 0, got -2"
    );
    assert_eq!(
        what(HpGrid { learning_rates: fs(&[0.1, 0.0]), ..grid() }.validate()),
        "HpGrid learning_rate must be finite and > 0, got 0"
    );
    assert_eq!(
        what(HpGrid { random_strengths: fs(&[f32::INFINITY]), ..grid() }.validate()),
        "HpGrid random_strength must be finite and >= 0, got inf"
    );
    let policy = InteractionPolicy { table_budget_beta: f(-1.5), ..InteractionPolicy::default() };
    assert_eq!(
        what(validate_interaction(&policy)),
        "interaction.table_budget_beta must be finite and >= 0, got -1.5"
    );
}

#[test]
fn two_runs_of_a_fit_take_the_same_course() {
    let run = |seed: u64| {
        let (train, held) = carve_validation_rows(40, Some(7), seed).unwrap();
        let held = held.unwrap();
        let plan = FitPlan {
            n_rounds: 6,
            early_stopping_rounds: 2,
            has_validation: true,
            refit: RefitSpec::Off,
            correction: false,
        };
        // The score is a function of the rows drawn and the trees so far.
        let sum: u64 = held.iter().map(|&r| u64::from(r)).sum();
        let score = |n: u64| d(((sum * 7 + n * 13) % 11) as f64);
        let mut s = FitProgress::start(plan, Some(score(0)));
        let mut course = Vec::new();
        while s.step != Step::Done {
            course.push((s.step, s.round, s.n_trees));
            let o = match s.step {
                Step::Grow => Outcome::Grew,
                Step::Score => Outcome::Scored(score(s.n_trees)),
                Step::Truncate => Outcome::Truncated,
                _ => panic!("neither refit nor correction"),
            };
            s.advance(o);
        }
        (train, held, course, s.n_trees, s.best)
    };
    for seed in 0..8 {
        assert_eq!(run(seed), run(seed));
    }
}
