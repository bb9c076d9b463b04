use tri_boost_core::cat::fit::{
    check_base_weight, check_fit, check_row_terms, check_shrinkage, collapse_rare_levels,
    kfold_of_rows, members_of,
};
use tri_boost_core::cat::fisher::assign_fisher_bins;
use tri_boost_core::cat::{
    CatEncoder, CatEncoderStore, CatLevel, CatTarget, LeakageScheme, Smooth, TsConfig, TsEncodingId,
};
use tri_boost_core::data::bin::{
    bin, bin_columns, bin_serve_columns, bin_train_columns, bin_values, check_categorical_columns,
    check_columns, check_numeric_columns, CatFit, CategoricalColumn, NumericColumn,
    ServeCategoricalColumn,
};
use tri_boost_core::data::exposure::check_exposure;
use tri_boost_core::data::grid::{
    check_grid, check_sample, collapse_rare_bins, count_below, dedup_ascending,
    plan_grid, planned_grid, quantile_cuts, GridPlan,
};
use tri_boost_core::data::{
    AxisKind, AxisProvenance, BinConfig, BinnedMatrix, BorderFamily, BorderGrid, FeatureId,
};
use tri_boost_core::error::PbError;
use tri_boost_core::float::{F32, F64};
use tri_boost_core::labels::intern_levels;

fn f(v: f32) -> F32 {
    F32::from_bits(v.to_bits())
}

fn d(v: f64) -> F64 {
    F64::from_bits(v.to_bits())
}

fn fs(v: &[f32]) -> Vec<F32> {
    v.iter().map(|&x| f(x)).collect()
}

fn un(v: &[F32]) -> Vec<f32> {
    v.iter().map(|x| f32::from_bits(x.bits)).collect()
}

fn texts(v: &[&str]) -> Vec<String> {
    v.iter().map(|s| s.to_string()).collect()
}

fn cfg(max_bin: u8, subsample: u32) -> BinConfig {
    BinConfig {
        max_bin,
        subsample_for_binning: subsample,
        min_data_per_bin: 0,
        border_family: BorderFamily::EqualCount,
    }
}

/// The borders of a feature: the library plans them, floats place them.
fn build_grid(
    col: &[f32],
    weight: Option<&[f32]>,
    cfg: &BinConfig,
    seed: u64,
    feat: FeatureId,
) -> Result<BorderGrid, PbError> {
    let w = weight.map(fs);
    let plan = plan_grid(&fs(col), w.as_ref(), cfg, seed, feat)?;
    let raw: Vec<F32> = match &plan {
        GridPlan::Degenerate => Vec::new(),
        GridPlan::Midpoints { distinct, .. } => {
            let at = un(distinct);
            at.windows(2).map(|p| f(((f64::from(p[0]) + f64::from(p[1])) / 2.0) as f32)).collect()
        }
        GridPlan::Quantiles { sample, .. } => {
            check_sample(sample)?;
            let mut cum = Vec::new();
            let mut acc = 0.0_f64;
            for (_, w) in sample {
                acc += f64::from(f32::from_bits(w.bits));
                cum.push(acc);
            }
            let last = sample.len() - 1;
            let value = |i: usize| f64::from(f32::from_bits(sample[i].0.bits));
            quantile_cuts(cfg)
                .into_iter()
                .map(|k| {
                    let target = f64::from(k) / f64::from(cfg.max_bin) * acc;
                    let i = cum.partition_point(|&c| c < target).min(last);
                    let v = if i < last && cum[i] == target {
                        (value(i) + value(i + 1)) / 2.0
                    } else {
                        value(i)
                    };
                    f(v as f32)
                })
                .collect()
        }
    };
    planned_grid(&plan, &raw, cfg)
}

fn strictly_ascending(b: &[F32]) -> bool {
    un(b).windows(2).all(|w| w[0] < w[1])
}

#[test]
fn midpoint_branch_is_exact_and_ascending() {
    let col = [1.0, 2.0, 3.0, 2.0, 1.0];
    let g = build_grid(&col, None, &cfg(254, 200_000), 0, FeatureId(0)).unwrap();
    assert_eq!(un(&g.borders), vec![1.5, 2.5]);
    assert_eq!(g.n_bins, 4);
    assert!(strictly_ascending(&g.borders));
}

#[test]
fn all_missing_is_degenerate_single_bin() {
    let col = [f32::NAN, f32::NAN];
    let g = build_grid(&col, None, &cfg(254, 200_000), 0, FeatureId(0)).unwrap();
    assert!(g.borders.is_empty());
    assert_eq!(g.n_bins, 2);
    assert_eq!(g.missing_bin, 0);
}

#[test]
fn quantile_branch_respects_max_bin_and_dedups() {
    let col: Vec<f32> = (0..100).map(|i| i as f32).collect();
    let g = build_grid(&col, None, &cfg(8, 200_000), 7, FeatureId(2)).unwrap();
    assert!(g.borders.len() <= 7, "got {} borders", g.borders.len());
    assert!(strictly_ascending(&g.borders));
    assert!(g.n_bins as usize == g.borders.len() + 2);
}

#[test]
fn skewed_ties_dedup_to_strictly_ascending() {
    let mut col = vec![0.0_f32; 90];
    col.extend((1..=10).map(|i| i as f32));
    let g = build_grid(&col, None, &cfg(16, 200_000), 1, FeatureId(0)).unwrap();
    assert!(strictly_ascending(&g.borders));
}

#[test]
fn grid_is_permutation_invariant_and_deterministic() {
    let col: Vec<f32> = (0..500).map(|i| (i % 37) as f32 * 0.5).collect();
    let mut shuffled = col.clone();
    shuffled.reverse();
    let c = cfg(8, 50);
    let a = build_grid(&col, None, &c, 123, FeatureId(5)).unwrap();
    let b = build_grid(&shuffled, None, &c, 123, FeatureId(5)).unwrap();
    assert_eq!(a, b, "grid must depend only on the value multiset");
    let a2 = build_grid(&col, None, &c, 123, FeatureId(5)).unwrap();
    assert_eq!(a, a2);
}

#[test]
fn rare_bin_collapse_guarantees_min_rows_per_bin() {
    let col: Vec<f32> = (0..10).map(|i| i as f32).collect();
    let mut c = cfg(254, 200_000);
    c.min_data_per_bin = 4;
    let g = build_grid(&col, None, &c, 0, FeatureId(0)).unwrap();
    assert!(g.borders.len() <= 2, "got {} borders", g.borders.len());
    assert!(strictly_ascending(&g.borders));
    let mut counts = vec![0u32; g.n_data_bins()];
    for &v in &col {
        counts[usize::from(bin(f(v), &g).unwrap()) - 1] += 1;
    }
    assert!(
        counts.iter().all(|&c| c >= 4),
        "every bin must hold >= min_data_per_bin rows, got {counts:?}"
    );
}

#[test]
fn averaged_inverted_cdf_branch_is_reachable_unweighted() {
    let col = [0.0_f32, 1.0, 2.0, 3.0];
    let g = build_grid(&col, None, &cfg(2, 200_000), 0, FeatureId(0)).unwrap();
    assert_eq!(un(&g.borders), vec![1.5]);
}

#[test]
fn weighted_quantiles_differ_from_unweighted() {
    let col = [0.0_f32, 1.0, 2.0, 3.0];
    let w = [3.0_f32, 1.0, 1.0, 1.0];
    let g = build_grid(&col, Some(&w), &cfg(2, 200_000), 0, FeatureId(0)).unwrap();
    assert_eq!(un(&g.borders), vec![0.5]);
    let u = build_grid(&col, None, &cfg(2, 200_000), 0, FeatureId(0)).unwrap();
    assert_ne!(g.borders, u.borders);
}

#[test]
fn all_zero_weight_on_quantile_path_errors() {
    let col = [0.0_f32, 1.0, 2.0, 3.0];
    let w = [0.0_f32; 4];
    assert!(matches!(
        build_grid(&col, Some(&w), &cfg(2, 200_000), 0, FeatureId(0)),
        Err(PbError::InvalidInput { .. })
    ));
}

#[test]
fn negative_or_nonfinite_weight_errors() {
    let col = [0.0_f32, 1.0];
    assert!(matches!(
        build_grid(&col, Some(&[-1.0, 1.0]), &cfg(254, 200_000), 0, FeatureId(0)),
        Err(PbError::InvalidInput { .. })
    ));
    assert!(matches!(
        build_grid(&col, Some(&[f32::NAN, 1.0]), &cfg(254, 200_000), 0, FeatureId(0)),
        Err(PbError::InvalidInput { .. })
    ));
}

#[test]
fn weighted_grid_is_permutation_invariant() {
    let col: Vec<f32> = (0..200).map(|i| (i % 20) as f32).collect();
    let w: Vec<f32> = (0..200).map(|i| 1.0 + (i % 7) as f32).collect();
    let c = cfg(8, 30);
    let a = build_grid(&col, Some(&w), &c, 99, FeatureId(4)).unwrap();
    let col_r: Vec<f32> = col.iter().rev().copied().collect();
    let w_r: Vec<f32> = w.iter().rev().copied().collect();
    let b = build_grid(&col_r, Some(&w_r), &c, 99, FeatureId(4)).unwrap();
    assert_eq!(a, b, "weighted grid must be permutation-invariant");
}

#[test]
fn build_grid_midpoint_branch_at_max_bin_ceiling() {
    let col: Vec<f32> = (0..254).map(|i| i as f32).collect();
    let g = build_grid(&col, None, &cfg(254, 200_000), 0, FeatureId(0)).unwrap();
    assert_eq!(g.borders.len(), 253, "midpoint borders = distinct - 1");
    assert_eq!(g.n_bins, 255);
    assert!(strictly_ascending(&g.borders));
    for &v in &col {
        let b = bin(f(v), &g).unwrap();
        assert!((1..=254).contains(&b));
    }
}

#[test]
fn build_grid_quantile_branch_caps_at_max_bin() {
    let col: Vec<f32> = (0..255).map(|i| i as f32).collect();
    let g = build_grid(&col, None, &cfg(254, 200_000), 0, FeatureId(0)).unwrap();
    assert!(g.borders.len() <= 253, "got {} borders", g.borders.len());
    assert!(g.n_bins <= 255);
    assert!(strictly_ascending(&g.borders));
}

#[test]
fn max_bin_255_is_rejected() {
    let col = [1.0_f32, 2.0];
    assert!(matches!(
        build_grid(&col, None, &cfg(255, 200_000), 0, FeatureId(0)),
        Err(PbError::InvalidConfig { .. })
    ));
}

#[test]
fn subsample_depends_on_the_stream() {
    // The drawn rows come from the feature's own stream: another seed or another
    // feature draws other rows.
    let col: Vec<F32> = (0..400).map(|i| f(i as f32)).collect();
    let c = cfg(8, 20);
    let sample = |seed: u64, feat: u32| match plan_grid(&col, None, &c, seed, FeatureId(feat)).unwrap() {
        GridPlan::Quantiles { sorted, sample } => {
            assert_eq!(sorted.len(), 400);
            sample
        }
        _ => panic!("expected quantiles"),
    };
    let a = sample(1, 0);
    assert_eq!(a.len(), 20);
    assert!(a.windows(2).all(|p| p[0].0.lt(&p[1].0)));
    assert_eq!(a, sample(1, 0));
    assert_ne!(a, sample(2, 0));
    assert_ne!(a, sample(1, 1));
}

#[test]
fn plan_sorts_rows_and_keeps_finite_ones() {
    let col = fs(&[3.0, f32::NAN, 1.0, f32::INFINITY, 1.0, -0.0, 0.0]);
    let w = fs(&[1.0, 9.0, 5.0, 9.0, 2.0, 1.0, 1.0]);
    match plan_grid(&col, Some(&w), &cfg(254, 10), 0, FeatureId(0)).unwrap() {
        GridPlan::Midpoints { sorted, distinct } => {
            let plain: Vec<(f32, f32)> = sorted
                .iter()
                .map(|(v, w)| (f32::from_bits(v.bits), f32::from_bits(w.bits)))
                .collect();
            assert_eq!(plain, vec![(-0.0, 1.0), (0.0, 1.0), (1.0, 2.0), (1.0, 5.0), (3.0, 1.0)]);
            // The two zeros are one value.
            assert_eq!(un(&distinct), vec![0.0, 1.0, 3.0]);
        }
        _ => panic!("expected midpoints"),
    }
    match plan_grid(&col, Some(&fs(&[1.0])), &cfg(254, 10), 0, FeatureId(0)) {
        Err(PbError::ShapeMismatch { what }) => assert_eq!(what, "weight len 1 != column len 7"),
        _ => panic!("expected a shape error"),
    }
}

#[test]
fn rare_bins_merge_from_the_left_and_the_tail_folds_back() {
    let vals = fs(&[0.0, 1.0, 2.0, 3.0, 4.0]);
    let borders = fs(&[0.5, 1.5, 2.5, 3.5]);
    assert_eq!(un(&collapse_rare_bins(&vals, &borders, 2)), vec![1.5]);
    assert_eq!(un(&collapse_rare_bins(&vals, &borders, 1)), vec![0.5, 1.5, 2.5, 3.5]);
    assert!(collapse_rare_bins(&vals, &borders, 6).is_empty());
    assert_eq!(count_below(&borders, f(2.0)), 2);
    assert_eq!(count_below(&borders, f(2.5)), 2);
    assert_eq!(un(&dedup_ascending(&fs(&[2.0, 1.0, 2.0, 3.0]))), vec![1.0, 2.0, 3.0]);
}

#[test]
fn sample_without_weight_is_refused() {
    assert!(check_sample(&vec![(f(1.0), f(0.0)), (f(2.0), f(0.5))]).is_ok());
    assert!(matches!(
        check_sample(&vec![(f(1.0), f(0.0)), (f(2.0), f(-0.0))]),
        Err(PbError::InvalidInput { .. })
    ));
    assert!(matches!(check_sample(&vec![]), Err(PbError::InvalidInput { .. })));
}

#[test]
fn default_equal_count_config_validates() {
    assert!(BinConfig::default().validate().is_ok());
    assert_eq!(BinConfig::default().border_family, BorderFamily::EqualCount);
}

#[test]
fn hessian_weighted_is_rejected_in_v1() {
    let cfg = BinConfig {
        border_family: BorderFamily::HessianWeighted,
        ..BinConfig::default()
    };
    assert!(matches!(cfg.validate(), Err(PbError::InvalidConfig { .. })));
    let g = build_grid(&[1.0, 2.0, 3.0], None, &cfg, 0, FeatureId(0));
    assert!(matches!(g, Err(PbError::InvalidConfig { .. })));
}

#[test]
fn max_bin_must_be_in_2_254() {
    for bad in [0u8, 1, 255] {
        let cfg = BinConfig {
            max_bin: bad,
            ..BinConfig::default()
        };
        assert!(
            matches!(cfg.validate(), Err(PbError::InvalidConfig { .. })),
            "max_bin={bad} should be rejected"
        );
    }
    let ok = BinConfig {
        max_bin: 254,
        ..BinConfig::default()
    };
    assert!(ok.validate().is_ok());
}

fn grid(borders: Vec<f32>) -> BorderGrid {
    let n_bins = u16::try_from(borders.len() + 2).unwrap();
    BorderGrid {
        borders: fs(&borders),
        n_bins,
        missing_bin: 0,
    }
}

#[test]
fn bin_semantics_nan_inf_and_borders() {
    let g = grid(vec![1.5, 2.5]);
    assert_eq!(bin(f(f32::NAN), &g).unwrap(), 0);
    assert_eq!(bin(f(1.0), &g).unwrap(), 1);
    assert_eq!(bin(f(1.5), &g).unwrap(), 1);
    assert_eq!(bin(f(2.0), &g).unwrap(), 2);
    assert_eq!(bin(f(3.0), &g).unwrap(), 3);
    assert_eq!(bin(f(f32::NEG_INFINITY), &g).unwrap(), 1);
    assert_eq!(bin(f(f32::INFINITY), &g).unwrap(), 3);
}

#[test]
fn bin_is_non_decreasing_in_value() {
    let g = grid(vec![0.0, 1.0, 2.0, 3.0]);
    let mut prev = 0;
    for step in 0..=40 {
        let v = -1.0 + step as f32 * 0.1;
        let b = bin(f(v), &g).unwrap();
        assert!(b >= prev, "bin must be non-decreasing");
        prev = b;
    }
}

#[test]
fn max_cardinality_grid_never_overflows_u8() {
    let borders: Vec<f32> = (0..253).map(|i| i as f32).collect();
    let g = grid(borders);
    assert_eq!(g.n_bins, 255);
    assert_eq!(bin(f(1.0e9), &g).unwrap(), 254);
    assert_eq!(bin(f(f32::INFINITY), &g).unwrap(), 254);
    for step in 0..300 {
        let b = bin(f(step as f32 - 10.0), &g).unwrap();
        assert!((1..=254).contains(&b));
    }
    assert_eq!(bin(f(f32::NAN), &g).unwrap(), 0);
}

#[test]
fn bin_past_u8_is_internal() {
    let g = grid((0..300).map(|i| i as f32).collect());
    assert!(matches!(bin(f(1.0e9), &g), Err(PbError::Internal { .. })));
    assert_eq!(bin_values(&fs(&[0.0, 1.0, f32::NAN]), &g).unwrap(), vec![1, 2, 0]);
}

/// Bins numeric columns with grids of their own.
fn bin_all(cols: &[Vec<f32>], cfg: &BinConfig, seed: u64) -> Result<BinnedMatrix, PbError> {
    let columns: Vec<Vec<F32>> = cols.iter().map(|c| fs(c)).collect();
    check_columns(&columns, None, cfg)?;
    let mut grids = Vec::new();
    for (i, c) in cols.iter().enumerate() {
        grids.push(build_grid(c, None, cfg, seed, FeatureId(i as u32))?);
    }
    bin_columns(&columns, None, cfg, &grids)
}

#[test]
fn bin_columns_populates_provenance_and_shapes() {
    let c0: Vec<f32> = vec![1.0, 2.0, 3.0, 4.0];
    let c1: Vec<f32> = vec![10.0, 10.0, 20.0, f32::NAN];
    let m = bin_all(&[c0, c1], &BinConfig::default(), 0).unwrap();
    assert_eq!(m.n_rows, 4);
    assert_eq!(m.data.len(), 2);
    assert_eq!(m.grids.len(), 2);
    assert_eq!(m.provenance[0].raw, FeatureId(0));
    assert_eq!(m.provenance[1].raw, FeatureId(1));
    assert!(matches!(m.provenance[0].kind, AxisKind::Numeric));
    assert_eq!(m.data[1][3], 0);
    assert_eq!(m.data[0], vec![1, 2, 3, 4]);
    assert_eq!(m.data[1], vec![1, 1, 2, 0]);
}

#[test]
fn bin_columns_rejects_unequal_columns() {
    let c0: Vec<f32> = vec![1.0, 2.0];
    let c1: Vec<f32> = vec![1.0];
    assert!(matches!(
        bin_all(&[c0, c1], &BinConfig::default(), 0),
        Err(PbError::ShapeMismatch { .. })
    ));
}

#[derive(Clone, Copy, Default)]
struct Term {
    sum_y: f64,
    denom: f64,
}

fn shrunken(sum_wy: f64, sum_w: f64, base: f32, smooth: Smooth) -> Result<f32, PbError> {
    let m = check_shrinkage(d(sum_wy), d(sum_w), f(base), smooth)?;
    let m = f64::from(f32::from_bits(m.bits));
    Ok(((sum_wy + m * f64::from(base)) / (sum_w + m)) as f32)
}

fn midpoints_of(enc: &CatEncoder) -> Vec<F32> {
    un(&enc.ordered_encodings())
        .windows(2)
        .map(|p| f(((f64::from(p[0]) + f64::from(p[1])) / 2.0) as f32))
        .collect()
}

/// A cross-fitted encoder of one label column: the library decides pooling,
/// folds and bins, floats form the sums.
fn fit_kfold(
    raw: FeatureId,
    id: TsEncodingId,
    levels: &Vec<String>,
    y: &[f32],
    config: &TsConfig,
    seed: u64,
) -> Result<CatFit, PbError> {
    check_fit(config, levels.len(), y.len(), None)?;
    let ones = fs(&vec![1.0; y.len()]);
    check_row_terms(&fs(y), &ones, None, config.target)?;
    let terms: Vec<Term> = y.iter().map(|&v| Term { sum_y: f64::from(v), denom: 1.0 }).collect();
    let (raw_ids, names) = intern_levels(levels)?;
    let mut mass = vec![0.0_f64; names.len()];
    for (i, &id) in raw_ids.iter().enumerate() {
        mass[id as usize] += terms[i].denom;
    }
    let min = f64::from(f32::from_bits(config.min_data_per_group.bits));
    let masses: Vec<F64> = mass.iter().map(|&m| d(m)).collect();
    let pooled = collapse_rare_levels(levels, &raw_ids, &names, &masses, d(min))?;
    let (ids, labels) = intern_levels(&pooled.labels)?;
    check_base_weight(&ones, config.target)?;
    let total_y: f64 = terms.iter().map(|t| t.sum_y).sum();
    let total_w: f64 = terms.iter().map(|t| t.denom).sum();
    let base = (total_y / total_w) as f32;
    let mut total = vec![Term::default(); labels.len()];
    for (i, &id) in ids.iter().enumerate() {
        total[id as usize].sum_y += terms[i].sum_y;
        total[id as usize].denom += terms[i].denom;
    }
    let mut out = Vec::new();
    for (i, label) in labels.iter().enumerate() {
        out.push(CatLevel {
            label: label.clone(),
            members: members_of(label, &pooled.rare),
            encoding: f(shrunken(total[i].sum_y, total[i].denom, base, config.smooth)?),
            bin: 0,
            weight: f(total[i].denom as f32),
        });
    }
    let k = match config.leakage {
        LeakageScheme::KFold { k } => k,
        _ => panic!("only folds here"),
    };
    let folds = kfold_of_rows(seed, k, ids.len())?;
    let mut train = Vec::new();
    for (row, &id) in ids.iter().enumerate() {
        let mut held = Term::default();
        for (other, &oid) in ids.iter().enumerate() {
            if oid == id && folds[other] != folds[row] {
                held.sum_y += terms[other].sum_y;
                held.denom += terms[other].denom;
            }
        }
        train.push(if held.denom > 0.0 {
            f(shrunken(held.sum_y, held.denom, base, config.smooth)?)
        } else {
            f(base)
        });
    }
    let encoder = CatEncoder {
        raw,
        id,
        levels: assign_fisher_bins(&out)?,
        base: f(base),
        config: *config,
    };
    let mids = midpoints_of(&encoder);
    Ok(CatFit { encoder, mids, train_encoded: train })
}

#[test]
fn mixed_train_and_serve_constructors_preserve_categorical_schema() {
    let numeric = fs(&[0.0, 1.0, 2.0, 3.0, 4.0, 5.0]);
    let levels = texts(&["low", "high", "low", "high", "mid", "mid"]);
    let y = [1.0_f32, 10.0, 2.0, 12.0, 5.0, 6.0];
    let ts = TsConfig {
        leakage: LeakageScheme::KFold { k: 3 },
        smooth: Smooth::Fixed { m: f(0.0) },
        min_data_per_group: f(0.0),
        ..TsConfig::default()
    };
    let bins = BinConfig::default();
    let num_cols = vec![NumericColumn { raw: FeatureId(0), values: &numeric }];
    let cat_cols = vec![CategoricalColumn {
        raw: FeatureId(1),
        id: TsEncodingId(0),
        levels: &levels,
        config: &ts,
    }];
    let targets = fs(&y);
    assert_eq!(check_numeric_columns(&num_cols, &targets, None, None, &bins).unwrap(), 6);
    check_categorical_columns(&cat_cols, 6).unwrap();
    let num_grid = build_grid(&un(&numeric), None, &bins, 11, FeatureId(0)).unwrap();
    let fit = fit_kfold(FeatureId(1), TsEncodingId(0), &levels, &y, &ts, 11).unwrap();
    let fitted = bin_train_columns(
        &num_cols,
        &cat_cols,
        &targets,
        None,
        None,
        &bins,
        &vec![num_grid],
        vec![fit],
    )
    .unwrap();

    assert_eq!(fitted.cat_encoders.len(), 1);
    assert_eq!(fitted.train.0.data.len(), 2);
    assert_eq!(fitted.serve.0.data.len(), 2);
    assert_eq!(fitted.train.0.data[0], fitted.serve.0.data[0]);
    assert!(matches!(
        fitted.serve.0.provenance[1].kind,
        AxisKind::CategoricalTS {
            encoding: TsEncodingId(0)
        }
    ));

    let new_numeric = fs(&[1.0, 2.0, 3.0]);
    let new_levels = texts(&["high", "unseen", "low"]);
    let served = bin_serve_columns(
        &vec![NumericColumn { raw: FeatureId(0), values: &new_numeric }],
        &vec![ServeCategoricalColumn {
            raw: FeatureId(1),
            id: TsEncodingId(0),
            levels: &new_levels,
        }],
        &fitted.serve.0.grids,
        &fitted.serve.0.provenance,
        &fitted.cat_encoders,
    )
    .unwrap();
    assert_eq!(served.0.n_rows, 3);
    let enc = fitted.cat_encoders.get(TsEncodingId(0), FeatureId(1)).unwrap();
    let cat_grid = enc.border_grid(&midpoints_of(enc)).unwrap();
    let unseen_bin = bin(enc.base, &cat_grid).unwrap();
    assert_eq!(served.0.data[1][1], unseen_bin);
    assert_eq!(served.0.data[0], vec![2, 3, 4]);

    let again = bin_serve_columns(
        &num_cols,
        &vec![ServeCategoricalColumn {
            raw: FeatureId(1),
            id: TsEncodingId(0),
            levels: &levels,
        }],
        &fitted.serve.0.grids,
        &fitted.serve.0.provenance,
        &fitted.cat_encoders,
    )
    .unwrap();
    assert_eq!(again.0.data, fitted.serve.0.data);
    assert_eq!(again.0.n_rows, fitted.serve.0.n_rows);
    for level in &enc.levels {
        assert_eq!(bin(level.encoding, &cat_grid).unwrap(), level.bin);
    }
}

#[test]
fn a_column_without_weight_is_refused() {
    let col = fs(&[0.0, 1.0]);
    let zero = fs(&[0.0, 0.0]);
    let bins = BinConfig::default();
    let refused = |r: Result<(), PbError>| match r {
        Err(PbError::InvalidInput { what }) => {
            assert_eq!(what, "non-positive total weight in binning subsample")
        }
        other => panic!("{other:?}"),
    };
    refused(plan_grid(&col, Some(&zero), &bins, 0, FeatureId(0)).map(|_| ()));
    refused(check_columns(&vec![col.clone()], Some(&zero), &bins).map(|_| ()));
    refused(check_grid(&col, Some(&zero), &bins));
    let missing = fs(&[f32::NAN, f32::NAN]);
    assert_eq!(
        plan_grid(&missing, Some(&zero), &bins, 0, FeatureId(0)).unwrap(),
        GridPlan::Degenerate
    );
    let half_missing = fs(&[f32::NAN, 1.0]);
    let on_missing = fs(&[1.0, 0.0]);
    refused(plan_grid(&half_missing, Some(&on_missing), &bins, 0, FeatureId(0)).map(|_| ()));
    assert!(check_grid(&col, Some(&fs(&[0.0, 1.0])), &bins).is_ok());
}

#[test]
fn faults_of_numeric_columns_come_before_those_of_label_columns() {
    let values = fs(&[1.0, 2.0]);
    let levels = texts(&["a", "b"]);
    let ts = TsConfig::default();
    let bins = BinConfig::default();
    let y = fs(&[1.0, 2.0]);
    let bad = fs(&[-1.0, 1.0]);
    let nums = vec![NumericColumn { raw: FeatureId(0), values: &values }];
    let cat = || CategoricalColumn {
        raw: FeatureId(1),
        id: TsEncodingId(0),
        levels: &levels,
        config: &ts,
    };
    let cats = vec![cat(), cat()];
    let grids = vec![grid(vec![1.5])];
    let fit = || CatFit { encoder: tiny_encoder(), mids: vec![], train_encoded: fs(&[0.0, 0.0]) };
    let weighed =
        bin_train_columns(&nums, &cats, &y, Some(&bad), None, &bins, &grids, vec![fit(), fit()]);
    let text = |r: Result<(), PbError>| format!("{:?}", r.unwrap_err());
    assert_eq!(
        text(weighed.map(|_| ())),
        text(check_numeric_columns(&nums, &y, Some(&bad), None, &bins).map(|_| ()))
    );
    let twice = bin_train_columns(&nums, &cats, &y, None, None, &bins, &grids, vec![fit(), fit()]);
    assert_eq!(text(twice.map(|_| ())), text(check_categorical_columns(&cats, 2)));
}

fn tiny_encoder() -> CatEncoder {
    CatEncoder {
        raw: FeatureId(1),
        id: TsEncodingId(0),
        levels: vec![],
        base: f(0.0),
        config: TsConfig::default(),
    }
}

#[test]
fn midpoints_put_neighbours_into_bins_of_their_own() {
    let values = [1.0_f32, 2.0, 4.0, 8.0];
    let g = grid(vec![1.5, 3.0, 6.0]);
    for (i, v) in values.iter().enumerate() {
        assert_eq!(bin(f(*v), &g).unwrap() as usize, i + 1);
    }
}

#[test]
fn serving_checks_every_column() {
    let values = fs(&[1.0, 2.0]);
    let grids = vec![grid(vec![1.5])];
    let prov = vec![AxisProvenance { raw: FeatureId(0), kind: AxisKind::Numeric }];
    let store = CatEncoderStore::new();
    let served = bin_serve_columns(
        &vec![NumericColumn { raw: FeatureId(0), values: &values }],
        &vec![],
        &grids,
        &prov,
        &store,
    )
    .unwrap();
    assert_eq!(served.0.data, vec![vec![1, 2]]);
    assert!(bin_serve_columns(
        &vec![NumericColumn { raw: FeatureId(3), values: &values }],
        &vec![],
        &grids,
        &prov,
        &store,
    )
    .is_err());
}

#[test]
fn positive_exposures_are_accepted() {
    check_exposure(&fs(&[1.0, std::f32::consts::E, f32::MIN_POSITIVE, f32::MAX]), 4).unwrap();
    check_exposure(&fs(&[]), 0).unwrap();
    assert!(check_exposure(&fs(&[1.0, f32::INFINITY]), 2).is_err());
}

#[test]
fn non_positive_or_nonfinite_exposure_errors() {
    assert!(matches!(
        check_exposure(&fs(&[1.0, 0.0]), 2),
        Err(PbError::InvalidInput { .. })
    ));
    assert!(matches!(
        check_exposure(&fs(&[1.0, -2.0]), 2),
        Err(PbError::InvalidInput { .. })
    ));
    assert!(matches!(
        check_exposure(&fs(&[1.0, f32::NAN]), 2),
        Err(PbError::InvalidInput { .. })
    ));
}

#[test]
fn length_mismatch_errors() {
    assert!(matches!(
        check_exposure(&fs(&[1.0, 2.0]), 3),
        Err(PbError::ShapeMismatch { .. })
    ));
}

#[test]
fn target_of_a_log_fit_is_checked_by_row() {
    let y = fs(&[1.0, 0.0]);
    let w = fs(&[1.0, 1.0]);
    assert!(check_row_terms(&y, &w, None, CatTarget::Mean).is_ok());
    match check_row_terms(&y, &w, None, CatTarget::LogMean) {
        Err(PbError::InvalidInput { what }) => {
            assert_eq!(what, "cat_target='log_mean' requires y[1] > 0, got 0")
        }
        _ => panic!("expected a refused row"),
    }
}

#[test]
fn planned_grids_never_pass_the_bin_budget() {
    let col: Vec<f32> = (0..400).map(|i| i as f32 * 0.25).collect();
    for max_bin in [2u8, 3, 16, 254] {
        let c = cfg(max_bin, 1000);
        let cuts = quantile_cuts(&c);
        assert_eq!(cuts, (1..max_bin).collect::<Vec<u8>>());
        let g = build_grid(&col, None, &c, 7, FeatureId(0)).unwrap();
        assert!(g.n_bins <= u16::from(max_bin) + 1);
        assert_eq!(usize::from(g.n_bins), g.borders.len() + 2);
    }
    let few = build_grid(&[1.0, 2.0, 3.0], None, &cfg(16, 1000), 0, FeatureId(0)).unwrap();
    assert_eq!(un(&few.borders), vec![1.5, 2.5]);
    let none = build_grid(&[f32::NAN; 3], None, &cfg(16, 1000), 0, FeatureId(0)).unwrap();
    assert!(none.borders.is_empty());
}
