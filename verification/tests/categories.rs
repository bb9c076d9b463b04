use tri_boost_core::cat::fisher::{assign_fisher_bins, level_order};
use tri_boost_core::cat::leakage::{
    cross_fit_plan, leave_one_out_plan, ordered_plan, TallyPlan, TallyStep,
};
use tri_boost_core::cat::fit::{
    check_base_rate, check_base_weight, check_fit, check_row_terms, check_shrinkage,
    collapse_rare_levels, kfold_of_rows, members_of, row_order,
};
use tri_boost_core::cat::{
    CatEncoder, CatEncoderStore, CatLevel, CatTarget, LeakageScheme, Smooth, TsConfig, TsEncodingId,
};
use tri_boost_core::data::{BorderGrid, FeatureId};
use tri_boost_core::error::PbError;
use tri_boost_core::float::{F32, F64};
use tri_boost_core::labels::{intern_levels, label_less, label_order, leaders};

const RARE_LEVEL_LABEL: &str = "__tri_boost_rare__";

fn f(v: f32) -> F32 {
    F32::from_bits(v.to_bits())
}

fn d(v: f64) -> F64 {
    F64::from_bits(v.to_bits())
}

fn u(v: F32) -> f32 {
    f32::from_bits(v.bits)
}

fn fs(v: &[f32]) -> Vec<F32> {
    v.iter().map(|&x| f(x)).collect()
}

fn texts(v: &[&str]) -> Vec<String> {
    v.iter().map(|s| s.to_string()).collect()
}

#[derive(Clone, Copy, Default)]
struct Term {
    sum_y: f64,
    denom: f64,
}

fn shrunken_encoding(sum_wy: f64, sum_w: f64, base: f32, smooth: Smooth) -> Result<f32, PbError> {
    let m = f64::from(u(check_shrinkage(d(sum_wy), d(sum_w), f(base), smooth)?));
    Ok(((sum_wy + m * f64::from(base)) / (sum_w + m)) as f32)
}

fn exposure_weighted_base_rate(y: &[f32], w: &[f32], e: Option<&[f32]>) -> Result<f32, PbError> {
    let ex = e.map(fs);
    check_base_rate(&fs(y), &fs(w), ex.as_ref())?;
    let mut top = 0.0_f64;
    let mut bottom = 0.0_f64;
    for i in 0..y.len() {
        top += f64::from(w[i]) * f64::from(y[i]);
        bottom += f64::from(w[i]) * e.map_or(1.0, |e| f64::from(e[i]));
    }
    Ok((top / bottom) as f32)
}

fn sums(ids: &[u32], n: usize, terms: &[Term]) -> Vec<Term> {
    let mut out = vec![Term::default(); n];
    for (i, &id) in ids.iter().enumerate() {
        out[id as usize].sum_y += terms[i].sum_y;
        out[id as usize].denom += terms[i].denom;
    }
    out
}

fn auto_strength(ids: &[u32], n: usize, terms: &[Term], base: f32) -> f32 {
    let agg = sums(ids, n, terms);
    let total: f64 = agg.iter().map(|t| t.denom).sum();
    let mean = |t: &Term| t.sum_y / t.denom;
    let between: f64 = agg
        .iter()
        .map(|t| t.denom * (mean(t) - f64::from(base)).powi(2))
        .sum::<f64>()
        / total;
    let within: f64 = ids
        .iter()
        .zip(terms)
        .map(|(&id, t)| t.denom * (mean(t) - mean(&agg[id as usize])).powi(2))
        .sum::<f64>()
        / total;
    if between <= 1.0e-12 {
        if within <= 1.0e-12 {
            0.0
        } else {
            1_000_000.0
        }
    } else {
        (within / between).min(1_000_000.0) as f32
    }
}

/// Follows a plan, keeping the sums.
fn run_plan(
    plan: &TallyPlan,
    n_ids: usize,
    terms: &[Term],
    base: f32,
    smooth: Smooth,
) -> Result<Vec<f32>, PbError> {
    let mut levels = vec![Term::default(); n_ids];
    let mut cells = vec![Term::default(); plan.n_cells];
    let mut out = vec![0.0; terms.len()];
    for step in &plan.steps {
        match *step {
            TallyStep::Add { row, level, cell } => {
                levels[level].sum_y += terms[row].sum_y;
                levels[level].denom += terms[row].denom;
                if let Some(c) = cell {
                    cells[c].sum_y += terms[row].sum_y;
                    cells[c].denom += terms[row].denom;
                }
            }
            TallyStep::Encode { row, level, cell } => {
                let own = cell.map_or(Term::default(), |c| cells[c]);
                let seen = levels[level];
                let (sum_y, denom) = (seen.sum_y - own.sum_y, seen.denom - own.denom);
                out[row] = if denom > 0.0 {
                    shrunken_encoding(sum_y, denom, base, smooth)?
                } else {
                    base
                };
            }
        }
    }
    Ok(out)
}

fn loo_encodings(ids: &[u32], n: usize, terms: &[Term], base: f32, smooth: Smooth) -> Vec<f32> {
    run_plan(&leave_one_out_plan(&ids[..terms.len()].to_vec()), n, terms, base, smooth).unwrap()
}

/// A fitted encoder and the training encodings: the library decides pooling,
/// folds, orders and bins, floats form the sums.
fn fit_cat_encoder(
    levels: &Vec<String>,
    y: &[f32],
    raw: u32,
    weight: Option<&[f32]>,
    config: &TsConfig,
    seed: u64,
) -> Result<(CatEncoder, Vec<f32>), PbError> {
    check_fit(config, levels.len(), y.len(), weight.map(|w| w.len()))?;
    let w: Vec<f32> = weight.map_or(vec![1.0; y.len()], |w| w.to_vec());
    check_row_terms(&fs(y), &fs(&w), None, config.target)?;
    let terms: Vec<Term> = (0..y.len())
        .map(|i| {
            let wi = f64::from(w[i]);
            let yi = f64::from(y[i]);
            match config.target {
                CatTarget::Mean => Term { sum_y: wi * yi, denom: wi },
                CatTarget::LogMean => Term { sum_y: wi * yi.ln(), denom: wi },
            }
        })
        .collect();
    let (raw_ids, names) = intern_levels(levels)?;
    let masses: Vec<F64> = sums(&raw_ids, names.len(), &terms).iter().map(|t| d(t.denom)).collect();
    let min = d(f64::from(u(config.min_data_per_group)));
    let pooled = collapse_rare_levels(levels, &raw_ids, &names, &masses, min)?;
    let (ids, labels) = intern_levels(&pooled.labels)?;
    check_base_weight(&fs(&w), config.target)?;
    let total_y: f64 = terms.iter().map(|t| t.sum_y).sum();
    let total_w: f64 = terms.iter().map(|t| t.denom).sum();
    let base = (total_y / total_w) as f32;
    let smooth = match config.smooth {
        Smooth::Fixed { m } => Smooth::Fixed { m },
        Smooth::Auto => Smooth::Fixed { m: f(auto_strength(&ids, labels.len(), &terms, base)) },
    };
    let agg = sums(&ids, labels.len(), &terms);
    let mut out = Vec::new();
    for (i, label) in labels.iter().enumerate() {
        out.push(CatLevel {
            label: label.clone(),
            members: members_of(label, &pooled.rare),
            encoding: f(shrunken_encoding(agg[i].sum_y, agg[i].denom, base, smooth)?),
            bin: 0,
            weight: f(agg[i].denom as f32),
        });
    }
    let train = match config.leakage {
        LeakageScheme::LeaveOneOut => {
            let plan = leave_one_out_plan(&ids);
            run_plan(&plan, labels.len(), &terms, base, smooth)?
        }
        LeakageScheme::KFold { k } => {
            let plan = cross_fit_plan(&ids, labels.len(), seed, k)?;
            run_plan(&plan, labels.len(), &terms, base, smooth)?
        }
        LeakageScheme::Ordered { n_perms } => {
            let mut acc = vec![0.0_f64; ids.len()];
            for perm in 0..n_perms {
                let plan = ordered_plan(&ids, seed, n_perms, perm)?;
                let one = run_plan(&plan, labels.len(), &terms, base, smooth)?;
                acc.iter_mut().zip(one).for_each(|(a, e)| *a += f64::from(e));
            }
            let scale = 1.0 / f64::from(n_perms);
            acc.iter().map(|v| (v * scale) as f32).collect()
        }
    };
    let encoder = CatEncoder {
        raw: FeatureId(raw),
        id: TsEncodingId(0),
        levels: assign_fisher_bins(&out)?,
        base: f(base),
        config: TsConfig { smooth, ..*config },
    };
    Ok((encoder, train))
}

fn border_grid(enc: &CatEncoder) -> Result<BorderGrid, PbError> {
    let at: Vec<f32> = enc.ordered_encodings().iter().map(|&e| u(e)).collect();
    let mids: Vec<F32> = at
        .windows(2)
        .map(|p| f(((f64::from(p[0]) + f64::from(p[1])) / 2.0) as f32))
        .collect();
    enc.border_grid(&mids)
}

fn labels_of(enc: &CatEncoder) -> Vec<&str> {
    enc.levels.iter().map(|l| l.label.as_str()).collect()
}

fn bins_of(enc: &CatEncoder) -> Vec<u8> {
    enc.levels.iter().map(|l| l.bin).collect()
}

fn level(label: &str, encoding: f32, bin: u8) -> CatLevel {
    CatLevel {
        label: label.into(),
        members: vec![label.into()],
        encoding: f(encoding),
        bin,
        weight: f(10.0),
    }
}

fn encoder(id: u8, raw: u32, label: &str) -> CatEncoder {
    CatEncoder {
        raw: FeatureId(raw),
        id: TsEncodingId(id),
        levels: vec![level(label, 1.25, 1)],
        base: f(0.5),
        config: TsConfig::default(),
    }
}

fn kfold_config(k: u32, m: f32) -> TsConfig {
    TsConfig {
        leakage: LeakageScheme::KFold { k },
        smooth: Smooth::Fixed { m: f(m) },
        min_data_per_group: f(0.0),
        ..TsConfig::default()
    }
}

#[test]
fn store_lookup_is_total_and_raw_aware() {
    let store = CatEncoderStore::from_encoders(vec![encoder(0, 1, "a"), encoder(0, 2, "b")]);
    assert_eq!(store.len(), 2);
    assert_eq!(
        store.get(TsEncodingId(0), FeatureId(1)).unwrap().levels[0].label,
        "a"
    );
    assert_eq!(
        store.get(TsEncodingId(0), FeatureId(2)).unwrap().levels[0].label,
        "b"
    );
    assert!(matches!(
        store.get(TsEncodingId(1), FeatureId(1)),
        Err(PbError::Internal { .. })
    ));
    assert!(!store.is_empty());
    assert!(CatEncoderStore::new().is_empty());
    assert_eq!(store.encoders()[1].raw, FeatureId(2));
}

#[test]
fn ts_config_validates_fail_closed() {
    assert!(TsConfig::default().validate().is_ok());
    assert!(matches!(
        TsConfig {
            leakage: LeakageScheme::Ordered { n_perms: 0 },
            ..TsConfig::default()
        }
        .validate(),
        Err(PbError::InvalidConfig { .. })
    ));
    assert!(matches!(
        TsConfig {
            leakage: LeakageScheme::KFold { k: 1 },
            ..TsConfig::default()
        }
        .validate(),
        Err(PbError::InvalidConfig { .. })
    ));
    assert!(matches!(
        TsConfig {
            smooth: Smooth::Fixed { m: f(f32::NAN) },
            ..TsConfig::default()
        }
        .validate(),
        Err(PbError::InvalidConfig { .. })
    ));
}

#[test]
fn ts_config_refuses_each_bad_knob() {
    let bad = [
        TsConfig { target_borders: 0, ..TsConfig::default() },
        TsConfig { min_data_per_group: f(-1.0), ..TsConfig::default() },
        TsConfig { min_data_per_group: f(f32::INFINITY), ..TsConfig::default() },
        TsConfig { smooth: Smooth::Fixed { m: f(-0.5) }, ..TsConfig::default() },
    ];
    for c in bad {
        assert!(matches!(c.validate(), Err(PbError::InvalidConfig { .. })));
    }
    match (TsConfig { leakage: LeakageScheme::KFold { k: 1 }, ..TsConfig::default() }).validate() {
        Err(e) => assert_eq!(
            e.message(),
            "invalid config: KFold target statistics require k >= 2, got 1"
        ),
        Ok(()) => panic!("one fold is refused"),
    }
    let ok = TsConfig { leakage: LeakageScheme::LeaveOneOut, smooth: Smooth::Auto, ..TsConfig::default() };
    assert!(ok.validate().is_ok());
}

#[test]
fn base_rate_matches_exposure_weighted_closed_form() {
    let y = [2.0_f32, 8.0, 10.0];
    let w = [1.0_f32, 2.0, 1.0];
    let e = [1.0_f32, 2.0, 4.0];
    let got = exposure_weighted_base_rate(&y, &w, Some(&e)).unwrap();
    let want = (1.0 * 2.0 + 2.0 * 8.0 + 1.0 * 10.0) / (1.0 * 1.0 + 2.0 * 2.0 + 1.0 * 4.0);
    assert!((got - want).abs() < 1e-6);
    assert!(matches!(
        exposure_weighted_base_rate(&y, &[0.0, 0.0, 0.0], None),
        Err(PbError::InvalidInput { .. })
    ));
}

#[test]
fn base_rate_refuses_each_bad_row() {
    let good = fs(&[1.0, 2.0]);
    assert!(matches!(
        check_base_rate(&good, &fs(&[1.0]), None),
        Err(PbError::ShapeMismatch { .. })
    ));
    assert!(matches!(
        check_base_rate(&good, &good, Some(&fs(&[1.0]))),
        Err(PbError::ShapeMismatch { .. })
    ));
    assert!(matches!(
        check_base_rate(&fs(&[1.0, f32::NAN]), &good, None),
        Err(PbError::InvalidInput { .. })
    ));
    assert!(matches!(
        check_base_rate(&good, &fs(&[1.0, -1.0]), None),
        Err(PbError::InvalidInput { .. })
    ));
    assert!(matches!(
        check_base_rate(&good, &good, Some(&fs(&[1.0, 0.0]))),
        Err(PbError::InvalidInput { .. })
    ));
    assert!(check_base_rate(&good, &fs(&[0.0, 1.0]), None).is_ok());
}

#[test]
fn base_value_needs_weight() {
    assert!(check_base_weight(&fs(&[0.0, 2.0]), CatTarget::Mean).is_ok());
    assert!(matches!(
        check_base_weight(&fs(&[0.0, 0.0]), CatTarget::Mean),
        Err(PbError::InvalidInput { .. })
    ));
    assert!(matches!(
        check_base_weight(&fs(&[]), CatTarget::LogMean),
        Err(PbError::InvalidInput { .. })
    ));
}

#[test]
fn shrinkage_matches_closed_form_and_auto_fails_closed() {
    let got = shrunken_encoding(30.0, 3.0, 5.0, Smooth::Fixed { m: f(2.0) }).unwrap();
    let want = (30.0 + 2.0 * 5.0) / (3.0 + 2.0);
    assert!((got - want).abs() < 1e-6);
    assert_eq!(
        shrunken_encoding(0.0, 0.0, 7.0, Smooth::Fixed { m: f(4.0) }).unwrap(),
        7.0
    );
    assert!(matches!(
        shrunken_encoding(1.0, 1.0, 0.0, Smooth::Auto),
        Err(PbError::InvalidConfig { .. })
    ));
}

#[test]
fn shrinkage_refuses_each_bad_input() {
    let fixed = |m: f32| Smooth::Fixed { m: f(m) };
    assert!(matches!(
        check_shrinkage(d(f64::NAN), d(1.0), f(0.0), fixed(1.0)),
        Err(PbError::InvalidInput { .. })
    ));
    assert!(matches!(
        check_shrinkage(d(1.0), d(-1.0), f(0.0), fixed(1.0)),
        Err(PbError::InvalidInput { .. })
    ));
    assert!(matches!(
        check_shrinkage(d(1.0), d(1.0), f(f32::INFINITY), fixed(1.0)),
        Err(PbError::InvalidInput { .. })
    ));
    assert!(matches!(
        check_shrinkage(d(1.0), d(1.0), f(0.0), fixed(-1.0)),
        Err(PbError::InvalidConfig { .. })
    ));
    assert!(matches!(
        check_shrinkage(d(1.0), d(0.0), f(0.0), fixed(0.0)),
        Err(PbError::InvalidInput { .. })
    ));
    assert_eq!(check_shrinkage(d(1.0), d(0.0), f(0.0), fixed(3.5)).unwrap(), f(3.5));
}

#[test]
fn smooth_auto_resolves_to_closed_form_variance_ratio() {
    let levels = texts(&["a", "a", "b", "b"]);
    let y = [0.0_f32, 2.0, 4.0, 8.0];
    let cfg = TsConfig {
        leakage: LeakageScheme::KFold { k: 2 },
        smooth: Smooth::Auto,
        min_data_per_group: f(0.0),
        ..TsConfig::default()
    };
    let (enc, train) = fit_cat_encoder(&levels, &y, 5, None, &cfg, 3).unwrap();
    assert!(train.iter().all(|v| v.is_finite()));
    let resolved_m = match enc.config.smooth {
        Smooth::Fixed { m } => u(m),
        Smooth::Auto => f32::NAN,
    };
    assert!((resolved_m - 0.4).abs() < 1e-6);
    assert!((u(enc.encode_label("a")) - (2.0 + 0.4 * 3.5) / 2.4).abs() < 1e-6);
    assert!((u(enc.encode_label("b")) - (12.0 + 0.4 * 3.5) / 2.4).abs() < 1e-6);
}

#[test]
fn fit_cat_encoder_is_deterministic_and_freezes_full_data_map() {
    let levels = texts(&["b", "a", "b", "c", "a", "c"]);
    let y = [2.0_f32, 1.0, 4.0, 8.0, 3.0, 10.0];
    let cfg = TsConfig {
        leakage: LeakageScheme::Ordered { n_perms: 3 },
        smooth: Smooth::Fixed { m: f(2.0) },
        min_data_per_group: f(0.0),
        ..TsConfig::default()
    };
    let (enc_a, train_a) = fit_cat_encoder(&levels, &y, 2, None, &cfg, 99).unwrap();
    let (enc_b, train_b) = fit_cat_encoder(&levels, &y, 2, None, &cfg, 99).unwrap();
    assert_eq!(enc_a, enc_b);
    assert_eq!(train_a, train_b);
    assert_eq!(u(enc_a.base), y.iter().sum::<f32>() / y.len() as f32);
    assert_eq!(labels_of(&enc_a), vec!["a", "b", "c"]);
    assert_eq!(bins_of(&enc_a), vec![1, 2, 3]);
    assert_eq!(enc_a.encode_label("unseen"), enc_a.base);
    assert!(train_a.iter().all(|v| v.is_finite()));
}

#[test]
fn log_mean_target_encodes_positive_targets_on_log_scale() {
    let levels = texts(&["low", "low", "high", "high"]);
    let y = [2.0_f32, 8.0, 20.0, 80.0];
    let weight = [1.0_f32, 3.0, 2.0, 2.0];
    let cfg = TsConfig {
        target: CatTarget::LogMean,
        ..kfold_config(2, 0.0)
    };
    let (enc, train) = fit_cat_encoder(&levels, &y, 2, Some(&weight), &cfg, 99).unwrap();
    let low = (2.0_f32.ln() + 3.0 * 8.0_f32.ln()) / 4.0;
    let high = (2.0 * 20.0_f32.ln() + 2.0 * 80.0_f32.ln()) / 4.0;
    assert!((u(enc.encode_label("low")) - low).abs() < 1e-6);
    assert!((u(enc.encode_label("high")) - high).abs() < 1e-6);
    assert_eq!(enc.config.target, CatTarget::LogMean);
    assert!(train.iter().all(|v| v.is_finite()));
}

#[test]
fn log_mean_target_rejects_non_positive_targets() {
    let levels = texts(&["a", "b"]);
    let y = [1.0_f32, 0.0];
    let cfg = TsConfig {
        target: CatTarget::LogMean,
        ..TsConfig::default()
    };
    assert!(matches!(
        fit_cat_encoder(&levels, &y, 2, None, &cfg, 99),
        Err(PbError::InvalidInput { .. })
    ));
}

#[test]
fn full_data_encoder_uses_fisher_sorted_ordinal_order() {
    let levels = texts(&["z", "a", "m", "z", "a", "m"]);
    let y = [30.0_f32, 1.0, 10.0, 40.0, 2.0, 12.0];
    let (enc, _) = fit_cat_encoder(&levels, &y, 7, None, &kfold_config(2, 0.0), 4).unwrap();
    assert_eq!(labels_of(&enc), vec!["a", "m", "z"]);
    assert_eq!(u(enc.encode_label("a")), 1.5);
    assert_eq!(u(enc.encode_label("m")), 11.0);
    assert_eq!(u(enc.encode_label("z")), 35.0);
    assert_eq!(bins_of(&enc), vec![1, 2, 3]);
}

#[test]
fn rare_levels_collapse_before_fisher_ordering_but_unseen_uses_base() {
    let levels = texts(&["rare_a", "common", "common", "rare_b", "common"]);
    let y = [100.0_f32, 1.0, 3.0, 200.0, 5.0];
    let cfg = TsConfig {
        min_data_per_group: f(2.0),
        ..kfold_config(2, 0.0)
    };
    let (enc, train) = fit_cat_encoder(&levels, &y, 8, None, &cfg, 5).unwrap();
    assert_eq!(labels_of(&enc), vec!["common", RARE_LEVEL_LABEL]);
    let rare = enc
        .levels
        .iter()
        .find(|level| level.label == RARE_LEVEL_LABEL)
        .unwrap();
    assert_eq!(
        rare.members,
        vec!["rare_a".to_string(), "rare_b".to_string()]
    );
    assert_eq!(enc.encode_label("rare_a"), rare.encoding);
    assert_eq!(enc.encode_label("rare_b"), rare.encoding);
    assert_eq!(enc.encode_label("brand_new"), enc.base);
    assert_eq!(train.len(), levels.len());
    assert!(train.iter().all(|v| v.is_finite()));
}

#[test]
fn high_cardinality_levels_share_the_254_bin_budget() {
    let n = 300usize;
    let levels = (0..n).map(|i| format!("l{i:03}")).collect::<Vec<_>>();
    let y = (0..n).map(|i| i as f32).collect::<Vec<_>>();
    let (enc, _) = fit_cat_encoder(&levels, &y, 3, None, &kfold_config(5, 0.0), 10).unwrap();
    assert_eq!(enc.levels.len(), n);
    assert_eq!(enc.levels.first().unwrap().bin, 1);
    assert_eq!(enc.levels.last().unwrap().bin, 254);
    assert!(enc.levels.windows(2).all(|w| w[0].bin <= w[1].bin));
}

#[test]
fn tied_encodings_share_bins_and_reconstruct_a_grid() {
    let levels = texts(&["b", "a", "d", "c"]);
    let y = [1.0_f32, 1.0, 1.0, 1.0];
    let (enc, _) = fit_cat_encoder(&levels, &y, 9, None, &kfold_config(2, 0.0), 1).unwrap();
    assert!(enc.levels.iter().all(|level| level.bin == 1));
    let grid = border_grid(&enc).unwrap();
    assert!(grid.borders.is_empty());
    assert_eq!(grid.n_bins, 2);
}

#[test]
fn kfold_training_encoding_does_not_consult_own_target() {
    let levels = vec!["a".to_string(); 30];
    let y = (0..30).map(|i| i as f32).collect::<Vec<_>>();
    let cfg = TsConfig {
        leakage: LeakageScheme::KFold { k: 5 },
        smooth: Smooth::Fixed { m: f(0.0) },
        ..TsConfig::default()
    };
    let (_, train_a) = fit_cat_encoder(&levels, &y, 0, None, &cfg, 123).unwrap();
    let mut changed = y.clone();
    changed[0] += 10_000.0;
    let (_, train_b) = fit_cat_encoder(&levels, &changed, 0, None, &cfg, 123).unwrap();
    assert_eq!(train_a[0], train_b[0]);
}

#[test]
fn leave_one_out_excludes_each_rows_own_target() {
    let none = Smooth::Fixed { m: f(0.0) };
    let (ids, names) = intern_levels(&texts(&["a", "a"])).unwrap();
    let terms = [Term { sum_y: 1.0, denom: 1.0 }, Term { sum_y: 3.0, denom: 1.0 }];
    let enc = loo_encodings(&ids, names.len(), &terms, 2.0, none);
    assert!((enc[0] - 3.0).abs() < 1e-6, "row 0 sees only row 1's target");
    assert!((enc[1] - 1.0).abs() < 1e-6, "row 1 sees only row 0's target");
    let (ids, names) = intern_levels(&texts(&["b"])).unwrap();
    let solo = loo_encodings(&ids, names.len(), &[Term { sum_y: 5.0, denom: 1.0 }], 2.0, none);
    assert!((solo[0] - 2.0).abs() < 1e-6, "a singleton falls back to the base");
}

#[test]
fn default_leakage_scheme_is_kfold() {
    assert!(matches!(
        LeakageScheme::default(),
        LeakageScheme::KFold { k: 5 }
    ));
}

#[test]
fn lookup_table_agrees_with_the_scan() {
    let mut enc = encoder(0, 0, "a");
    enc.levels.push(CatLevel {
        label: RARE_LEVEL_LABEL.into(),
        members: texts(&["x", "y"]),
        encoding: f(9.0),
        bin: 2,
        weight: f(3.0),
    });
    let asked = texts(&["a", "x", "y", "nobody", RARE_LEVEL_LABEL]);
    let map = enc.encoding_map();
    for label in &asked {
        let scanned = enc.encode_label(label);
        assert_eq!(map.get(label).unwrap_or(enc.base), scanned);
    }
    assert_eq!(map.get("nobody"), None);
    assert_eq!(
        enc.serve_labels(&asked).iter().map(|&e| u(e)).collect::<Vec<f32>>(),
        vec![1.25, 9.0, 9.0, 0.5, 9.0]
    );
}

#[test]
fn border_grid_places_borders_between_bins() {
    let mut enc = encoder(0, 0, "a");
    enc.levels = vec![level("c", 5.0, 2), level("a", 1.0, 1), level("b", 3.0, 2), level("z", 7.0, 3)];
    let g = border_grid(&enc).unwrap();
    assert_eq!(g.borders.iter().map(|&b| u(b)).collect::<Vec<f32>>(), vec![2.0, 6.0]);
    assert_eq!(g.n_bins, 4);
    assert_eq!(g.missing_bin, 0);
    assert_eq!(level_order(&enc.levels), vec![1, 2, 0, 3]);
}

#[test]
fn border_grid_refuses_each_inconsistency() {
    let with = |levels: Vec<CatLevel>| {
        let mut enc = encoder(0, 0, "a");
        enc.levels = levels;
        border_grid(&enc)
    };
    // A level in the bin of missing values.
    assert!(matches!(with(vec![level("a", 1.0, 0)]), Err(PbError::InvalidInput { .. })));
    // Bins that fall while encodings rise.
    assert!(matches!(
        with(vec![level("a", 1.0, 2), level("b", 2.0, 1)]),
        Err(PbError::InvalidInput { .. })
    ));
    // Equal encodings in two bins.
    assert!(matches!(
        with(vec![level("a", 1.0, 1), level("b", 1.0, 2)]),
        Err(PbError::InvalidInput { .. })
    ));
    // An encoding that is no number.
    match with(vec![level("bad", f32::NAN, 1)]) {
        Err(PbError::InvalidInput { what }) => assert_eq!(
            what,
            "categorical encoder FeatureId(0)/TsEncodingId(0) has non-finite encoding for `bad`"
        ),
        _ => panic!("expected an input error"),
    }
    assert!(matches!(
        assign_fisher_bins(&vec![level("bad", f32::INFINITY, 1)]),
        Err(PbError::InvalidInput { .. })
    ));
}

#[test]
fn pooling_needs_the_reserved_label_free() {
    let levels = texts(&[RARE_LEVEL_LABEL, "b"]);
    let (ids, names) = intern_levels(&levels).unwrap();
    let masses = vec![d(1.0), d(1.0)];
    assert!(matches!(
        collapse_rare_levels(&levels, &ids, &names, &masses, d(2.0)),
        Err(PbError::InvalidInput { .. })
    ));
    let kept = collapse_rare_levels(&levels, &ids, &names, &masses, d(0.0)).unwrap();
    assert_eq!(kept.labels, levels);
    assert!(kept.rare.is_empty());
    assert_eq!(members_of("b", &kept.rare), texts(&["b"]));
}

#[test]
fn labels_are_numbered_as_first_seen_and_ordered_by_code_points() {
    let levels = texts(&["b", "a", "b", "ab", ""]);
    let (ids, names) = intern_levels(&levels).unwrap();
    assert_eq!(ids, vec![0, 1, 0, 2, 3]);
    assert_eq!(names, texts(&["b", "a", "ab", ""]));
    assert_eq!(label_order(&names), vec![3, 1, 2, 0]);
    assert_eq!(leaders(&levels), vec![0, 1, 0, 3, 4]);
    assert!(label_less("a", "ab"));
    assert!(!label_less("b", "ab"));
    assert!(!label_less("a", "a"));
}

#[test]
fn no_row_sees_its_own_term() {
    let ids: Vec<u32> = (0..40).map(|i| i % 3).collect();
    let terms = |own: f64, r: usize| -> Vec<Term> {
        (0..40)
            .map(|i| Term { sum_y: if i == r { own } else { i as f64 }, denom: 1.0 })
            .collect()
    };
    let smooth = Smooth::Fixed { m: f(1.0) };
    let plans = [
        cross_fit_plan(&ids, 3, 11, 4).unwrap(),
        leave_one_out_plan(&ids),
        ordered_plan(&ids, 11, 1, 0).unwrap(),
    ];
    for (p, plan) in plans.iter().enumerate() {
        for r in 0..40 {
            let a = run_plan(plan, 3, &terms(0.0, r), 0.5, smooth).unwrap();
            let b = run_plan(plan, 3, &terms(1000.0, r), 0.5, smooth).unwrap();
            assert_eq!(a[r], b[r]);
            // The last row of an order has nobody after it.
            assert!(p == 2 || a != b);
        }
    }
    // Folds of one level share a cell; the level's other folds do not.
    assert_eq!(plans[0].n_cells, 12);
    let folds = kfold_of_rows(11, 4, 40).unwrap();
    for (r, &fold) in folds.iter().enumerate() {
        let cell = fold as usize * 3 + ids[r] as usize;
        let level = ids[r] as usize;
        assert_eq!(plans[0].steps[r], TallyStep::Add { row: r, level, cell: Some(cell) });
        assert_eq!(plans[0].steps[40 + r], TallyStep::Encode { row: r, level, cell: Some(cell) });
    }
    assert_eq!(plans[1].n_cells, 40);
    assert_eq!(plans[2].n_cells, 0);
    assert!(matches!(cross_fit_plan(&ids, 3, 11, 1), Err(PbError::InvalidConfig { .. })));
    assert!(matches!(ordered_plan(&ids, 11, 0, 0), Err(PbError::InvalidConfig { .. })));
}

#[test]
fn folds_and_orders_follow_the_seed() {
    let folds = kfold_of_rows(7, 3, 50).unwrap();
    assert!(folds.iter().all(|&x| x < 3));
    assert_eq!(folds, kfold_of_rows(7, 3, 50).unwrap());
    assert_ne!(folds, kfold_of_rows(8, 3, 50).unwrap());
    assert!(matches!(kfold_of_rows(7, 1, 5), Err(PbError::InvalidConfig { .. })));
    let order = row_order(7, 2, 0, 50).unwrap();
    let mut sorted = order.clone();
    sorted.sort_unstable();
    assert_eq!(sorted, (0..50).collect::<Vec<u32>>());
    assert_ne!(order, row_order(7, 2, 1, 50).unwrap());
    assert!(matches!(row_order(7, 0, 0, 5), Err(PbError::InvalidConfig { .. })));
}

#[test]
fn fit_refuses_unequal_lengths() {
    let c = TsConfig::default();
    assert!(matches!(check_fit(&c, 2, 3, None), Err(PbError::ShapeMismatch { .. })));
    assert!(matches!(check_fit(&c, 3, 3, Some(2)), Err(PbError::ShapeMismatch { .. })));
    assert!(check_fit(&c, 3, 3, Some(3)).is_ok());
    assert!(matches!(
        check_row_terms(&fs(&[1.0]), &fs(&[1.0]), Some(&fs(&[1.0, 2.0])), CatTarget::Mean),
        Err(PbError::ShapeMismatch { .. })
    ));
    assert!(matches!(
        check_row_terms(&fs(&[1.0]), &fs(&[f32::NAN]), None, CatTarget::Mean),
        Err(PbError::InvalidInput { .. })
    ));
    assert!(matches!(
        check_row_terms(&fs(&[1.0]), &fs(&[1.0]), Some(&fs(&[0.0])), CatTarget::Mean),
        Err(PbError::InvalidInput { .. })
    ));
}

#[test]
fn neighbouring_levels_have_a_border_between_them() {
    // Encodings two steps of the format apart, at several scales and across zero.
    for start in [1.0_f32, 0.1, -3.5, 1.0e-40, 7.0e30, -f32::from_bits(2)] {
        let next = |x: f32| {
            let bits = x.to_bits() as i32;
            let key = if bits < 0 { i32::MIN - bits } else { bits } + 2;
            f32::from_bits(if key < 0 { (i32::MIN - key) as u32 } else { key as u32 })
        };
        let (a, b) = (start, next(start));
        let c = next(b);
        let mut enc = encoder(0, 0, "a");
        enc.levels = vec![level("a", a, 1), level("b", b, 2), level("c", c, 3)];
        let g = border_grid(&enc).unwrap();
        let borders: Vec<f32> = g.borders.iter().map(|&x| u(x)).collect();
        assert_eq!(borders.len(), 2);
        assert!(a < borders[0] && borders[0] < b && b < borders[1] && borders[1] < c);
        assert_eq!(g.n_bins, 4);
    }
}

#[test]
fn refused_numbers_stand_in_the_messages() {
    let invalid = |r: Result<(), PbError>| match r {
        Err(PbError::InvalidInput { what }) => what,
        _ => panic!("expected an input error"),
    };
    let (one, two) = (fs(&[1.0]), fs(&[1.0, 1.0]));
    assert_eq!(
        invalid(check_base_rate(&fs(&[1.0, f32::NAN]), &two, None)),
        "categorical y[1] must be finite, got NaN"
    );
    assert_eq!(
        invalid(check_base_rate(&one, &fs(&[-1.5]), None)),
        "categorical weight[0] must be finite and >= 0, got -1.5"
    );
    assert_eq!(
        invalid(check_base_rate(&one, &one, Some(&fs(&[0.0])))),
        "categorical exposure[0] must be finite and > 0, got 0"
    );
    assert_eq!(
        invalid(check_row_terms(&fs(&[f32::INFINITY]), &fs(&[0.1]), None, CatTarget::Mean)),
        "invalid categorical row 0: y=inf, weight=0.1"
    );
    assert_eq!(
        invalid(check_row_terms(&one, &one, Some(&fs(&[-0.0])), CatTarget::Mean)),
        "categorical exposure[0] must be finite and > 0, got -0"
    );
    assert_eq!(
        invalid(check_row_terms(&fs(&[-2.5e-7]), &one, None, CatTarget::LogMean)),
        "cat_target='log_mean' requires y[0] > 0, got -0.00000025"
    );
    assert_eq!(
        invalid(check_shrinkage(d(0.1), d(-1.0e21), f(0.3), Smooth::Auto).map(|_| ())),
        "invalid categorical shrinkage inputs: sum_wy=0.1, sum_w=-1000000000000000000000, base=0.3"
    );
    let config = |r: Result<(), PbError>| match r {
        Err(PbError::InvalidConfig { what }) => what,
        _ => panic!("expected a configuration error"),
    };
    let m = Smooth::Fixed { m: f(-1.0) };
    assert_eq!(
        config(check_shrinkage(d(1.0), d(1.0), f(0.5), m).map(|_| ())),
        "Smooth::Fixed m must be finite and >= 0, got -1"
    );
    assert_eq!(
        config(TsConfig { smooth: m, ..TsConfig::default() }.validate()),
        "Smooth::Fixed m must be finite and >= 0, got -1"
    );
    let few = TsConfig { min_data_per_group: f(f32::NEG_INFINITY), ..TsConfig::default() };
    assert_eq!(config(few.validate()), "min_data_per_group must be finite and >= 0, got -inf");
}
