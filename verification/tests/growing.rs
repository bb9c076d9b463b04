use tri_boost_core::backend::{mix, Stage};
use tri_boost_core::constraints::{FeatureSet, MonoSign};
use tri_boost_core::data::{AxisKind, AxisProvenance, BinnedMatrix, BorderGrid, FeatureId};
use tri_boost_core::boosters::config::RefitSpec;
use tri_boost_core::data::bin::bin_columns;
use tri_boost_core::data::grid::{finish_grid, plan_grid, degenerate_grid, GridPlan};
use tri_boost_core::data::BinConfig;
use tri_boost_core::engine::progress::{FitPlan, FitProgress, Outcome, Step};
use tri_boost_core::engine::clamp::{Clamp, ClampStep};
use tri_boost_core::engine::grow::{
    data_bins, gather_memberships, level_signs, tree_memberships_for_rows, walk_row,
    GrowState,
};
use tri_boost_core::engine::hist::{
    accumulate_axis_quantized, accumulate_axis_quantized_sequential, add_axis_qhist, GradScale, Hist,
    QuantGradHess, ROW_PAR_MIN_ROWS,
};
use tri_boost_core::engine::level_hist::{build_quantized_histogram, subtract};
use tri_boost_core::engine::members::{member_values, tree_values};
use tri_boost_core::engine::quantize::{
    check_quantizable, half_rounds_up, largest_magnitude, row_blocks,
};
use tri_boost_core::engine::rows::gather_rows;
use tri_boost_core::engine::sibling::subtract_sibling_into;
use tri_boost_core::engine::split::{
    candidate_monotone_ok, counts_credible, noise_bits, projected_cells, scan_level,
    select_candidate, sums_credible, Candidate, ScanItem, Scored, Side,
};
use tri_boost_core::engine::subtracted::{build_subtracted_level, map_axes, plan_subtraction};
use tri_boost_core::engine::{low_bit, ObliviousTree, Split};
use tri_boost_core::error::{Invariant, PbError};
use tri_boost_core::float::{F32, F64};

/// Gradients are held in steps of this size, so that the sums are exact.
const STEP: f64 = 1.0 / 65536.0;

fn f(v: f32) -> F32 {
    F32::from_bits(v.to_bits())
}

fn d(v: f64) -> F64 {
    F64::from_bits(v.to_bits())
}

fn u(v: F32) -> f32 {
    f32::from_bits(v.bits)
}

fn leaves_of(v: [f32; 8]) -> [F32; 8] {
    v.map(f)
}

fn matrix(cols: Vec<Vec<u8>>, n_bins_each: &[u16]) -> BinnedMatrix {
    let n_rows = u32::try_from(cols.first().map_or(0, Vec::len)).unwrap();
    let grids = n_bins_each
        .iter()
        .map(|&nb| BorderGrid {
            borders: vec![f(0.0); usize::from(nb).saturating_sub(2)],
            n_bins: nb,
            missing_bin: 0,
        })
        .collect();
    let provenance = (0..u32::try_from(cols.len()).unwrap())
        .map(|i| AxisProvenance {
            raw: FeatureId(i),
            kind: AxisKind::Numeric,
        })
        .collect();
    BinnedMatrix {
        data: cols,
        n_rows,
        grids,
        provenance,
    }
}

/// Whole gradients, kept as they are.
fn whole(g: &[i32], h: &[i32]) -> QuantGradHess {
    QuantGradHess {
        g_q: g.to_vec(),
        h_q: h.to_vec(),
        scale: GradScale { g_scale: f(1.0), h_scale: f(1.0) },
    }
}

/// Fractional gradients, in steps.
fn stepped(g: &[f32], h: &[f32]) -> QuantGradHess {
    let q = |v: &f32| (f64::from(*v) / STEP).round() as i32;
    QuantGradHess {
        g_q: g.iter().map(q).collect(),
        h_q: h.iter().map(q).collect(),
        scale: GradScale { g_scale: f(65536.0), h_scale: f(65536.0) },
    }
}

fn build_hist(
    x: &BinnedMatrix,
    gh: &QuantGradHess,
    rows: &[u32],
    leaf_of_row: &[u8],
    n_leaves: usize,
    axes: &[u32],
) -> Result<Hist, PbError> {
    build_quantized_histogram(x, gh, &rows.to_vec(), &leaf_of_row.to_vec(), n_leaves, &axes.to_vec())
}

fn cell(hist: &Hist, leaf: usize, axis: usize, bin: usize) -> (i64, i64, u32) {
    let o = hist.offset(leaf, axis, bin).unwrap();
    (hist.g[o], hist.h[o], hist.count[o])
}

fn pooled<T: Send>(threads: usize, work: impl FnOnce() -> T + Send) -> T {
    rayon::ThreadPoolBuilder::new()
        .num_threads(threads)
        .build()
        .unwrap()
        .install(work)
}

#[test]
fn build_uses_uniform_stride_and_sums_per_axis_bin() {
    let cols = vec![vec![1u8, 2, 1, 2], vec![1u8, 1, 2, 3]];
    let x = matrix(cols, &[3, 4]);
    let gh = whole(&[1, 2, 3, 4], &[1, 1, 1, 1]);
    let rows: Vec<u32> = (0..4).collect();
    let hist = build_hist(&x, &gh, &rows, &[0; 4], 1, &[0, 1]).unwrap();
    assert_eq!(hist.shape(), (1, 2, 4));
    assert_eq!(cell(&hist, 0, 0, 1), (4, 2, 2));
    assert_eq!(cell(&hist, 0, 0, 2), (6, 2, 2));
    assert_eq!(cell(&hist, 0, 0, 0), (0, 0, 0));
    assert_eq!(cell(&hist, 0, 0, 3), (0, 0, 0));
    assert_eq!(cell(&hist, 0, 1, 1), (3, 2, 2));
    assert_eq!(cell(&hist, 0, 1, 2), (3, 1, 1));
    assert_eq!(cell(&hist, 0, 1, 3), (4, 1, 1));
}

#[test]
fn build_partitions_rows_by_leaf() {
    let x = matrix(vec![vec![1u8, 1, 1, 1]], &[3]);
    let gh = whole(&[1, 2, 3, 4], &[1, 1, 1, 1]);
    let rows: Vec<u32> = (0..4).collect();
    let hist = build_hist(&x, &gh, &rows, &[0, 0, 1, 1], 2, &[0]).unwrap();
    assert_eq!(cell(&hist, 0, 0, 1), (3, 2, 2));
    assert_eq!(cell(&hist, 1, 0, 1), (7, 2, 2));
}

fn fixture() -> (BinnedMatrix, QuantGradHess, Vec<u32>, Vec<u8>) {
    let n = 200usize;
    let c0: Vec<u8> = (0..n).map(|i| ((i % 5) + 1) as u8).collect();
    let c1: Vec<u8> = (0..n).map(|i| ((i % 9) + 1) as u8).collect();
    let c2: Vec<u8> = (0..n).map(|i| ((i * 7 % 11) + 1) as u8).collect();
    let x = matrix(vec![c0, c1, c2], &[6, 10, 12]);
    let g: Vec<i32> = (0..n).map(|i| (i as i32 % 13) - 6).collect();
    let h: Vec<i32> = (0..n).map(|i| 1 + (i as i32 % 3)).collect();
    let gh = whole(&g, &h);
    let rows: Vec<u32> = (0..n as u32).collect();
    let leaf_of_row: Vec<u8> = (0..n).map(|i| (i % 4) as u8).collect();
    (x, gh, rows, leaf_of_row)
}

#[test]
fn histogram_is_byte_identical_across_thread_counts() {
    let (x, gh, rows, leaf_of_row) = fixture();
    let run = |nt: usize| {
        pooled(nt, || build_hist(&x, &gh, &rows, &leaf_of_row, 4, &[0, 1, 2]).unwrap())
    };
    let h1 = run(1);
    assert_eq!(h1, run(2));
    assert_eq!(h1, run(8));
}

#[test]
fn row_parallel_histogram_is_byte_identical_across_thread_counts() {
    let n = ROW_PAR_MIN_ROWS + 1024;
    let c0: Vec<u8> = (0..n).map(|i| ((i % 13) + 1) as u8).collect();
    let c1: Vec<u8> = (0..n).map(|i| ((i * 7 % 17) + 1) as u8).collect();
    let x = matrix(vec![c0, c1], &[14, 18]);
    // Eighths and halves, in steps of an eighth.
    let g: Vec<i32> = (0..n).map(|i| (i % 19) as i32 - 9).collect();
    let h: Vec<i32> = (0..n).map(|i| 4 + 8 * (i % 5) as i32).collect();
    let gh = whole(&g, &h);
    let rows: Vec<u32> = (0..n as u32).collect();
    let leaf_of_row: Vec<u8> = (0..n).map(|i| (i % 4) as u8).collect();
    let run = |nt: usize| {
        pooled(nt, || build_hist(&x, &gh, &rows, &leaf_of_row, 4, &[0, 1]).unwrap())
    };
    let h1 = run(1);
    assert_eq!(h1, run(2));
    assert_eq!(h1, run(8));
    // The chunks of a long column add up to the whole of it.
    let direct =
        accumulate_axis_quantized_sequential(&x, &gh, &rows, 0, n, &leaf_of_row, 4, 0, 18).unwrap();
    let chunked = accumulate_axis_quantized(&x, &gh, &rows, &leaf_of_row, 4, 0, 18).unwrap();
    assert_eq!(direct, chunked);
}

#[test]
fn parts_of_an_axis_add_up() {
    let (x, gh, rows, leaf) = fixture();
    let mut low = accumulate_axis_quantized_sequential(&x, &gh, &rows, 0, 70, &leaf, 4, 1, 10).unwrap();
    let high = accumulate_axis_quantized_sequential(&x, &gh, &rows, 70, 200, &leaf, 4, 1, 10).unwrap();
    let all = accumulate_axis_quantized_sequential(&x, &gh, &rows, 0, 200, &leaf, 4, 1, 10).unwrap();
    add_axis_qhist(&mut low, &high).unwrap();
    assert_eq!(low, all);
    let short = accumulate_axis_quantized_sequential(&x, &gh, &rows, 0, 5, &leaf, 4, 0, 6).unwrap();
    assert!(add_axis_qhist(&mut low, &short).is_err());
}

#[test]
fn subtraction_matches_direct_right_for_well_conditioned_data() {
    let n = 600usize;
    let c0: Vec<u8> = (0..n).map(|i| u8::try_from(i % 5 + 1).unwrap()).collect();
    let c1: Vec<u8> = (0..n).map(|i| u8::try_from(i % 9 + 1).unwrap()).collect();
    let x = matrix(vec![c0, c1], &[6, 10]);
    let g: Vec<f32> = (0..n).map(|i| 0.1 * (i as f32) + 0.0333).collect();
    let h: Vec<f32> = (0..n).map(|i| 0.5 + 0.137 * (i % 7) as f32).collect();
    let gh = stepped(&g, &h);
    let all: Vec<u32> = (0..n as u32).collect();
    let one_leaf = vec![0u8; n];
    let parent = build_hist(&x, &gh, &all, &one_leaf, 1, &[0, 1]).unwrap();
    let k = n / 3;
    let left = build_hist(&x, &gh, &all[..k], &one_leaf, 1, &[0, 1]).unwrap();
    let right_direct = build_hist(&x, &gh, &all[k..], &one_leaf, 1, &[0, 1]).unwrap();
    let right_sub = subtract(&parent, &left).unwrap();
    // Whole sums leave no rounding: the two agree exactly.
    assert_eq!(right_sub, right_direct);
}

#[test]
fn assembly_layout_distinguishes_leaf_from_axis() {
    let c0 = vec![1u8, 1, 1, 1];
    let c1 = vec![2u8, 2, 2, 2];
    let x = matrix(vec![c0, c1], &[3, 3]);
    let gh = whole(&[10, 20, 100, 200], &[1, 1, 1, 1]);
    let rows: Vec<u32> = (0..4).collect();
    let hist = build_hist(&x, &gh, &rows, &[0, 0, 1, 1], 2, &[0, 1]).unwrap();
    assert_eq!(cell(&hist, 0, 0, 1), (30, 2, 2));
    assert_eq!(cell(&hist, 1, 0, 1), (300, 2, 2));
    assert_eq!(cell(&hist, 0, 1, 2), (30, 2, 2));
    assert_eq!(cell(&hist, 1, 1, 2), (300, 2, 2));
    assert_eq!(cell(&hist, 1, 0, 2), (0, 0, 0));
    assert_eq!(cell(&hist, 0, 1, 1), (0, 0, 0));
}

#[test]
fn subtraction_shape_mismatch_errors() {
    let a = Hist::try_zeros(1, 2, 3).unwrap();
    let b = Hist::try_zeros(2, 2, 3).unwrap();
    assert!(matches!(
        subtract(&a, &b),
        Err(PbError::ShapeMismatch { .. })
    ));
}

#[test]
fn oversized_hist_shapes_error_without_overflowing() {
    assert!(matches!(
        Hist::try_zeros(usize::MAX, 2, 2),
        Err(PbError::Internal { .. })
    ));
    let x = matrix(vec![Vec::new()], &[3]);
    let gh = whole(&[], &[]);
    assert!(matches!(
        build_hist(&x, &gh, &[], &[], usize::MAX, &[0]),
        Err(PbError::Internal { .. })
    ));
}

#[test]
fn malformed_hist_offset_overflow_returns_none() {
    let hist = Hist {
        n_leaves: usize::MAX,
        n_axes: usize::MAX,
        n_bins: usize::MAX,
        ..Hist::default()
    };
    assert_eq!(hist.offset(2, 0, 0), None);
}

#[test]
fn out_of_range_inputs_return_internal_not_panic() {
    let x = matrix(vec![vec![1u8, 1]], &[3]);
    let gh = whole(&[1, 2], &[1, 1]);
    let rows = [0u32, 1];
    assert!(matches!(
        build_hist(&x, &gh, &rows, &[0, 0], 1, &[5]),
        Err(PbError::Internal { .. })
    ));
    assert!(matches!(
        build_hist(&x, &gh, &rows, &[0, 3], 1, &[0]),
        Err(PbError::Internal { .. })
    ));
    let bad = matrix(vec![vec![5u8, 1]], &[3]);
    assert!(matches!(
        build_hist(&bad, &gh, &rows, &[0, 0], 1, &[0]),
        Err(PbError::Internal { .. })
    ));
    assert!(matches!(
        build_hist(&x, &gh, &[0, 9], &[0, 0], 1, &[0]),
        Err(PbError::Internal { .. })
    ));
}

#[test]
fn subtract_count_underflow_is_internal() {
    let parent = Hist::try_zeros(1, 1, 2).unwrap();
    let mut left = Hist::try_zeros(1, 1, 2).unwrap();
    left.count[0] = 5;
    assert!(matches!(
        subtract(&parent, &left),
        Err(PbError::Internal { .. })
    ));
}

#[test]
fn subtract_sibling_into_matches_hand_computed_larger_child() {
    let mut parent = Hist::try_zeros(2, 2, 3).unwrap();
    let mut child = Hist::try_zeros(4, 1, 3).unwrap();
    let set = |hh: &mut Hist, leaf: usize, axis: usize, bin: usize, g: i64, c: u32| {
        let o = hh.offset(leaf, axis, bin).unwrap();
        hh.g[o] = g;
        hh.h[o] = 10 * g;
        hh.count[o] = c;
    };
    set(&mut parent, 0, 1, 0, 10, 10);
    set(&mut parent, 0, 1, 1, 20, 20);
    set(&mut parent, 0, 1, 2, 30, 30);
    set(&mut parent, 1, 1, 0, 5, 5);
    set(&mut parent, 1, 1, 1, 15, 15);
    set(&mut parent, 1, 1, 2, 25, 25);
    set(&mut child, 0, 0, 0, 3, 3);
    set(&mut child, 0, 0, 1, 8, 8);
    set(&mut child, 0, 0, 2, 12, 12);
    set(&mut child, 1, 0, 0, 2, 2);
    set(&mut child, 1, 0, 1, 5, 5);
    set(&mut child, 1, 0, 2, 10, 10);
    subtract_sibling_into(&mut child, &parent, &vec![(0, 0, 2), (1, 1, 3)], &vec![1]).unwrap();
    let chk = |leaf: usize, bin: usize, g: i64, c: u32| {
        assert_eq!(cell(&child, leaf, 0, bin), (g, 10 * g, c), "leaf {leaf} bin {bin}");
    };
    chk(2, 0, 7, 7);
    chk(2, 1, 12, 12);
    chk(2, 2, 18, 18);
    chk(3, 0, 3, 3);
    chk(3, 1, 10, 10);
    chk(3, 2, 15, 15);
    chk(0, 0, 3, 3);
    chk(1, 2, 10, 10);
}

#[test]
fn subtract_sibling_into_count_underflow_is_internal() {
    let mut parent = Hist::try_zeros(1, 1, 1).unwrap();
    parent.count[0] = 2;
    let mut child = Hist::try_zeros(2, 1, 1).unwrap();
    let o = child.offset(0, 0, 0).unwrap();
    child.count[o] = 5;
    assert!(matches!(
        subtract_sibling_into(&mut child, &parent, &vec![(0, 0, 1)], &vec![0]),
        Err(PbError::Internal { .. })
    ));
}

#[test]
fn subtract_sibling_into_shape_mismatch_errors() {
    let parent = Hist::try_zeros(2, 1, 1).unwrap();
    let mut child = Hist::try_zeros(2, 1, 1).unwrap();
    assert!(matches!(
        subtract_sibling_into(&mut child, &parent, &vec![(0, 0, 1)], &vec![0]),
        Err(PbError::ShapeMismatch { .. })
    ));
    let parent2 = Hist::try_zeros(2, 2, 1).unwrap();
    let mut child2 = Hist::try_zeros(4, 2, 1).unwrap();
    assert!(matches!(
        subtract_sibling_into(&mut child2, &parent2, &vec![(0, 0, 2)], &vec![0]),
        Err(PbError::ShapeMismatch { .. })
    ));
}

#[test]
fn counts_are_bounded_by_rows_and_total_matches() {
    let (x, gh, rows, leaf_of_row) = fixture();
    let hist = build_hist(&x, &gh, &rows, &leaf_of_row, 4, &[0]).unwrap();
    let total: u64 = hist.count.iter().map(|&c| u64::from(c)).sum();
    assert_eq!(total, rows.len() as u64);
    assert!(hist
        .count
        .iter()
        .all(|&c| u64::from(c) <= u64::from(x.n_rows)));
}

/// Rounds gradients to whole steps; the library decides exact halves.
fn quantize(g: &[f32], h: &[f32], seed: u64, round: u32) -> Result<QuantGradHess, PbError> {
    let gs: Vec<F32> = g.iter().map(|&v| f(v)).collect();
    let hs: Vec<F32> = h.iter().map(|&v| f(v)).collect();
    check_quantizable(&gs, &hs)?;
    let scale = |v: &Vec<F32>| {
        let m = u(largest_magnitude(v));
        if m == 0.0 {
            1.0_f32
        } else {
            (16384.0 / f64::from(m)) as f32
        }
    };
    let (g_scale, h_scale) = (scale(&gs), scale(&hs));
    let one = |v: f32, s: f32, block: u32| {
        let scaled = f64::from(v) * f64::from(s);
        let floor = scaled.floor();
        let frac = scaled - floor;
        let up = frac > 0.5 || (frac == 0.5 && half_rounds_up(seed, round, block));
        (floor + if up { 1.0 } else { 0.0 }) as i32
    };
    let mut g_q = Vec::new();
    let mut h_q = Vec::new();
    for row in 0..g.len() {
        let (gb, hb) = row_blocks(row)?;
        g_q.push(one(g[row], g_scale, gb));
        h_q.push(one(h[row], h_scale, hb));
    }
    Ok(QuantGradHess {
        g_q,
        h_q,
        scale: GradScale { g_scale: f(g_scale), h_scale: f(h_scale) },
    })
}

#[test]
fn quantize_grad_hess_is_deterministic_and_half_step_bounded() {
    let g = [0.0_f32, 0.125, -0.75, 2.5, -3.25];
    let h = [1.0_f32, 0.5, 2.0, 4.0, 8.0];
    let q1 = quantize(&g, &h, 77, 3).unwrap();
    let q2 = quantize(&g, &h, 77, 3).unwrap();
    assert_eq!(q1, q2);
    let g_step = 1.0_f64 / f64::from(u(q1.scale.g_scale));
    let h_step = 1.0_f64 / f64::from(u(q1.scale.h_scale));
    for i in 0..g.len() {
        let dg = (f64::from(q1.g_q[i]) * g_step - f64::from(g[i])).abs();
        let dh = (f64::from(q1.h_q[i]) * h_step - f64::from(h[i])).abs();
        assert!(dg <= 0.5 * g_step + f64::EPSILON, "dg={dg}, step={g_step}");
        assert!(dh <= 0.5 * h_step + f64::EPSILON, "dh={dh}, step={h_step}");
    }
}

#[test]
fn quantization_refuses_bad_gradients() {
    let ok = vec![f(1.0)];
    assert!(matches!(
        check_quantizable(&ok, &vec![]),
        Err(PbError::ShapeMismatch { .. })
    ));
    assert!(matches!(
        check_quantizable(&vec![f(f32::NAN)], &ok),
        Err(PbError::InvalidInput { .. })
    ));
    assert!(check_quantizable(&ok, &ok).is_ok());
    assert_eq!(largest_magnitude(&vec![f(1.0), f(-3.5), f(2.0)]), f(3.5));
    assert_eq!(row_blocks(3).unwrap(), (6, 7));
    let halves: Vec<bool> = (0..64).map(|b| half_rounds_up(5, 0, b)).collect();
    assert!(halves.contains(&true) && halves.contains(&false));
}

#[test]
fn quantized_histogram_is_thread_count_independent() {
    let (x, gh, rows, leaf_of_row) = fixture();
    let g: Vec<f32> = gh.g_q.iter().map(|&v| v as f32).collect();
    let h: Vec<f32> = gh.h_q.iter().map(|&v| v as f32).collect();
    let build = |threads: usize| -> Hist {
        pooled(threads, || {
            let q = quantize(&g, &h, 99, 4).unwrap();
            build_hist(&x, &q, &rows, &leaf_of_row, 4, &[0, 1]).unwrap()
        })
    };
    let h1 = build(1);
    assert_eq!(h1, build(2));
    assert_eq!(h1, build(8));
}

#[test]
fn unit_weights_make_wsum_equal_count() {
    // The weight of a cell is the sum of its rows' hessians when these are the
    // unit weights.
    let (x, gh, rows, leaf_of_row) = fixture();
    let unit = whole(&gh.g_q, &vec![1; gh.h_q.len()]);
    let hist = build_hist(&x, &unit, &rows, &leaf_of_row, 4, &[0, 1]).unwrap();
    for (w, &c) in hist.h.iter().zip(&hist.count) {
        assert_eq!(*w, i64::from(c));
    }
}

#[derive(Clone)]
struct Floors {
    min_data: u32,
    min_hess: f64,
    min_weight: f64,
}

const NO_FLOORS: Floors = Floors { min_data: 0, min_hess: 0.0, min_weight: 0.0 };

#[derive(Clone)]
struct Settings {
    lambda: f64,
    l1: f64,
    lr: f64,
    min_gain: f64,
    max_order: u8,
    cap: Option<f64>,
    strength: f64,
    seed: u64,
    round: u32,
    groups: Option<Vec<FeatureSet>>,
    signs: Option<Vec<Option<MonoSign>>>,
    floors: Floors,
    path_smooth: f64,
    subtraction: bool,
}

fn cfg(lambda: f64, lr: f64, min_gain: f64, max_order: u8) -> Settings {
    Settings {
        lambda,
        l1: 0.0,
        lr,
        min_gain,
        max_order,
        cap: None,
        strength: 0.0,
        seed: 0,
        round: 0,
        groups: None,
        signs: None,
        floors: NO_FLOORS,
        path_smooth: 0.0,
        subtraction: true,
    }
}

fn soft(g: f64, l1: f64) -> f64 {
    if l1 <= 0.0 {
        g
    } else {
        g.signum() * (g.abs() - l1).max(0.0)
    }
}

fn newton_term(g: f64, h: f64, s: &Settings) -> f64 {
    let denom = h + s.lambda;
    if denom > 0.0 {
        let g = soft(g, s.l1);
        let w = s.cap.map_or(-g / denom, |d| (-g / denom).clamp(-d, d));
        (-2.0 * g * w - denom * w * w).max(0.0)
    } else {
        0.0
    }
}

fn newton_leaf(g: f64, h: f64, s: &Settings) -> f64 {
    let denom = h + s.lambda;
    let g = soft(g, s.l1);
    let w = if denom > 0.0 { -g / denom } else { 0.0 };
    s.lr * s.cap.map_or(w, |d| w.clamp(-d, d))
}

fn side(v: &Side, step: f64) -> (f64, f64) {
    (v.g as f64 * step, v.h as f64 * step)
}

fn noise(s: &Settings, level: usize, it: &ScanItem) -> f64 {
    if s.strength <= 0.0 {
        return 0.0;
    }
    let bits = noise_bits(s.seed, s.round, level, it.axis, it.bin_le, it.missing_left);
    let unit = (bits as f64) / 9_007_199_254_740_992.0;
    (2.0 * unit - 1.0) * s.strength / (f64::from(s.round) + 1.0).sqrt()
}

/// The best split of a level: the library scans and picks, floats score.
fn best_level_split(
    hist: &Hist,
    axes: &[u32],
    n_data_bins: &[usize],
    step: f64,
    s: &Settings,
    level: usize,
    chosen: &[Option<MonoSign>],
    penalties: Option<&[f64]>,
) -> Result<Option<Candidate>, PbError> {
    let items = scan_level(hist, &axes.to_vec(), &n_data_bins.to_vec())?;
    let mut scored = Vec::new();
    for it in &items {
        let mut acc = 0.0_f64;
        let mut parent = 0.0_f64;
        let mut sums: [Vec<F64>; 4] = Default::default();
        let mut values = vec![d(0.0); 1 << (level + 1)];
        for leaf in 0..it.low.len() {
            let (lg, lh) = side(&it.low[leaf], step);
            let (hg, hh) = side(&it.high[leaf], step);
            acc += newton_term(lg, lh, s) + newton_term(hg, hh, s);
            parent += newton_term(lg + hg, lh + hh, s);
            let (lw, hw) = (it.low[leaf].count as f64, it.high[leaf].count as f64);
            for (list, v) in sums.iter_mut().zip([lh, hh, lw, hw]) {
                list.push(d(v));
            }
            if leaf + (1 << level) < values.len() {
                values[leaf | (1 << level)] = d(newton_leaf(lg, lh, s));
                values[leaf] = d(newton_leaf(hg, hh, s));
            }
        }
        let credible = counts_credible(it, s.floors.min_data)
            && sums_credible(
                &sums[0],
                &sums[1],
                &sums[2],
                &sums[3],
                d(s.floors.min_hess),
                d(s.floors.min_weight),
            );
        let gain = 0.5 * (acc - parent);
        let monotone_ok = match &s.signs {
            Some(signs) => {
                let mut all = chosen.to_vec();
                all.push(signs[it.axis as usize]);
                candidate_monotone_ok(&values, level + 1, &all)?
            }
            None => true,
        };
        let penalty = penalties.map_or(1.0, |p| p[it.p]);
        scored.push(Scored {
            gain: d(gain),
            credible,
            monotone_ok,
            score: d(gain.max(0.0) * penalty + noise(s, level, it)),
        });
    }
    select_candidate(&items, &scored, d(s.min_gain))
}

fn leaf_values(
    g: &[f32],
    h: &[f32],
    rows: &[u32],
    leaf_of_row: &[u8],
    depth: usize,
    s: &Settings,
) -> [f32; 8] {
    let mut sums = [(0.0_f64, 0.0_f64); 8];
    for &r in rows {
        let at = &mut sums[usize::from(leaf_of_row[r as usize])];
        at.0 += f64::from(g[r as usize]);
        at.1 += f64::from(h[r as usize]);
    }
    let mut out = [0.0_f32; 8];
    for leaf in 0..(1 << depth) {
        out[leaf] = newton_leaf(sums[leaf].0, sums[leaf].1, s) as f32;
    }
    out
}

/// Averages each pair that breaks its sign until none does.
fn clamp_monotone(leaves: &mut [f32; 8], splits: &Vec<Split>, signs: Option<&Vec<Option<MonoSign>>>) {
    let signs = match signs {
        Some(s) => s,
        None => return,
    };
    let depth = splits.len();
    let level = level_signs(splits, depth, signs);
    if depth == 0 {
        return;
    }
    let mut clamp = Clamp::start();
    while let ClampStep::Pool { low, high } = clamp.next(&leaves_of(*leaves), &level, depth) {
        let avg = 0.5 * (leaves[low] + leaves[high]);
        leaves[low] = avg;
        leaves[high] = avg;
    }
}

fn smooth(leaves: &mut [f32; 8], sums: &[(f64, f64, u64); 8], depth: usize, s: &Settings) {
    if s.path_smooth <= 0.0 {
        return;
    }
    let mut above: Vec<f64> = Vec::new();
    for level in 0..=depth {
        let mask = (1usize << level) - 1;
        let mut cur = vec![0.0_f64; 1 << level];
        for j in 0..cur.len() {
            let (mut g, mut h, mut c) = (0.0, 0.0, 0u64);
            for leaf in 0..(1usize << depth) {
                if leaf & mask == j {
                    g += sums[leaf].0;
                    h += sums[leaf].1;
                    c += sums[leaf].2;
                }
            }
            let v = if level == depth { f64::from(leaves[j]) } else { newton_leaf(g, h, s) };
            let p = if level == 0 { 0.0 } else { above[j & (mask >> 1)] };
            cur[j] = (v * c as f64 + p * s.path_smooth) / (c as f64 + s.path_smooth);
        }
        above = cur;
    }
    for j in 0..(1 << depth) {
        leaves[j] = above[j] as f32;
    }
}

/// Grows a tree: the library keeps the leaves, the axes and the splits.
fn grow(
    x: &BinnedMatrix,
    g: &[f32],
    h: &[f32],
    rows: &[u32],
    axes: &[u32],
    s: &Settings,
) -> Result<Option<(ObliviousTree, Vec<u8>)>, PbError> {
    let q = stepped(g, h);
    let rows = rows.to_vec();
    let axes = axes.to_vec();
    let mut state = GrowState::new(x.n_rows as usize, x);
    let mut chosen: Vec<Option<MonoSign>> = Vec::new();
    let mut splits: Vec<Split> = Vec::new();
    let mut parent: Option<(Hist, Vec<u32>)> = None;
    while let Some(free) = state.next_axes(x, &axes, s.groups.as_ref(), s.max_order) {
        let level = state.level();
        let hist = match &parent {
            Some((ph, pa)) if s.subtraction && level >= 1 => {
                build_subtracted_level(x, &q, &rows, state.leaf_map(), level, &free, ph, pa)?
            }
            _ => build_quantized_histogram(x, &q, &rows, state.leaf_map(), 1 << level, &free)?,
        };
        let bins = data_bins(x, &free);
        let cand = match best_level_split(&hist, &free, &bins, STEP, s, level, &chosen, None)? {
            Some(c) => c,
            None => break,
        };
        chosen.push(s.signs.as_ref().and_then(|v| v[cand.axis as usize]));
        splits.push(Split { axis: cand.axis, bin_le: cand.bin_le, missing_left: cand.missing_left });
        state.apply(x, &rows, &cand)?;
        parent = Some((hist, free));
    }
    let depth = state.level();
    let mut leaves = leaf_values(g, h, &rows, state.leaf_map(), depth, s);
    clamp_monotone(&mut leaves, &splits, s.signs.as_ref());
    let mut sums = [(0.0, 0.0, 0u64); 8];
    for &r in &rows {
        let at = &mut sums[usize::from(state.leaf_map()[r as usize])];
        at.0 += f64::from(g[r as usize]);
        at.1 += f64::from(h[r as usize]);
        at.2 += 1;
    }
    smooth(&mut leaves, &sums, depth, s);
    clamp_monotone(&mut leaves, &splits, s.signs.as_ref());
    state.finish(leaves_of(leaves), x)
}

fn grow_tree(
    x: &BinnedMatrix,
    g: &[f32],
    h: &[f32],
    rows: &[u32],
    axes: &[u32],
    s: &Settings,
) -> Option<ObliviousTree> {
    grow(x, g, h, rows, axes, s).unwrap().map(|(t, _)| t)
}

fn set_cell(hist: &mut Hist, axis: usize, bin: usize, g: i64, h: i64, c: u32) {
    let o = hist.offset(0, axis, bin).unwrap();
    hist.g[o] = g;
    hist.h[o] = h;
    hist.count[o] = c;
}

#[test]
fn l1_leaf_soft_thresholds_leaf_values_and_gain() {
    let plain = cfg(0.0, 1.0, 0.0, 3);
    let l1 = Settings { l1: 1.0, ..plain.clone() };
    let (g, h) = ([-0.5_f32, 0.5], [1.0_f32, 1.0]);
    let without = leaf_values(&g, &h, &[0, 1], &[0, 1], 1, &plain);
    let with = leaf_values(&g, &h, &[0, 1], &[0, 1], 1, &l1);
    assert!(without[0] > 0.0);
    assert!(without[1] < 0.0);
    assert_eq!(with[0], 0.0);
    assert_eq!(with[1], 0.0);
    let mut hist = Hist::try_zeros(1, 1, 3).unwrap();
    set_cell(&mut hist, 0, 1, -1, 2, 1);
    set_cell(&mut hist, 0, 2, 1, 2, 1);
    assert!(best_level_split(&hist, &[0], &[2], 0.5, &plain, 0, &[], None).unwrap().is_some());
    assert!(best_level_split(&hist, &[0], &[2], 0.5, &l1, 0, &[], None).unwrap().is_none());
}

fn closed_form_hist() -> Hist {
    let mut hist = Hist::try_zeros(1, 1, 3).unwrap();
    set_cell(&mut hist, 0, 0, 2, 1, 1);
    set_cell(&mut hist, 0, 1, 4, 2, 1);
    set_cell(&mut hist, 0, 2, -6, 3, 1);
    hist
}

fn gain_of(c: &Candidate) -> f64 {
    f64::from_bits(c.gain.bits)
}

#[test]
fn newton_gain_and_missing_direction_match_closed_form() {
    let hist = closed_form_hist();
    let best = best_level_split(&hist, &[0], &[2], 1.0, &cfg(1.0, 1.0, 0.0, 3), 0, &[], None)
        .unwrap()
        .unwrap();
    assert_eq!(best.axis, 0);
    assert_eq!(best.bin_le, 1);
    assert!(best.missing_left, "missing should be learned LEFT for higher gain");
    assert!((gain_of(&best) - 9.0).abs() < 1e-9, "gain {} != 9", gain_of(&best));
}

#[test]
fn newton_gain_learns_missing_right() {
    let mut hist = Hist::try_zeros(1, 1, 3).unwrap();
    set_cell(&mut hist, 0, 0, 2, 1, 1);
    set_cell(&mut hist, 0, 1, -6, 3, 1);
    set_cell(&mut hist, 0, 2, 4, 2, 1);
    let best = best_level_split(&hist, &[0], &[2], 1.0, &cfg(1.0, 1.0, 0.0, 3), 0, &[], None)
        .unwrap()
        .unwrap();
    assert!(!best.missing_left, "missing should be learned RIGHT here");
    assert!((gain_of(&best) - 9.0).abs() < 1e-9, "gain {} != 9", gain_of(&best));
}

#[test]
fn random_strength_does_not_rewrite_raw_gain() {
    let hist = closed_form_hist();
    let noisy = Settings { strength: 100.0, seed: 123, round: 7, ..cfg(1.0, 1.0, 0.0, 3) };
    let best = best_level_split(&hist, &[0], &[2], 1.0, &noisy, 0, &[], None).unwrap().unwrap();
    let expected_raw = if best.missing_left { 9.0 } else { 0.5 * (16.0 / 3.0 + 16.0 / 5.0) };
    assert!(
        (gain_of(&best) - expected_raw).abs() < 1e-9,
        "gain {} != raw {expected_raw}",
        gain_of(&best)
    );
}

#[test]
fn table_budget_penalty_is_soft_and_preserves_raw_gain() {
    let step = 1.0 / (1u64 << 40) as f64;
    let mut hist = Hist::try_zeros(1, 2, 3).unwrap();
    for (axis, square) in [(0usize, 20.0_f64), (1, 18.0)] {
        let a = (square.sqrt() / step).round() as i64;
        set_cell(&mut hist, axis, 1, a, 1 << 40, 1);
        set_cell(&mut hist, axis, 2, -a, 1 << 40, 1);
    }
    let s = cfg(1.0, 1.0, 0.0, 3);
    let raw_best = best_level_split(&hist, &[0, 1], &[2, 2], step, &s, 0, &[], None).unwrap().unwrap();
    assert_eq!(raw_best.axis, 0);
    assert!((gain_of(&raw_best) - 10.0).abs() < 1.0e-9);
    let penalized = best_level_split(&hist, &[0, 1], &[2, 2], step, &s, 0, &[], Some(&[0.5, 1.0]))
        .unwrap()
        .unwrap();
    assert_eq!(penalized.axis, 1);
    assert!((gain_of(&penalized) - 9.0).abs() < 1.0e-9);
}

#[test]
fn max_delta_step_is_reflected_in_split_gain() {
    let mut hist = Hist::try_zeros(1, 2, 3).unwrap();
    for (axis, g, h) in [(0usize, 100, 1), (1, 150, 1000)] {
        set_cell(&mut hist, axis, 1, -g, h, 1);
        set_cell(&mut hist, axis, 2, g, h, 1);
    }
    let s = cfg(0.0, 1.0, 0.0, 3);
    let unclamped = best_level_split(&hist, &[0, 1], &[2, 2], 1.0, &s, 0, &[], None).unwrap().unwrap();
    assert_eq!(unclamped.axis, 0);
    let capped = Settings { cap: Some(0.1), ..s };
    let clamped = best_level_split(&hist, &[0, 1], &[2, 2], 1.0, &capped, 0, &[], None)
        .unwrap()
        .unwrap();
    assert_eq!(clamped.axis, 1);
    assert!((gain_of(&clamped) - 20.0).abs() < 1.0e-9);
}

#[test]
fn table_budget_beta_zero_is_exactly_inert() {
    // The table of the only axis has three cells: within a budget of three.
    let x = matrix(vec![vec![1u8, 2]], &[3]);
    assert_eq!(projected_cells(&x, &vec![], 0).unwrap(), 3);
    let y = matrix(vec![vec![1u8, 2], vec![1u8, 1]], &[3, 5]);
    assert_eq!(projected_cells(&y, &vec![0], 1).unwrap(), 15);
    assert!(matches!(
        projected_cells(&x, &vec![], 4),
        Err(PbError::Internal { .. })
    ));
}

#[test]
fn below_min_split_gain_yields_no_candidate() {
    let mut hist = Hist::try_zeros(1, 1, 3).unwrap();
    set_cell(&mut hist, 0, 1, 1, 1, 0);
    let s = cfg(1.0, 1.0, 1.0, 3);
    assert!(best_level_split(&hist, &[0], &[2], 1.0, &s, 0, &[], None).unwrap().is_none());
}

#[test]
fn leaf_values_match_per_leaf_newton_solve() {
    let g = [1.0_f32, 2.0, -4.0, -1.0];
    let h = [1.0_f32; 4];
    let leaves = leaf_values(&g, &h, &[0, 1, 2, 3], &[0, 0, 1, 1], 1, &cfg(1.0, 0.1, 0.0, 3));
    assert!((leaves[0] - (-0.1)).abs() < 1e-6);
    assert!((leaves[1] - (5.0 / 3.0 * 0.1) as f32).abs() < 1e-6);
    assert!(leaves[2..].iter().all(|&v| v == 0.0));
    // The same leaves, read back through the memberships of the rows.
    let back = member_values(&vec![0, 0, 1, 1], &leaves_of(leaves)).unwrap();
    assert_eq!(back, vec![f(leaves[0]), f(leaves[0]), f(leaves[1]), f(leaves[1])]);
}

#[test]
fn clamp_monotone_projects_inverted_leaves_onto_the_cone() {
    let splits = vec![
        Split { axis: 0, bin_le: 1, missing_left: false },
        Split { axis: 1, bin_le: 1, missing_left: false },
    ];
    let mut leaves = [0.0_f32, 10.0, 0.0, 10.0, 0.0, 0.0, 0.0, 0.0];
    let signs = vec![Some(MonoSign::Increasing), Some(MonoSign::Increasing)];
    clamp_monotone(&mut leaves, &splits, Some(&signs));
    assert!(leaves[1] <= leaves[0] + 1e-6);
    assert!(leaves[3] <= leaves[2] + 1e-6);
    assert!(leaves[2] <= leaves[0] + 1e-6);
    assert!(leaves[3] <= leaves[1] + 1e-6);
    let mut dec = [0.0_f32, -10.0, 0.0, -10.0, 0.0, 0.0, 0.0, 0.0];
    let dsigns = vec![Some(MonoSign::Decreasing), None];
    clamp_monotone(&mut dec, &splits, Some(&dsigns));
    assert!(dec[1] >= dec[0] - 1e-6);
    assert!(dec[3] >= dec[2] - 1e-6);
    let mut none = [5.0_f32, 1.0, 9.0, 2.0, 0.0, 0.0, 0.0, 0.0];
    let before = none;
    clamp_monotone(&mut none, &splits, None);
    assert_eq!(none, before);
}

#[test]
fn credibility_floors_reject_under_supported_children() {
    let mut hist = Hist::try_zeros(1, 1, 3).unwrap();
    set_cell(&mut hist, 0, 0, 0, 0, 0);
    set_cell(&mut hist, 0, 1, -5, 10, 10);
    set_cell(&mut hist, 0, 2, 5, 2, 2);
    let split = |floors: Floors| {
        let s = Settings { floors, ..cfg(1.0, 1.0, 0.0, 3) };
        best_level_split(&hist, &[0], &[2], 1.0, &s, 0, &[], None).unwrap()
    };
    assert!(split(NO_FLOORS).is_some());
    assert!(split(Floors { min_data: 5, ..NO_FLOORS }).is_none());
    assert!(split(Floors { min_hess: 3.0, ..NO_FLOORS }).is_none());
    assert!(split(Floors { min_weight: 5.0, ..NO_FLOORS }).is_none());
    assert!(split(Floors { min_data: 2, min_hess: 2.0, min_weight: 2.0 }).is_some());
}

#[test]
fn grow_with_large_path_smooth_collapses_leaf_spread() {
    let c0: Vec<u8> = vec![1, 1, 1, 1, 2, 2, 2, 2];
    let c1: Vec<u8> = vec![1, 1, 2, 2, 1, 1, 2, 2];
    let x = matrix(vec![c0, c1], &[3, 3]);
    let g = [-3.0_f32, -3.0, 1.0, 1.0, 2.0, 2.0, 6.0, 6.0];
    let h = [1.0_f32; 8];
    let rows: Vec<u32> = (0..8).collect();
    let plain = cfg(1.0, 0.1, 0.0, 3);
    let base = grow_tree(&x, &g, &h, &rows, &[0, 1], &plain).expect("a tree");
    let heavy = Settings { path_smooth: 1e6, ..plain };
    let smoothed = grow_tree(&x, &g, &h, &rows, &[0, 1], &heavy).expect("a tree");
    assert_eq!(base.splits, smoothed.splits);
    let spread = |t: &ObliviousTree| {
        let lo = t.leaves.iter().map(|&v| u(v)).fold(f32::INFINITY, f32::min);
        let hi = t.leaves.iter().map(|&v| u(v)).fold(f32::NEG_INFINITY, f32::max);
        hi - lo
    };
    assert!(spread(&base) > 1e-3, "base tree must be informative");
    assert!(spread(&smoothed) < spread(&base));
}

#[test]
fn grow_recovers_two_feature_structure() {
    let c0: Vec<u8> = vec![1, 1, 1, 1, 2, 2, 2, 2];
    let c1: Vec<u8> = vec![1, 1, 2, 2, 1, 1, 2, 2];
    let x = matrix(vec![c0, c1], &[3, 3]);
    let g = [-3.0_f32, -3.0, 1.0, 1.0, 2.0, 2.0, 6.0, 6.0];
    let rows: Vec<u32> = (0..8).collect();
    let tree = grow_tree(&x, &g, &[1.0; 8], &rows, &[0, 1], &cfg(1.0, 1.0, 0.0, 3))
        .expect("a tree should grow");
    assert!((1..=3).contains(&tree.depth));
    let mut raws: Vec<u32> = tree.splits.iter().map(|s| s.axis).collect();
    raws.sort_unstable();
    raws.dedup();
    assert_eq!(raws.len(), usize::from(tree.depth));
}

#[test]
fn grow_is_deterministic_across_thread_counts() {
    let n = 400usize;
    let c0: Vec<u8> = (0..n).map(|i| u8::try_from(i % 5 + 1).unwrap()).collect();
    let c1: Vec<u8> = (0..n).map(|i| u8::try_from(i % 7 + 1).unwrap()).collect();
    let c2: Vec<u8> = (0..n).map(|i| u8::try_from(i % 3 + 1).unwrap()).collect();
    let x = matrix(vec![c0, c1, c2], &[6, 8, 4]);
    let g: Vec<f32> = (0..n).map(|i| (i as f32 % 11.0) - 5.0).collect();
    let h = vec![1.0_f32; n];
    let rows: Vec<u32> = (0..n as u32).collect();
    let run = |nt: usize| {
        pooled(nt, || {
            grow_tree(&x, &g, &h, &rows, &[0, 1, 2], &cfg(1.0, 0.1, 0.0, 3)).unwrap()
        })
    };
    let a = run(1);
    assert_eq!(a, run(2));
    assert_eq!(a, run(8));
}

#[test]
fn grow_with_random_strength_is_deterministic_across_thread_counts() {
    let n = 360usize;
    let c0: Vec<u8> = (0..n).map(|i| u8::try_from(i % 6 + 1).unwrap()).collect();
    let c1: Vec<u8> = (0..n).map(|i| u8::try_from(i % 5 + 1).unwrap()).collect();
    let c2: Vec<u8> = (0..n).map(|i| u8::try_from(i % 4 + 1).unwrap()).collect();
    let x = matrix(vec![c0, c1, c2], &[7, 6, 5]);
    let g: Vec<f32> = (0..n).map(|i| (i as f32 % 13.0) - 6.0).collect();
    let h = vec![1.0_f32; n];
    let rows: Vec<u32> = (0..n as u32).collect();
    let noisy = Settings { seed: 99, round: 5, strength: 0.75, ..cfg(1.0, 0.1, 0.0, 3) };
    let run = |nt: usize| {
        pooled(nt, || grow_tree(&x, &g, &h, &rows, &[0, 1, 2], &noisy).unwrap())
    };
    let a = run(1);
    assert_eq!(a, run(2));
    assert_eq!(a, run(8));
}

#[test]
fn constant_gradient_gives_no_split() {
    let x = matrix(vec![vec![1u8, 2, 1, 2]], &[3]);
    let tree = grow_tree(&x, &[1.0; 4], &[1.0; 4], &[0, 1, 2, 3], &[0], &cfg(1.0, 0.1, 1e-9, 1));
    assert!(tree.is_none(), "constant gradient must not split");
}

#[test]
fn feature_budget_is_enforced_at_construction() {
    let prov: Vec<AxisProvenance> = (0..4u32)
        .map(|i| AxisProvenance { raw: FeatureId(i), kind: AxisKind::Numeric })
        .collect();
    let splits: Vec<Split> = (0..4u32)
        .map(|a| Split { axis: a, bin_le: 1, missing_left: false })
        .collect();
    assert!(matches!(
        ObliviousTree::try_new(splits, leaves_of([0.0; 8]), &prov),
        Err(PbError::InvariantViolated { broken: Invariant::FeatureBudget })
    ));
    let prov2 = vec![
        AxisProvenance { raw: FeatureId(0), kind: AxisKind::Numeric },
        AxisProvenance { raw: FeatureId(0), kind: AxisKind::Numeric },
    ];
    let reused = vec![
        Split { axis: 0, bin_le: 1, missing_left: false },
        Split { axis: 1, bin_le: 1, missing_left: false },
    ];
    assert!(matches!(
        ObliviousTree::try_new(reused, leaves_of([0.0; 8]), &prov2),
        Err(PbError::InvariantViolated { broken: Invariant::FeatureBudget })
    ));
}

#[test]
fn max_order_one_caps_tree_at_depth_one() {
    let c0: Vec<u8> = vec![1, 1, 2, 2];
    let c1: Vec<u8> = vec![1, 2, 1, 2];
    let x = matrix(vec![c0, c1], &[3, 3]);
    let g = [-2.0_f32, -1.0, 1.0, 2.0];
    let tree = grow_tree(&x, &g, &[1.0; 4], &[0, 1, 2, 3], &[0, 1], &cfg(1.0, 0.1, 0.0, 1)).unwrap();
    assert_eq!(tree.depth, 1);
}

#[test]
fn group_whitelist_gates_candidate_axes() {
    let c0: Vec<u8> = vec![1, 1, 1, 1];
    let c1: Vec<u8> = vec![1, 1, 2, 2];
    let x = matrix(vec![c0, c1], &[2, 3]);
    let g = [-2.0_f32, -2.0, 2.0, 2.0];
    let rows = [0u32, 1, 2, 3];
    let with = |raw: u32| Settings {
        groups: Some(vec![FeatureSet { ids: vec![FeatureId(raw)] }]),
        ..cfg(1.0, 0.1, 0.0, 2)
    };
    assert!(grow_tree(&x, &g, &[1.0; 4], &rows, &[0, 1], &with(0)).is_none());
    let tree = grow_tree(&x, &g, &[1.0; 4], &rows, &[0, 1], &with(1)).unwrap();
    assert_eq!(tree.splits[0].axis, 1);
}

#[test]
fn lookup_routes_missing_and_data_bins() {
    let prov = vec![AxisProvenance { raw: FeatureId(0), kind: AxisKind::Numeric }];
    let leaves = leaves_of([100.0, 200.0, 0.0, 0.0, 0.0, 0.0, 0.0, 0.0]);
    let left = ObliviousTree::try_new(
        vec![Split { axis: 0, bin_le: 1, missing_left: true }],
        leaves,
        &prov,
    )
    .unwrap();
    assert_eq!(u(left.lookup(&vec![0]).unwrap()), 200.0);
    assert_eq!(u(left.lookup(&vec![1]).unwrap()), 200.0);
    assert_eq!(u(left.lookup(&vec![2]).unwrap()), 100.0);
    let right = ObliviousTree::try_new(
        vec![Split { axis: 0, bin_le: 1, missing_left: false }],
        leaves,
        &prov,
    )
    .unwrap();
    assert_eq!(u(right.lookup(&vec![0]).unwrap()), 100.0);
    match right.lookup(&vec![]) {
        Err(PbError::ShapeMismatch { what }) => assert_eq!(what, "row has no axis 0 for tree lookup"),
        _ => panic!("expected a shape error"),
    }
}

#[test]
fn grow_recovers_three_feature_structure() {
    let c0 = vec![1u8, 1, 1, 1, 2, 2, 2, 2];
    let c1 = vec![1u8, 1, 2, 2, 1, 1, 2, 2];
    let c2 = vec![1u8, 2, 1, 2, 1, 2, 1, 2];
    let x = matrix(vec![c0.clone(), c1.clone(), c2.clone()], &[3, 3, 3]);
    let g: Vec<f32> = (0..8)
        .map(|r| {
            let b0 = f32::from(c0[r] - 1);
            let b1 = f32::from(c1[r] - 1);
            let b2 = f32::from(c2[r] - 1);
            4.0 * b0 + 2.0 * b1 + b2 - 3.5
        })
        .collect();
    let rows: Vec<u32> = (0..8).collect();
    let tree = grow_tree(&x, &g, &[1.0; 8], &rows, &[0, 1, 2], &cfg(0.0, 0.1, 0.0, 3))
        .expect("a depth-3 tree should grow");
    assert_eq!(tree.depth, 3, "all three features are informative");
    let mut raws: Vec<u32> = tree.splits.iter().map(|s| s.axis).collect();
    raws.sort_unstable();
    raws.dedup();
    assert_eq!(raws, vec![0, 1, 2]);
}

fn subtraction_fixture() -> (BinnedMatrix, Vec<f32>, Vec<f32>, Vec<u32>) {
    let base0 = [1u8, 1, 1, 1, 2, 2, 2, 2];
    let base1 = [1u8, 1, 2, 2, 1, 1, 2, 2];
    let base2 = [1u8, 2, 1, 2, 1, 2, 1, 2];
    let reps = 80usize;
    let (mut c0, mut c1, mut c2, mut c3) = (Vec::new(), Vec::new(), Vec::new(), Vec::new());
    for r in 0..reps {
        for k in 0..8usize {
            c0.push(base0[k]);
            c1.push(base1[k]);
            c2.push(base2[k]);
            c3.push(1 + ((r * 8 + k) * 7 + 3) as u8 % 3);
        }
    }
    let x = matrix(vec![c0.clone(), c1.clone(), c2.clone(), c3], &[3, 3, 3, 4]);
    let n = c0.len();
    let g: Vec<f32> = (0..n)
        .map(|i| {
            let b0 = f32::from(c0[i] - 1);
            let b1 = f32::from(c1[i] - 1);
            let b2 = f32::from(c2[i] - 1);
            4.0 * b0 + 2.0 * b1 + b2 - 3.5 + 0.05 * (((i * 13 + 7) % 11) as f32 - 5.0)
        })
        .collect();
    (x, g, vec![1.0_f32; n], (0..n as u32).collect())
}

#[test]
fn level2_subtraction_reproduces_full_build_tree() {
    let (x, g, h, rows) = subtraction_fixture();
    let axes = [0u32, 1, 2, 3];
    let on = cfg(0.0, 0.1, 0.0, 3);
    let off = Settings { subtraction: false, ..on.clone() };
    let t_on = grow_tree(&x, &g, &h, &rows, &axes, &on).expect("tree");
    let t_off = grow_tree(&x, &g, &h, &rows, &axes, &off).expect("tree");
    assert!(t_on.depth >= 2, "the fixture must reach depth 2 (got {})", t_on.depth);
    assert_eq!(t_on, t_off, "subtraction must reproduce the full-build tree");
}

#[test]
fn level2_subtraction_is_thread_count_independent() {
    let (x, g, h, rows) = subtraction_fixture();
    let axes = [0u32, 1, 2, 3];
    let run = |threads: usize| {
        pooled(threads, || {
            grow_tree(&x, &g, &h, &rows, &axes, &cfg(0.0, 0.1, 0.0, 3)).expect("tree")
        })
    };
    let base = run(1);
    assert_eq!(base, run(2), "subtraction tree differs at 2 threads");
    assert_eq!(base, run(8), "subtraction tree differs at 8 threads");
}

#[test]
fn level2_subtraction_flag_off_matches_full_build_and_quantized_unaffected() {
    // The sums are whole numbers, so that the subtracted level is the built one.
    let (x, g, h, rows) = subtraction_fixture();
    let q = quantize(&g, &h, 0, 0).unwrap();
    let leaf0 = vec![0u8; rows.len()];
    let parent = build_hist(&x, &q, &rows, &leaf0, 1, &[0, 1, 2, 3]).unwrap();
    let leaf1: Vec<u8> = x.data[0].iter().map(|&b| u8::from(low_bit(b, 1, false))).collect();
    let direct = build_hist(&x, &q, &rows, &leaf1, 2, &[1, 2, 3]).unwrap();
    let subtracted = build_subtracted_level(
        &x,
        &q,
        &rows,
        &leaf1,
        1,
        &vec![1, 2, 3],
        &parent,
        &vec![0, 1, 2, 3],
    )
    .unwrap();
    assert_eq!(direct, subtracted);
    assert!(matches!(
        build_subtracted_level(&x, &q, &rows, &leaf1, 1, &vec![1], &parent, &vec![0, 2]),
        Err(PbError::Internal { .. })
    ));
}

#[test]
fn trees_read_only_the_features_they_split() {
    let provenance: Vec<AxisProvenance> = [4, 7, 9, 11]
        .iter()
        .map(|&raw| AxisProvenance { raw: FeatureId(raw), kind: AxisKind::Numeric })
        .collect();
    let split = |axis: u32, bin_le: u8| Split { axis, bin_le, missing_left: axis == 1 };
    let values = leaves_of([0.0, 1.0, 2.0, 3.0, 4.0, 5.0, 6.0, 7.0]);
    let tree =
        ObliviousTree::try_new(vec![split(0, 2), split(1, 1), split(3, 3)], values, &provenance)
            .unwrap();
    for a in 0..4u8 {
        for b in 0..4u8 {
            for c in 0..5u8 {
                // Axis 2 is not split: its bin changes nothing, and every row has a leaf.
                let first = tree.lookup(&vec![a, b, 0, c]).unwrap();
                for unused in 1..6u8 {
                    assert_eq!(tree.lookup(&vec![a, b, unused, c]).unwrap(), first);
                }
                let leaf = u8::from(low_bit(a, 2, false))
                    + 2 * u8::from(low_bit(b, 1, true))
                    + 4 * u8::from(low_bit(c, 3, false));
                assert_eq!(u(first), f32::from(leaf));
            }
        }
    }
    assert!(tree.lookup(&vec![1, 1, 1]).is_err());
}

#[test]
fn groups_hold_all_used_features() {
    let x = matrix(vec![vec![1, 2], vec![1, 2], vec![2, 1]], &[3, 3, 3]);
    let groups = vec![
        FeatureSet { ids: vec![FeatureId(0), FeatureId(1)] },
        FeatureSet { ids: vec![FeatureId(1), FeatureId(2)] },
    ];
    let mut state = GrowState::new(2, &x);
    let axes = vec![0, 1, 2];
    assert_eq!(state.next_axes(&x, &axes, Some(&groups), 3), Some(vec![0, 1, 2]));
    let cand = Candidate { axis: 0, bin_le: 1, missing_left: false, gain: d(1.0) };
    state.apply(&x, &vec![0, 1], &cand).unwrap();
    // Feature 2 shares no group with feature 0.
    assert_eq!(state.next_axes(&x, &axes, Some(&groups), 3), Some(vec![1]));
    let cand = Candidate { axis: 1, bin_le: 1, missing_left: false, gain: d(1.0) };
    state.apply(&x, &vec![0, 1], &cand).unwrap();
    assert_eq!(state.next_axes(&x, &axes, Some(&groups), 3), None);
}

#[test]
fn candidates_lie_at_inner_borders() {
    let x = matrix(vec![vec![1, 2, 3, 0], vec![1, 1, 2, 2]], &[4, 3]);
    let q = quantize(&[1.0, -1.0, 2.0, 0.5], &[1.0; 4], 0, 0).unwrap();
    let axes = vec![0u32, 1];
    let hist = build_quantized_histogram(&x, &q, &vec![0, 1, 2, 3], &vec![0; 4], 1, &axes).unwrap();
    let bins = data_bins(&x, &axes);
    let items = scan_level(&hist, &axes, &bins).unwrap();
    let got: Vec<(u32, usize, bool)> =
        items.iter().map(|i| (i.axis, i.bin_le, i.missing_left)).collect();
    let want = vec![
        (0, 1, false),
        (0, 1, true),
        (0, 2, false),
        (0, 2, true),
        (1, 1, false),
        (1, 1, true),
    ];
    assert_eq!(got, want);
    for it in &items {
        assert!(it.bin_le >= 1 && it.bin_le < bins[it.p]);
        assert_eq!(it.low[0].count + it.high[0].count, 4);
    }
}

#[test]
fn subtraction_sums_the_smaller_children() {
    let rows = vec![0u32, 1, 2, 3, 4, 5];
    let plan = plan_subtraction(&rows, &vec![0, 2, 2, 1, 3, 2], 2).unwrap();
    // Node 0 has one row in child 0 and three in child 2; node 1 is tied.
    assert_eq!(plan.pairing, vec![(0, 0, 2), (1, 1, 3)]);
    assert_eq!(plan.small, vec![0, 3]);
    assert!(plan_subtraction(&rows, &vec![0, 0, 0, 0, 4, 0], 2).is_err());
    assert!(plan_subtraction(&rows, &vec![0, 0], 1).is_err());
    assert_eq!(map_axes(&vec![3, 1], &vec![0, 1, 3]).unwrap(), vec![2, 1]);
    assert!(map_axes(&vec![2], &vec![0, 1, 3]).is_err());
}

#[test]
fn grown_tree_passes_check_feature_budget() {
    let c0 = vec![1u8, 1, 2, 2];
    let c1 = vec![1u8, 2, 1, 2];
    let x = matrix(vec![c0, c1], &[3, 3]);
    let g = [-2.0_f32, -1.0, 1.0, 2.0];
    let tree = grow_tree(&x, &g, &[1.0; 4], &[0, 1, 2, 3], &[0, 1], &cfg(1.0, 0.1, 0.0, 3)).unwrap();
    let mut raws: Vec<u32> = tree.splits.iter().map(|s| x.provenance[s.axis as usize].raw.0).collect();
    raws.sort_unstable();
    raws.dedup();
    assert_eq!(raws.len(), tree.splits.len());
    assert!(tree.splits.len() <= 3);
    assert!(ObliviousTree::try_new(tree.splits.clone(), tree.leaves, &x.provenance).is_ok());
}

#[test]
fn grown_trees_satisfy_i1_and_lookup_roundtrip() {
    // A spread of small random data sets; bin 0 occurs, so missing rows are routed.
    for case in 0..60u64 {
        let at = |i: u64| mix(case * 1_000_003 + i * 7919 + 1);
        let n_feat = (at(0) % 3 + 1) as usize;
        let n_rows = (at(1) % 20 + 4) as usize;
        let cols: Vec<Vec<u8>> = (0..n_feat)
            .map(|c| (0..n_rows).map(|r| (at(100 + (c * 31 + r) as u64) % 5) as u8).collect())
            .collect();
        let g: Vec<f32> = (0..n_rows)
            .map(|r| (at(5000 + r as u64) % 20_000) as f32 / 1000.0 - 10.0)
            .collect();
        let h: Vec<f32> = (0..n_rows)
            .map(|r| (at(9000 + r as u64) % 4500) as f32 / 1000.0 + 0.5)
            .collect();
        let x = matrix(cols, &vec![5u16; n_feat]);
        let rows: Vec<u32> = (0..x.n_rows).collect();
        let axes: Vec<u32> = (0..n_feat as u32).collect();
        if let Some((tree, map)) = grow(&x, &g, &h, &rows, &axes, &cfg(1.0, 0.1, 0.0, 3)).unwrap() {
            assert!((1..=3).contains(&tree.depth));
            assert_eq!(tree.splits.len(), usize::from(tree.depth));
            let mut raws: Vec<u32> =
                tree.splits.iter().map(|s| x.provenance[s.axis as usize].raw.0).collect();
            raws.sort_unstable();
            raws.dedup();
            assert_eq!(raws.len(), usize::from(tree.depth));
            for r in 0..n_rows {
                let row_bins: Vec<u8> = (0..n_feat).map(|c| x.data[c][r]).collect();
                let mut idx = 0usize;
                for (lvl, s) in tree.splits.iter().enumerate() {
                    let bin = x.data[s.axis as usize][r];
                    idx |= usize::from(low_bit(bin, s.bin_le, s.missing_left)) << lvl;
                }
                assert_eq!(tree.lookup(&row_bins).unwrap(), tree.leaves[idx]);
                assert_eq!(usize::from(map[r]), idx);
                assert_eq!(walk_row(&tree.splits, &x.data, r), Some(idx));
            }
        }
    }
}

fn walked_fixture() -> (BinnedMatrix, ObliviousTree, Vec<u8>) {
    let n = 240usize;
    let c0: Vec<u8> = (0..n).map(|i| (i % 7) as u8 + 1).collect();
    let c1: Vec<u8> = (0..n).map(|i| (i % 5) as u8 + 1).collect();
    let c2: Vec<u8> = (0..n).map(|i| (i % 3) as u8 + 1).collect();
    let g: Vec<f32> = (0..n)
        .map(|i| {
            let (a, b, c) = ((i % 7) as f32, (i % 5) as f32, (i % 3) as f32);
            -(a + 2.0 * b - c + a * b)
        })
        .collect();
    let x = matrix(vec![c0, c1, c2], &[8, 6, 4]);
    let rows: Vec<u32> = (0..n as u32).collect();
    let s = cfg(1.0, 0.5, 0.0, 3);
    let (tree, map) = grow(&x, &g, &vec![1.0; n], &rows, &[0, 1, 2], &s).unwrap().expect("a tree");
    (x, tree, map)
}

#[test]
fn grow_leaf_map_matches_tree_walk_memberships_bit_for_bit() {
    let (x, tree, map) = walked_fixture();
    let n_leaves = 1usize << usize::from(tree.depth);
    let rows: Vec<u32> = (0..x.n_rows).collect();
    let walk = tree_memberships_for_rows(&tree, &x, &rows, n_leaves).unwrap();
    let gathered = gather_memberships(&map, &rows, n_leaves).unwrap();
    assert_eq!(walk, gathered, "grow leaf map != tree-walk memberships");
    let sub: Vec<u32> = vec![5, 0, 123, 239, 17, 88, 200, 9, 0, 123];
    let walk_sub = tree_memberships_for_rows(&tree, &x, &sub, n_leaves).unwrap();
    let gathered_sub = gather_memberships(&map, &sub, n_leaves).unwrap();
    assert_eq!(walk_sub, gathered_sub, "subset: grow leaf map != tree-walk");
    assert!(gather_memberships(&map, &vec![240], n_leaves).is_err());
}

#[test]
fn update_raw_leaf_map_matches_tree_walk_bit_for_bit() {
    let (x, tree, map) = walked_fixture();
    let n = x.n_rows as usize;
    let walked = tree_values(&tree, &x, None, n).unwrap();
    let mapped = tree_values(&tree, &x, Some(&map), n).unwrap();
    assert_eq!(walked, mapped);
    for r in 0..n {
        let base = 0.1 * r as f32 - 3.0;
        assert_eq!((base + u(walked[r])).to_bits(), (base + u(mapped[r])).to_bits());
    }
}

#[test]
fn membership_leaf_fill_matches_tree_walk_bit_for_bit() {
    let (x, tree, _) = walked_fixture();
    let n = x.n_rows as usize;
    let n_leaves = 1usize << usize::from(tree.depth);
    let rows: Vec<u32> = (0..x.n_rows).collect();
    let memberships = tree_memberships_for_rows(&tree, &x, &rows, n_leaves).unwrap();
    let base = 0.37_f32;
    let fill = member_values(&memberships, &tree.leaves).unwrap();
    let walk = tree_values(&tree, &x, None, n).unwrap();
    for r in 0..n {
        let a = (f64::from(base) + f64::from(u(walk[r]))) as f32;
        let b = (f64::from(base) + f64::from(u(fill[r]))) as f32;
        assert_eq!(a.to_bits(), b.to_bits(), "row {r}");
    }
    let sub_rows: Vec<u32> = vec![5, 0, 123, 123, 239, 17, 88, 0, 200, 9];
    let sub_members = tree_memberships_for_rows(&tree, &x, &sub_rows, n_leaves).unwrap();
    let base_raw: Vec<F32> = vec![f(base); n];
    let base_sub = gather_rows(&base_raw, &sub_rows).unwrap();
    let mut trial = tree.leaves;
    for k in 0..8 {
        trial[k] = f(u(trial[k]) + 0.013 * (k as f32) - 0.05);
    }
    let full = member_values(&memberships, &trial).unwrap();
    let dense = member_values(&sub_members, &trial).unwrap();
    for (i, &r) in sub_rows.iter().enumerate() {
        assert_eq!(full[r as usize], dense[i]);
        assert_eq!(base_sub[i], f(base));
    }
}

#[test]
fn per_tree_scorers_agree_bit_exactly() {
    let (x, tree, _) = walked_fixture();
    let n = x.n_rows as usize;
    let values = tree_values(&tree, &x, None, n).unwrap();
    for r in 0..n {
        let bins: Vec<u8> = x.data.iter().map(|c| c[r]).collect();
        assert_eq!(values[r], tree.lookup(&bins).unwrap());
    }
}

#[test]
fn monotone_constraint_admits_compatible_splits_and_rejects_opposite_direction() {
    let x = matrix(vec![vec![1u8, 1, 2, 2]], &[3]);
    let s = Settings { signs: Some(vec![Some(MonoSign::Increasing)]), ..cfg(0.0, 1.0, 0.0, 3) };
    let rows = [0u32, 1, 2, 3];
    // Targets 0, 0, 10, 10 about their mean.
    let rising = [5.0_f32, 5.0, -5.0, -5.0];
    let tree = grow_tree(&x, &rising, &[1.0; 4], &rows, &[0], &s).expect("a tree");
    assert!(u(tree.lookup(&vec![1]).unwrap()) <= u(tree.lookup(&vec![2]).unwrap()));
    let falling = [-5.0_f32, -5.0, 5.0, 5.0];
    assert!(
        grow_tree(&x, &falling, &[1.0; 4], &rows, &[0], &s).is_none(),
        "an opposite split should end the tree"
    );
}

#[test]
fn realized_split_borders_are_a_subset_of_the_grid() {
    let n = 100usize;
    let c0: Vec<u8> = (0..n).map(|i| (i % 8) as u8 + 1).collect();
    let c1: Vec<u8> = (0..n).map(|i| (i % 6) as u8 + 1).collect();
    let x = matrix(vec![c0, c1], &[9, 7]);
    let g: Vec<f32> = (0..n).map(|i| 4.0 - (i as f32 % 9.0)).collect();
    let rows: Vec<u32> = (0..n as u32).collect();
    let tree = grow_tree(&x, &g, &vec![1.0; n], &rows, &[0, 1], &cfg(1.0, 0.3, 0.0, 3)).expect("a tree");
    for split in &tree.splits {
        let grid = &x.grids[split.axis as usize];
        assert!(split.bin_le >= 1 && usize::from(split.bin_le) <= grid.borders.len());
    }
}

#[test]
fn noise_is_position_stable() {
    let a = noise_bits(1, 2, 0, 3, 4, false);
    assert_eq!(a, noise_bits(1, 2, 0, 3, 4, false));
    for other in [
        noise_bits(2, 2, 0, 3, 4, false),
        noise_bits(1, 3, 0, 3, 4, false),
        noise_bits(1, 2, 1, 3, 4, false),
        noise_bits(1, 2, 0, 4, 4, false),
        noise_bits(1, 2, 0, 3, 5, false),
        noise_bits(1, 2, 0, 3, 4, true),
    ] {
        assert_ne!(a, other);
    }
    assert_eq!(Stage::SplitNoise.number(), 6);
}

#[test]
fn candidates_tie_to_the_first() {
    let mut hist = Hist::try_zeros(1, 2, 4).unwrap();
    for axis in 0..2 {
        set_cell(&mut hist, axis, 1, -3, 1, 1);
        set_cell(&mut hist, axis, 2, 0, 0, 0);
        set_cell(&mut hist, axis, 3, 3, 1, 1);
    }
    let best = best_level_split(&hist, &[4, 9], &[3, 3], 1.0, &cfg(1.0, 1.0, 0.0, 3), 0, &[], None)
        .unwrap()
        .unwrap();
    assert_eq!((best.axis, best.bin_le, best.missing_left), (4, 1, false));
}

#[test]
fn scan_lists_both_sides_of_every_border() {
    let hist = closed_form_hist();
    let items = scan_level(&hist, &vec![7], &vec![2]).unwrap();
    assert_eq!(items.len(), 2);
    assert_eq!((items[0].axis, items[0].bin_le, items[0].missing_left), (7, 1, false));
    assert_eq!((items[0].low[0].g, items[0].high[0].g), (4, -4));
    assert_eq!((items[1].low[0].g, items[1].high[0].g), (6, -6));
    assert_eq!((items[1].low[0].h, items[1].high[0].h), (3, 3));
    assert_eq!((items[1].low[0].count, items[1].high[0].count), (2, 1));
    assert!(counts_credible(&items[1], 1));
    assert!(!counts_credible(&items[1], 2));
}

#[test]
fn sums_clear_their_floors_where_none_is_below() {
    let at = |v: f64| vec![d(5.0), d(v)];
    let ok = |lh: f64, hh: f64, lw: f64, hw: f64| {
        sums_credible(&at(lh), &at(hh), &at(lw), &at(hw), d(1.0), d(2.0))
    };
    assert!(ok(1.0, 1.0, 2.0, 2.0));
    assert!(!ok(0.5, 1.0, 2.0, 2.0));
    assert!(!ok(1.0, 0.5, 2.0, 2.0));
    assert!(!ok(1.0, 1.0, 1.5, 2.0));
    assert!(!ok(1.0, 1.0, 2.0, 1.5));
    assert!(ok(f64::NAN, 1.0, 2.0, 2.0));
    assert!(sums_credible(&vec![], &vec![], &vec![], &vec![], d(1.0), d(2.0)));
}

#[test]
fn monotone_candidates_compare_cousins() {
    let v = |a: f64, b: f64| vec![d(a), d(b)];
    // Leaf 1 is the low side of the axis.
    assert!(candidate_monotone_ok(&v(2.0, 1.0), 1, &vec![Some(MonoSign::Increasing)]).unwrap());
    assert!(!candidate_monotone_ok(&v(1.0, 2.0), 1, &vec![Some(MonoSign::Increasing)]).unwrap());
    assert!(candidate_monotone_ok(&v(1.0, 2.0), 1, &vec![Some(MonoSign::Decreasing)]).unwrap());
    assert!(candidate_monotone_ok(&v(1.0, 2.0), 1, &vec![Some(MonoSign::Free)]).unwrap());
    assert!(candidate_monotone_ok(&v(1.0, 2.0), 1, &vec![None]).unwrap());
    assert!(matches!(
        candidate_monotone_ok(&v(1.0, 2.0), 2, &vec![None, None]),
        Err(PbError::Internal { .. })
    ));
}

#[test]
fn only_listed_rows_move_and_unreachable_leaves_are_zero() {
    let x = matrix(vec![vec![1, 2, 1, 0]], &[4]);
    let cand = |missing_left| Candidate { axis: 0, bin_le: 1, missing_left, gain: d(1.0) };
    let mut state = GrowState::new(4, &x);
    state.apply(&x, &vec![0, 1, 3], &cand(true)).unwrap();
    assert_eq!(state.leaf_map(), &vec![1, 0, 0, 1]);
    let (tree, map) = state.finish(leaves_of([1.0, 2.0, 3.0, 4.0, 5.0, 6.0, 7.0, 8.0]), &x)
        .unwrap()
        .unwrap();
    assert_eq!(tree.leaves, leaves_of([1.0, 2.0, 0.0, 0.0, 0.0, 0.0, 0.0, 0.0]));
    assert_eq!(map, vec![1, 0, 0, 1]);
    for r in [0usize, 1, 3] {
        let bins = vec![x.data[0][r]];
        assert_eq!(tree.lookup(&bins).unwrap(), tree.leaves[usize::from(map[r])]);
    }
    assert!(GrowState::new(4, &x).finish(leaves_of([1.0; 8]), &x).unwrap().is_none());
}

#[test]
fn growth_offers_unused_raws_within_the_order() {
    let mut x = matrix(vec![vec![1u8, 2], vec![1, 2], vec![2, 1]], &[3, 3, 3]);
    // Two axes of one raw feature.
    x.provenance[1].raw = FeatureId(0);
    let mut state = GrowState::new(2, &x);
    assert_eq!(state.next_axes(&x, &vec![0, 1, 2, 9], None, 3), Some(vec![0, 1, 2]));
    assert_eq!(state.next_axes(&x, &vec![0], None, 0), None);
    let cand = Candidate { axis: 0, bin_le: 1, missing_left: false, gain: d(1.0) };
    state.apply(&x, &vec![0, 1], &cand).unwrap();
    assert_eq!(state.leaf_map(), &vec![1, 0]);
    assert_eq!(state.used_axes(), vec![0]);
    // The second axis of raw feature 0 is spent with the first.
    assert_eq!(state.next_axes(&x, &vec![0, 1, 2], None, 3), Some(vec![2]));
    assert_eq!(state.next_axes(&x, &vec![0, 1, 2], None, 1), None);
    assert_eq!(state.next_axes(&x, &vec![0, 1], None, 3), None);
    let bad = Candidate { axis: 9, ..cand };
    assert!(state.apply(&x, &vec![0, 1], &bad).is_err());
}

/// Numeric columns of few distinct values, binned at their midpoints.
fn binned(cols: &[Vec<f32>]) -> BinnedMatrix {
    let c = BinConfig::default();
    let columns: Vec<Vec<F32>> = cols.iter().map(|v| v.iter().map(|&x| f(x)).collect()).collect();
    let mut grids = Vec::new();
    for (i, col) in columns.iter().enumerate() {
        grids.push(match plan_grid(col, None, &c, 0, FeatureId(i as u32)).unwrap() {
            GridPlan::Midpoints { sorted, distinct } => {
                let raw: Vec<F32> = distinct
                    .windows(2)
                    .map(|p| f(((f64::from(u(p[0])) + f64::from(u(p[1]))) / 2.0) as f32))
                    .collect();
                finish_grid(&sorted, &raw, &c).unwrap()
            }
            GridPlan::Degenerate => degenerate_grid(),
            GridPlan::Quantiles { .. } => panic!("too many values"),
        });
    }
    bin_columns(&columns, None, &c, &grids).unwrap()
}

/// Boosts squared error: the library keeps the course of the fit and the trees.
fn fit(x: &BinnedMatrix, y: &[f32], w: &[f32], n_trees: u32, s: &Settings) -> (f32, Vec<ObliviousTree>) {
    let total: f64 = w.iter().map(|&v| f64::from(v)).sum();
    let mean = y.iter().zip(w).map(|(&a, &b)| f64::from(a) * f64::from(b)).sum::<f64>() / total;
    let f0 = mean as f32;
    let n = y.len();
    let mut raw = vec![f0; n];
    let rows: Vec<u32> = (0..n as u32).collect();
    let axes: Vec<u32> = (0..x.data.len() as u32).collect();
    let plan = FitPlan {
        n_rounds: n_trees,
        early_stopping_rounds: 50,
        has_validation: false,
        refit: RefitSpec::Off,
        correction: false,
    };
    let mut course = FitProgress::start(plan, None);
    let mut trees = Vec::new();
    while course.step == Step::Grow {
        let g: Vec<f32> = (0..n).map(|i| w[i] * (raw[i] - y[i])).collect();
        match grow(x, &g, w, &rows, &axes, s).unwrap() {
            Some((tree, map)) => {
                let values = tree_values(&tree, x, Some(&map), n).unwrap();
                for i in 0..n {
                    raw[i] += u(values[i]);
                }
                trees.push(tree);
                course.advance(Outcome::Grew);
            }
            None => course.advance(Outcome::NoSplit),
        }
    }
    assert_eq!(course.step, Step::Done);
    assert_eq!(course.n_trees, trees.len() as u64);
    (f0, trees)
}

fn predict(model: &(f32, Vec<ObliviousTree>), x: &BinnedMatrix, row: usize) -> f64 {
    let bins: Vec<u8> = x.data.iter().map(|c| c[row]).collect();
    f64::from(model.0) + model.1.iter().map(|t| f64::from(u(t.lookup(&bins).unwrap()))).sum::<f64>()
}

#[test]
fn g2_recovers_piecewise_constant_target_exactly() {
    let n = 60usize;
    let x0: Vec<f32> = (0..n).map(|i| (i % 6 + 1) as f32).collect();
    let x1: Vec<f32> = (0..n).map(|i| (i % 4 + 1) as f32).collect();
    let y: Vec<f32> = (0..n)
        .map(|i| {
            let a = if x0[i] <= 3.0 { 10.0 } else { 20.0 };
            let b = if x1[i] <= 2.0 { 5.0 } else { 0.0 };
            a + b
        })
        .collect();
    let x = binned(&[x0, x1]);
    let model = fit(&x, &y, &vec![1.0; n], 20, &cfg(0.0, 1.0, 0.0, 3));
    for (i, &yi) in y.iter().enumerate() {
        let pred = predict(&model, &x, i);
        assert!((pred - f64::from(yi)).abs() < 1e-3, "row {i}: pred {pred} != y {yi}");
    }
}

#[test]
fn g2_converges_under_regularization() {
    let n = 80usize;
    let x0: Vec<f32> = (0..n).map(|i| (i % 5 + 1) as f32).collect();
    let x1: Vec<f32> = (0..n).map(|i| (i % 3 + 1) as f32).collect();
    let y: Vec<f32> = (0..n)
        .map(|i| if x0[i] <= 2.0 { -3.0 } else { 4.0 } + if x1[i] <= 1.0 { 1.0 } else { -1.0 })
        .collect();
    let x = binned(&[x0, x1]);
    let model = fit(&x, &y, &vec![1.0; n], 300, &cfg(1.0, 0.3, 0.0, 3));
    let max_err = (0..n)
        .map(|i| (predict(&model, &x, i) - f64::from(y[i])).abs())
        .fold(0.0_f64, f64::max);
    assert!(max_err < 0.05, "did not converge: max_err {max_err}");
}

#[test]
fn degenerate_inputs_give_valid_finite_exact_models() {
    let s = cfg(1.0, 0.5, 0.0, 3);
    let x = binned(&[vec![1.0, 2.0, 3.0, 4.0]]);
    let model = fit(&x, &[5.0; 4], &[1.0; 4], 10, &s);
    assert!(model.1.is_empty());
    for i in 0..4 {
        assert!((predict(&model, &x, i) - 5.0).abs() < 1e-6);
    }
    let x1 = binned(&[vec![1.0]]);
    let m1 = fit(&x1, &[7.0], &[1.0], 10, &s);
    assert!((predict(&m1, &x1, 0) - 7.0).abs() < 1e-6);
    let informative: Vec<f32> = (0..20).map(|i| (i % 4) as f32).collect();
    let yv: Vec<f32> = (0..20).map(|i| if i % 4 < 2 { -1.0 } else { 2.0 }).collect();
    let x3 = binned(&[informative, vec![f32::NAN; 20]]);
    let m3 = fit(&x3, &yv, &[1.0; 20], 10, &s);
    for i in 0..20 {
        assert!(predict(&m3, &x3, i).is_finite());
    }
    for tree in &m3.1 {
        assert!(tree.splits.iter().all(|s| s.axis != 1));
    }
}

#[test]
fn weighted_fit_recovers_target() {
    let n = 60usize;
    let x0: Vec<f32> = (0..n).map(|i| (i % 6 + 1) as f32).collect();
    let x1: Vec<f32> = (0..n).map(|i| (i % 4 + 1) as f32).collect();
    let y: Vec<f32> = (0..n)
        .map(|i| {
            let a = if x0[i] <= 3.0 { 10.0 } else { 20.0 };
            let b = if x1[i] <= 2.0 { 5.0 } else { 0.0 };
            a + b
        })
        .collect();
    let x = binned(&[x0, x1]);
    let w: Vec<f32> = (0..n).map(|i| 0.5 + (i % 4) as f32).collect();
    let model = fit(&x, &y, &w, 20, &cfg(0.0, 1.0, 0.0, 3));
    for (i, &yi) in y.iter().enumerate() {
        assert!((predict(&model, &x, i) - f64::from(yi)).abs() < 1e-3);
    }
}

#[test]
fn g2_recovers_three_feature_target() {
    let n = 64usize;
    let x0: Vec<f32> = (0..n).map(|i| (i % 2 + 1) as f32).collect();
    let x1: Vec<f32> = (0..n).map(|i| ((i / 2) % 2 + 1) as f32).collect();
    let x2: Vec<f32> = (0..n).map(|i| ((i / 4) % 2 + 1) as f32).collect();
    let y: Vec<f32> = (0..n)
        .map(|i| {
            let a = if x0[i] <= 1.0 { 0.0 } else { 4.0 };
            let b = if x1[i] <= 1.0 { 0.0 } else { 2.0 };
            let c = if x2[i] <= 1.0 { 0.0 } else { 1.0 };
            a + b + c - 3.5
        })
        .collect();
    let x = binned(&[x0, x1, x2]);
    let model = fit(&x, &y, &vec![1.0; n], 20, &cfg(0.0, 1.0, 0.0, 3));
    for (i, &yi) in y.iter().enumerate() {
        assert!((predict(&model, &x, i) - f64::from(yi)).abs() < 1e-3, "row {i}");
    }
}

#[test]
fn a_clamp_pools_settles_and_gives_up() {
    let splits = vec![Split { axis: 0, bin_le: 1, missing_left: false }];
    let level = level_signs(&splits, 1, &vec![Some(MonoSign::Increasing)]);
    let broken = leaves_of([0.0, 10.0, 0.0, 0.0, 0.0, 0.0, 0.0, 0.0]);
    let mut clamp = Clamp::start();
    let (low, high) = match clamp.next(&broken, &level, 1) {
        ClampStep::Pool { low, high } => (low, high),
        _ => panic!("expected a pair"),
    };
    assert_eq!((low.min(high), low.max(high)), (0, 1));
    let mut pooled = broken;
    pooled[0] = f(5.0);
    pooled[1] = f(5.0);
    assert_eq!(clamp.next(&pooled, &level, 1), ClampStep::Settled);
    // Leaves that are never mended use up the passes.
    let mut stubborn = Clamp::start();
    let mut pools = 0;
    let last = loop {
        match stubborn.next(&broken, &level, 1) {
            ClampStep::Pool { .. } => pools += 1,
            other => break other,
        }
    };
    assert_eq!((pools, last), (64, ClampStep::Spent));
}
