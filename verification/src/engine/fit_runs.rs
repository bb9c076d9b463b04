//! Runs of a fit: whatever the numeric work of its steps, a fit is a function of
//! its setting and its seed. Every draw is one, and so is the course.
use crate::backend::Stage;
use crate::boosters::config::DartSpec;
use crate::draw::law_seeded_order_is_unique;
use crate::engine::dart::{drop_draw, share_below};
use crate::engine::progress::{fits, next, FitPlan, FitProgress, Outcome, Step};
use crate::engine::rows::{
    axis_count, axis_keys, carve_len, is_holdout, is_split, mvs_keys, rows_ascend,
    smallest,
};
use crate::float::F64;
use vstd::prelude::*;

verus! {

/// What a step of a fit draws.
#[verifier::ext_equal]
pub struct Draws {
    /// The trees that are left out.
    pub drops: Seq<bool>,
    /// The axes that may be split.
    pub axes: Seq<u32>,
    /// The rows that a tree is grown on.
    pub rows: Seq<u32>,
}

/// What a fit is given. `W` is all that its numeric work keeps: trees, scores,
/// gradients.
#[verifier::reject_recursive_types(W)]
pub struct FitSetting<W> {
    pub plan: FitPlan,
    pub seed: u64,
    pub n_rows: u32,
    /// How many validation rows are asked for.
    pub holdout: Option<usize>,
    pub dart: Option<DartSpec>,
    pub axes: Seq<u32>,
    /// How many axes are asked for.
    pub asked: Option<usize>,
    /// How many rows a tree is grown on, where not on all.
    pub sample: Option<usize>,
    /// What the work starts with, and the validation deviance without trees, over
    /// the training and the validation rows.
    pub first: spec_fn(Seq<u32>, Option<Seq<u32>>) -> (W, Option<F64>),
    /// The keys by which the rows of a round are sampled.
    pub keys: spec_fn(W, u32) -> Seq<F64>,
    /// The work of a step, and what comes of it.
    pub work: spec_fn(W, FitProgress, Draws) -> (W, Outcome),
}

/// A run of a fit, from its start to its end.
#[verifier::reject_recursive_types(W)]
pub struct FitRun<W> {
    pub train: Seq<u32>,
    pub held: Option<Seq<u32>>,
    pub states: Seq<FitProgress>,
    pub worlds: Seq<W>,
    pub draws: Seq<Draws>,
}

/// Whether the rows are carved as [`crate::engine::rows::carve_validation_rows`]
/// carves them.
pub open spec fn is_carved<W>(s: FitSetting<W>, train: Seq<u32>, held: Option<Seq<u32>>) -> bool {
    match s.holdout {
        None => held is None && train == Seq::new(s.n_rows as nat, |i: int| i as u32),
        Some(asked) => held is Some && is_holdout(
            train,
            held->0,
            s.seed,
            Stage::Holdout.code(),
            s.n_rows as nat,
            carve_len(s.n_rows, asked),
        ),
    }
}

/// Whether a step draws as [`crate::engine::dart::dart_drop_mask`],
/// [`crate::engine::rows::sample_axes`] and [`crate::engine::rows::sample_rows`]
/// draw.
pub open spec fn is_drawn<W>(
    s: FitSetting<W>,
    at: FitProgress,
    w: W,
    train: Seq<u32>,
    d: Draws,
) -> bool {
    &&& match s.dart {
        None => d.drops.len() == 0,
        Some(dart) => d.drops.len() == at.n_trees && forall|i: int|
            0 <= i < d.drops.len() ==> #[trigger] d.drops[i] == share_below(
                drop_draw(s.seed, at.round, i),
                dart.drop_rate,
            ),
    }
    &&& if s.axes.len() == 0 || s.asked is None {
        d.axes == s.axes
    } else {
        d.axes.map_values(|v: u32| v as u64) == smallest(
            axis_keys(s.axes, s.seed, at.round),
            axis_count(s.axes.len(), s.asked->0),
        )
    }
    &&& match s.sample {
        None => d.rows == train,
        Some(k) => d.rows.map_values(|v: u32| v as u64) == smallest(
            mvs_keys(train, (s.keys)(w, at.round)),
            k as int,
        ),
    }
}

/// Whether a run follows its setting: it starts as the rows are carved, each step
/// draws, works and advances, and the last state has nothing left to do.
pub open spec fn is_fit_run<W>(s: FitSetting<W>, r: FitRun<W>) -> bool {
    &&& r.states.len() > 0
    &&& r.worlds.len() == r.states.len()
    &&& r.draws.len() == r.states.len() - 1
    &&& is_carved(s, r.train, r.held)
    &&& r.worlds[0] == (s.first)(r.train, r.held).0
    &&& r.states[0] == (FitProgress {
        plan: s.plan,
        round: 0,
        n_trees: 0,
        last_refit: 0,
        best: (s.first)(r.train, r.held).1,
        best_count: 0,
        step: Step::Grow,
    })
    &&& forall|k: int|
        0 <= k < r.draws.len() ==> is_drawn(
            s,
            r.states[k],
            r.worlds[k],
            r.train,
            #[trigger] r.draws[k],
        ) && {
            let done = (s.work)(r.worlds[k], r.states[k], r.draws[k]);
            &&& fits(r.states[k], done.1)
            &&& r.states[k + 1] == next(r.states[k], done.1)
            &&& r.worlds[k + 1] == done.0
        }
    &&& r.states.last().step is Done
}

proof fn lemma_wide_equal(a: Seq<u32>, b: Seq<u32>)
    requires
        a.map_values(|v: u32| v as u64) == b.map_values(|v: u32| v as u64),
    ensures
        a == b,
{
    let (x, y) = (a.map_values(|v: u32| v as u64), b.map_values(|v: u32| v as u64));
    assert(x.len() == a.len() && y.len() == b.len());
    assert forall|i: int| 0 <= i < a.len() implies a[i] == b[i] by {
        assert(x[i] == y[i]);
    }
    assert(a =~= b);
}

/// A step draws in one way only.
pub proof fn law_draws_are_determined<W>(
    s: FitSetting<W>,
    at: FitProgress,
    w: W,
    train: Seq<u32>,
    a: Draws,
    b: Draws,
)
    requires
        is_drawn(s, at, w, train, a),
        is_drawn(s, at, w, train, b),
    ensures
        a == b,
{
    assert(a.drops =~= b.drops);
    if !(s.axes.len() == 0 || s.asked is None) {
        lemma_wide_equal(a.axes, b.axes);
    }
    if s.sample is Some {
        lemma_wide_equal(a.rows, b.rows);
    }
    assert(a =~= b);
}

proof fn lemma_ascending_rows_equal(a: Seq<u32>, b: Seq<u32>)
    requires
        rows_ascend(a),
        rows_ascend(b),
        forall|r: u32| #[trigger] a.contains(r) <==> b.contains(r),
    ensures
        a == b,
{
    let (x, y) = (a.map_values(|r: u32| r as usize), b.map_values(|r: u32| r as usize));
    assert forall|p: usize| #[trigger] x.contains(p) <==> y.contains(p) by {
        if x.contains(p) {
            let i = choose|i: int| 0 <= i < x.len() && x[i] == p;
            assert(a.contains(a[i]));
            assert(b.contains(a[i]));
            let j = choose|j: int| 0 <= j < b.len() && b[j] == a[i];
            assert(y[j] == p);
        }
        if y.contains(p) {
            let i = choose|i: int| 0 <= i < y.len() && y[i] == p;
            assert(b.contains(b[i]));
            assert(a.contains(b[i]));
            let j = choose|j: int| 0 <= j < a.len() && a[j] == b[i];
            assert(x[j] == p);
        }
    }
    crate::draw::lemma_ascending_same_members(x, y);
    assert(x.len() == a.len() && y.len() == b.len());
    assert forall|i: int| 0 <= i < a.len() implies a[i] == b[i] by {
        assert(x[i] == y[i]);
    }
    assert(a =~= b);
}

/// A seed splits the rows in one way only.
pub proof fn law_holdout_is_determined(
    train_a: Seq<u32>,
    held_a: Seq<u32>,
    train_b: Seq<u32>,
    held_b: Seq<u32>,
    seed: u64,
    stage: u32,
    n: nat,
    h: int,
)
    requires
        is_holdout(train_a, held_a, seed, stage, n, h),
        is_holdout(train_b, held_b, seed, stage, n, h),
    ensures
        train_a == train_b,
        held_a == held_b,
{
    let oa = choose|o: Seq<u32>| #[trigger]
        crate::draw::is_seeded_order(o, seed, 0, stage, n) && is_split(train_a, held_a, o, h);
    let ob = choose|o: Seq<u32>| #[trigger]
        crate::draw::is_seeded_order(o, seed, 0, stage, n) && is_split(train_b, held_b, o, h);
    law_seeded_order_is_unique(oa, ob, seed, 0, stage, n);
    lemma_ascending_rows_equal(train_a, train_b);
    lemma_ascending_rows_equal(held_a, held_b);
}

proof fn lemma_runs_agree<W>(s: FitSetting<W>, a: FitRun<W>, b: FitRun<W>, k: int)
    requires
        is_fit_run(s, a),
        is_fit_run(s, b),
        a.train == b.train,
        a.held == b.held,
        0 <= k < a.states.len(),
        k < b.states.len(),
    ensures
        a.states[k] == b.states[k],
        a.worlds[k] == b.worlds[k],
        forall|j: int| 0 <= j < k ==> #[trigger] a.draws[j] == b.draws[j],
    decreases k,
{
    if k > 0 {
        lemma_runs_agree(s, a, b, k - 1);
        let (x, y) = (a.draws[k - 1], b.draws[k - 1]);
        assert(is_drawn(s, a.states[k - 1], a.worlds[k - 1], a.train, x));
        assert(is_drawn(s, b.states[k - 1], b.worlds[k - 1], b.train, y));
        law_draws_are_determined(s, a.states[k - 1], a.worlds[k - 1], a.train, x, y);
        assert forall|j: int| 0 <= j < k implies #[trigger] a.draws[j] == b.draws[j] by {
            if j == k - 1 {
                assert(x == y);
            }
        }
    }
}

/// A fit is a function of its setting and its seed: any two runs carve the same
/// rows, make the same draws, take the same course, keep the same number of trees
/// and end with the same work. How the work is scheduled does not enter.
pub proof fn law_fit_is_determined<W>(s: FitSetting<W>, a: FitRun<W>, b: FitRun<W>)
    requires
        is_fit_run(s, a),
        is_fit_run(s, b),
    ensures
        a.train == b.train,
        a.held == b.held,
        a.draws == b.draws,
        a.states == b.states,
        a.worlds == b.worlds,
        a.states.last().n_trees == b.states.last().n_trees,
{
    if s.holdout is Some {
        law_holdout_is_determined(
            a.train,
            a.held->0,
            b.train,
            b.held->0,
            s.seed,
            Stage::Holdout.code(),
            s.n_rows as nat,
            carve_len(s.n_rows, s.holdout->0),
        );
    }
    let (m, n) = (a.states.len() as int, b.states.len() as int);
    let k = if m < n {
        m - 1
    } else {
        n - 1
    };
    lemma_runs_agree(s, a, b, k);
    if m < n {
        let d = b.draws[k];
        assert(fits(b.states[k], (s.work)(b.worlds[k], b.states[k], d).1));
    } else if n < m {
        let d = a.draws[k];
        assert(fits(a.states[k], (s.work)(a.worlds[k], a.states[k], d).1));
    }
    assert(m == n);
    assert forall|j: int| 0 <= j < m implies #[trigger] a.states[j] == b.states[j] by {
        lemma_runs_agree(s, a, b, j);
    }
    assert forall|j: int| 0 <= j < m implies #[trigger] a.worlds[j] == b.worlds[j] by {
        lemma_runs_agree(s, a, b, j);
    }
    assert(a.states =~= b.states);
    assert(a.worlds =~= b.worlds);
    assert(a.draws =~= b.draws);
}

} // verus!
