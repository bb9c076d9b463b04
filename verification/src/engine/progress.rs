//! The course of a fit: what to do next, given what came of the last step.
//!
//! A fit grows one tree per round, may correct it with a second one, may refit
//! all leaves on a schedule, and may watch a validation score to stop early and
//! go back to the best ensemble seen. The caller does the numeric work of each
//! step and reports the outcome.
use crate::boosters::config::{refit_fault, RefitSpec};
use crate::float::F64;
use vstd::prelude::*;

verus! {

/// What a fit is set to do.
#[derive(Debug, Clone, Copy, PartialEq, Eq, Structural)]
pub struct FitPlan {
    /// At most this many rounds.
    pub n_rounds: u32,
    /// Stop after this many trees without a better validation score.
    pub early_stopping_rounds: u32,
    /// Whether a validation score is watched.
    pub has_validation: bool,
    pub refit: RefitSpec,
    /// Whether every round grows a correction tree as well.
    pub correction: bool,
}

/// What a fit does next.
#[derive(Debug, Clone, Copy, PartialEq, Eq, Structural)]
pub enum Step {
    /// Grow the tree of the round.
    Grow,
    /// Refit all leaves, after the tree of the round.
    RefitTree,
    /// Grow the correction tree of the round.
    Correct,
    /// Refit all leaves, after the correction tree.
    RefitCorrection,
    /// Score the validation rows.
    Score,
    /// Keep the trees of the best score only.
    Truncate,
    /// Refit all leaves, at the end.
    RefitEnd,
    /// Nothing is left to do.
    Done,
}

/// What came of a step.
#[derive(Debug, Clone, Copy, PartialEq, Eq, Structural)]
pub enum Outcome {
    /// A tree was grown and added.
    Grew,
    /// No split was good enough.
    NoSplit,
    /// The leaves were refitted.
    Refitted,
    /// The validation deviance.
    Scored(F64),
    /// The trees were truncated.
    Truncated,
}

/// Whether leaves are refitted once there are `n_trees` trees.
pub open spec fn refit_due(refit: RefitSpec, n_trees: nat) -> bool {
    match refit {
        RefitSpec::Ridge { l2: _, max_iter: _, every_k_trees: Some(k) } => n_trees > 0 && n_trees
            % (k as nat) == 0,
        _ => false,
    }
}

/// Whether leaves are refitted at the end.
pub open spec fn refit_due_at_end(refit: RefitSpec, n_trees: nat, last_refit: nat) -> bool {
    refit is Ridge && n_trees > 0 && last_refit != n_trees
}

/// Whether leaves are refitted once there are `n_trees` trees.
pub fn should_refit_after_round(refit: &RefitSpec, n_trees: u64) -> (b: bool)
    requires
        refit_fault(*refit) is None,
    ensures
        b == refit_due(*refit, n_trees as nat),
{
    match *refit {
        RefitSpec::Off => false,
        RefitSpec::Ridge { l2: _, max_iter: _, every_k_trees } => match every_k_trees {
            None => false,
            Some(k) => n_trees > 0 && n_trees % (k as u64) == 0,
        },
    }
}

/// Whether leaves are refitted at the end: where a refit is wanted and the last
/// one did not see all trees.
pub fn should_refit_at_end(refit: &RefitSpec, n_trees: u64, last_refit: u64) -> (b: bool)
    ensures
        b == refit_due_at_end(*refit, n_trees as nat, last_refit as nat),
{
    match *refit {
        RefitSpec::Off => false,
        RefitSpec::Ridge { l2: _, max_iter: _, every_k_trees: _ } => n_trees > 0 && last_refit
            != n_trees,
    }
}

/// How far a fit has come.
#[derive(Debug, Clone, Copy, PartialEq, Eq, Structural)]
pub struct FitProgress {
    pub plan: FitPlan,
    pub round: u32,
    /// The number of trees.
    pub n_trees: u64,
    /// The number of trees at the last refit.
    pub last_refit: u64,
    /// The best validation deviance.
    pub best: Option<F64>,
    /// The number of trees at the best deviance.
    pub best_count: u64,
    pub step: Step,
}

/// The end of a fit, once its trees are final.
pub open spec fn at_end(s: FitProgress) -> FitProgress {
    if refit_due_at_end(s.plan.refit, s.n_trees as nat, s.last_refit as nat) {
        FitProgress { step: Step::RefitEnd, ..s }
    } else {
        FitProgress { step: Step::Done, ..s }
    }
}

/// After the last round.
pub open spec fn after_rounds(s: FitProgress) -> FitProgress {
    if s.plan.has_validation && s.best_count < s.n_trees {
        FitProgress { step: Step::Truncate, ..s }
    } else {
        at_end(s)
    }
}

/// After a round.
pub open spec fn after_round(s: FitProgress) -> FitProgress {
    let t = FitProgress { round: (s.round + 1) as u32, ..s };
    if t.round < s.plan.n_rounds {
        FitProgress { step: Step::Grow, ..t }
    } else {
        after_rounds(t)
    }
}

/// After all trees of a round.
pub open spec fn after_trees(s: FitProgress) -> FitProgress {
    if s.plan.has_validation {
        FitProgress { step: Step::Score, ..s }
    } else {
        after_round(s)
    }
}

/// After the tree of a round.
pub open spec fn after_main(s: FitProgress) -> FitProgress {
    if s.plan.correction {
        FitProgress { step: Step::Correct, ..s }
    } else {
        after_trees(s)
    }
}

/// One more tree.
pub open spec fn one_more(s: FitProgress) -> FitProgress {
    FitProgress { n_trees: (s.n_trees + 1) as u64, ..s }
}

/// Whether a validation deviance beats the best one.
pub open spec fn beats(d: F64, best: Option<F64>) -> bool {
    best is None || d.below(best->0)
}

/// After a validation score: a better one is kept, and too long without a better
/// one ends the rounds.
pub open spec fn after_score(s: FitProgress, d: F64) -> FitProgress {
    if beats(d, s.best) {
        after_round(FitProgress { best: Some(d), best_count: s.n_trees, ..s })
    } else if s.n_trees - s.best_count >= s.plan.early_stopping_rounds {
        after_rounds(s)
    } else {
        after_round(s)
    }
}

/// Whether an outcome can come of the current step.
pub open spec fn fits(s: FitProgress, o: Outcome) -> bool {
    match s.step {
        Step::Grow => o is Grew || o is NoSplit,
        Step::RefitTree => o is Refitted,
        Step::Correct => o is Grew || o is NoSplit,
        Step::RefitCorrection => o is Refitted,
        Step::Score => o is Scored,
        Step::Truncate => o is Truncated,
        Step::RefitEnd => o is Refitted,
        Step::Done => false,
    }
}

/// The course of a fit: how far it is after an outcome.
pub open spec fn next(s: FitProgress, o: Outcome) -> FitProgress {
    match s.step {
        Step::Grow => if o is Grew {
            let t = one_more(s);
            if refit_due(s.plan.refit, t.n_trees as nat) {
                FitProgress { step: Step::RefitTree, ..t }
            } else {
                after_main(t)
            }
        } else {
            after_rounds(s)
        },
        Step::RefitTree => after_main(FitProgress { last_refit: s.n_trees, ..s }),
        Step::Correct => if o is Grew {
            let t = one_more(s);
            if refit_due(s.plan.refit, t.n_trees as nat) {
                FitProgress { step: Step::RefitCorrection, ..t }
            } else {
                after_trees(t)
            }
        } else {
            after_trees(s)
        },
        Step::RefitCorrection => after_trees(FitProgress { last_refit: s.n_trees, ..s }),
        Step::Score => after_score(s, o->Scored_0),
        Step::Truncate => {
            let n = s.best_count;
            at_end(
                FitProgress {
                    n_trees: n,
                    last_refit: if s.last_refit < n {
                        s.last_refit
                    } else {
                        n
                    },
                    ..s
                },
            )
        },
        Step::RefitEnd => FitProgress { last_refit: s.n_trees, step: Step::Done, ..s },
        Step::Done => s,
    }
}

/// How many steps a round can still take from a step on.
pub open spec fn steps_left(step: Step) -> int {
    match step {
        Step::Grow => 7,
        Step::RefitTree => 6,
        Step::Correct => 5,
        Step::RefitCorrection => 4,
        Step::Score => 3,
        Step::Truncate => 2,
        Step::RefitEnd => 1,
        Step::Done => 0,
    }
}

impl FitProgress {
    /// What every state of a fit keeps: counts are in order, a watched score is
    /// there, and a fit past its rounds has the trees of the best score.
    pub open spec fn wf(&self) -> bool {
        &&& refit_fault(self.plan.refit) is None
        &&& self.round <= self.plan.n_rounds
        &&& self.step is Grow || self.step is RefitTree || self.step is Correct
            || self.step is RefitCorrection || self.step is Score ==> self.round < self.plan.n_rounds
        &&& self.n_trees <= 2 * self.round + (if self.step is Grow {
            0int
        } else if self.step is RefitTree || self.step is Correct {
            1
        } else {
            2
        })
        &&& self.last_refit <= self.n_trees
        &&& self.best_count <= self.n_trees
        &&& self.plan.has_validation ==> self.best is Some
        &&& self.step is Score ==> self.plan.has_validation
        &&& self.step is Truncate ==> self.plan.has_validation
        &&& (self.step is RefitEnd || self.step is Done) && self.plan.has_validation
            ==> self.n_trees == self.best_count
        &&& self.step is Done && self.plan.refit is Ridge && self.n_trees > 0 ==> self.last_refit
            == self.n_trees
    }

    /// A bound on the steps to come.
    pub open spec fn measure(&self) -> int {
        8 * (self.plan.n_rounds - self.round) + steps_left(self.step)
    }

    /// The start of a fit; `initial` is the validation deviance without trees,
    /// where one is watched.
    pub fn start(plan: FitPlan, initial: Option<F64>) -> (s: FitProgress)
        requires
            refit_fault(plan.refit) is None,
            plan.n_rounds > 0,
            plan.has_validation ==> initial is Some,
        ensures
            s.wf(),
            s == (FitProgress {
                plan,
                round: 0,
                n_trees: 0,
                last_refit: 0,
                best: initial,
                best_count: 0,
                step: Step::Grow,
            }),
    {
        FitProgress {
            plan,
            round: 0,
            n_trees: 0,
            last_refit: 0,
            best: initial,
            best_count: 0,
            step: Step::Grow,
        }
    }

    fn set_at_end(&mut self)
        ensures
            *final(self) == at_end(*old(self)),
    {
        if should_refit_at_end(&self.plan.refit, self.n_trees, self.last_refit) {
            self.step = Step::RefitEnd;
        } else {
            self.step = Step::Done;
        }
    }

    fn set_after_rounds(&mut self)
        ensures
            *final(self) == after_rounds(*old(self)),
    {
        if self.plan.has_validation && self.best_count < self.n_trees {
            self.step = Step::Truncate;
        } else {
            self.set_at_end();
        }
    }

    fn set_after_round(&mut self)
        requires
            old(self).round < old(self).plan.n_rounds,
        ensures
            *final(self) == after_round(*old(self)),
    {
        self.round = self.round + 1;
        if self.round < self.plan.n_rounds {
            self.step = Step::Grow;
        } else {
            self.set_after_rounds();
        }
    }

    fn set_after_trees(&mut self)
        requires
            old(self).round < old(self).plan.n_rounds,
        ensures
            *final(self) == after_trees(*old(self)),
    {
        if self.plan.has_validation {
            self.step = Step::Score;
        } else {
            self.set_after_round();
        }
    }

    fn set_after_main(&mut self)
        requires
            old(self).round < old(self).plan.n_rounds,
        ensures
            *final(self) == after_main(*old(self)),
    {
        if self.plan.correction {
            self.step = Step::Correct;
        } else {
            self.set_after_trees();
        }
    }

    /// Moves a fit on by what came of its step. Every move brings it closer to
    /// its end.
    pub fn advance(&mut self, o: Outcome)
        requires
            old(self).wf(),
            fits(*old(self), o),
        ensures
            *final(self) == next(*old(self), o),
            final(self).wf(),
            0 <= final(self).measure() < old(self).measure(),
    {
        match self.step {
            Step::Grow => match o {
                Outcome::Grew => {
                    self.n_trees = self.n_trees + 1;
                    if should_refit_after_round(&self.plan.refit, self.n_trees) {
                        self.step = Step::RefitTree;
                    } else {
                        self.set_after_main();
                    }
                },
                _ => {
                    self.set_after_rounds();
                },
            },
            Step::RefitTree => {
                self.last_refit = self.n_trees;
                self.set_after_main();
            },
            Step::Correct => match o {
                Outcome::Grew => {
                    self.n_trees = self.n_trees + 1;
                    if should_refit_after_round(&self.plan.refit, self.n_trees) {
                        self.step = Step::RefitCorrection;
                    } else {
                        self.set_after_trees();
                    }
                },
                _ => {
                    self.set_after_trees();
                },
            },
            Step::RefitCorrection => {
                self.last_refit = self.n_trees;
                self.set_after_trees();
            },
            Step::Score => match o {
                Outcome::Scored(d) => {
                    let improved: bool = match self.best {
                        None => true,
                        Some(b) => d.lt(&b),
                    };
                    if improved {
                        self.best = Some(d);
                        self.best_count = self.n_trees;
                        self.set_after_round();
                    } else if self.n_trees - self.best_count
                        >= self.plan.early_stopping_rounds as u64 {
                        self.set_after_rounds();
                    } else {
                        self.set_after_round();
                    }
                },
                _ => {},
            },
            Step::Truncate => {
                self.n_trees = self.best_count;
                if self.last_refit >= self.n_trees {
                    self.last_refit = self.n_trees;
                }
                self.set_at_end();
            },
            Step::RefitEnd => {
                self.last_refit = self.n_trees;
                self.step = Step::Done;
            },
            Step::Done => {},
        }
    }
}

/// The state at the start of a fit.
pub open spec fn started(plan: FitPlan, initial: Option<F64>) -> FitProgress {
    FitProgress {
        plan,
        round: 0,
        n_trees: 0,
        last_refit: 0,
        best: initial,
        best_count: 0,
        step: Step::Grow,
    }
}

/// Whether every outcome of a course fits the step it comes of.
pub open spec fn runs(s: FitProgress, course: Seq<Outcome>) -> bool
    decreases course.len(),
{
    course.len() == 0 || (runs(s, course.drop_last()) && fits(
        after(s, course.drop_last()),
        course.last(),
    ))
}

/// How far a fit is after a course of outcomes.
pub open spec fn after(s: FitProgress, course: Seq<Outcome>) -> FitProgress
    decreases course.len(),
{
    if course.len() == 0 {
        s
    } else {
        next(after(s, course.drop_last()), course.last())
    }
}

/// One step keeps the state sound and brings it closer to its end.
pub proof fn lemma_next(s: FitProgress, o: Outcome)
    requires
        s.wf(),
        fits(s, o),
    ensures
        next(s, o).wf(),
        0 <= next(s, o).measure() < s.measure(),
{
}

/// A fit always ends: no course is longer than the start allows.
pub proof fn law_fit_ends(s: FitProgress, course: Seq<Outcome>)
    requires
        s.wf(),
        runs(s, course),
    ensures
        after(s, course).wf(),
        0 <= after(s, course).measure() <= s.measure() - course.len(),
    decreases course.len(),
{
    if course.len() > 0 {
        law_fit_ends(s, course.drop_last());
        lemma_next(after(s, course.drop_last()), course.last());
    }
}

/// No validation score that was seen beats the one that is kept.
pub proof fn law_best_score_is_kept(s: FitProgress, course: Seq<Outcome>, i: int)
    requires
        s.wf(),
        runs(s, course),
        0 <= i < course.len(),
        course[i] is Scored,
    ensures
        after(s, course).best is Some,
        !(course[i]->Scored_0).below(after(s, course).best->0),
    decreases course.len(),
{
    let rest = course.drop_last();
    let t = after(s, rest);
    let o = course.last();
    law_fit_ends(s, rest);
    if i < rest.len() {
        assert(rest[i] == course[i]);
        law_best_score_is_kept(s, rest, i);
    }
}

/// A fit that watches a validation score ends with the trees of the best one.
pub proof fn law_done_has_best_trees(s: FitProgress, course: Seq<Outcome>)
    requires
        s.wf(),
        runs(s, course),
        after(s, course).step is Done,
        after(s, course).plan.has_validation,
    ensures
        after(s, course).n_trees == after(s, course).best_count,
{
    law_fit_ends(s, course);
}

/// A fit with refits ends with every tree refitted.
pub proof fn law_done_is_refitted(s: FitProgress, course: Seq<Outcome>)
    requires
        s.wf(),
        runs(s, course),
        after(s, course).step is Done,
        after(s, course).plan.refit is Ridge,
        after(s, course).n_trees > 0,
    ensures
        after(s, course).last_refit == after(s, course).n_trees,
{
    law_fit_ends(s, course);
}

/// Patience: a score that is not better, with rounds left to go, ends the rounds
/// exactly when at least `early_stopping_rounds` trees were added since the best
/// one; otherwise the next round begins and nothing else changes.
pub proof fn law_patience_is_as_long_as_planned(s: FitProgress, d: F64)
    requires
        s.wf(),
        s.step is Score,
        s.best is Some,
        !d.below(s.best->0),
        s.round + 1 < s.plan.n_rounds,
    ensures
        next(s, Outcome::Scored(d)).step is Grow <==> s.n_trees - s.best_count
            < s.plan.early_stopping_rounds,
        s.n_trees - s.best_count < s.plan.early_stopping_rounds ==> next(s, Outcome::Scored(d)) == (
        FitProgress { round: (s.round + 1) as u32, step: Step::Grow, ..s }),
        s.n_trees - s.best_count >= s.plan.early_stopping_rounds ==> {
            let t = next(s, Outcome::Scored(d));
            &&& t.step is Truncate || t.step is RefitEnd || t.step is Done
            &&& s.best_count < s.n_trees ==> t.step is Truncate
            &&& t.n_trees == s.n_trees
            &&& t.best_count == s.best_count
        },
{
}

/// A better score is kept with the number of trees it was seen at, and never
/// stops a fit that has rounds left.
pub proof fn law_better_scores_go_on(s: FitProgress, d: F64)
    requires
        s.wf(),
        s.step is Score,
        s.best is Some,
        d.below(s.best->0),
    ensures
        next(s, Outcome::Scored(d)).best == Some(d),
        next(s, Outcome::Scored(d)).best_count == s.n_trees,
        s.round + 1 < s.plan.n_rounds ==> next(s, Outcome::Scored(d)).step is Grow,
        next(s, Outcome::Scored(d)).n_trees == s.n_trees,
{
}

/// A grown tree is one tree more; a refit, a score, or growth that finds no split
/// leaves the number as it is; truncation goes back to the best one.
pub proof fn law_trees_are_counted(s: FitProgress, o: Outcome)
    requires
        s.wf(),
        fits(s, o),
    ensures
        o is Grew ==> next(s, o).n_trees == s.n_trees + 1,
        o is Truncated ==> next(s, o).n_trees == s.best_count,
        !(o is Grew) && !(o is Truncated) ==> next(s, o).n_trees == s.n_trees,
        next(s, o).plan == s.plan,
        !(o is Scored) ==> next(s, o).best == s.best && next(s, o).best_count == s.best_count,
{
}

/// Leaves are refitted right after a tree exactly when the number of trees is a
/// multiple of the planned interval, and a refit is remembered by that number.
pub proof fn law_refits_keep_their_interval(s: FitProgress, o: Outcome)
    requires
        s.wf(),
        fits(s, o),
    ensures
        o is Grew ==> (next(s, o).step is RefitTree || next(s, o).step is RefitCorrection <==> match
            s.plan.refit {
            RefitSpec::Ridge { l2: _, max_iter: _, every_k_trees: Some(k) } => (s.n_trees + 1)
                % (k as int) == 0,
            _ => false,
        }),
        !(o is Grew) ==> !(next(s, o).step is RefitTree) && !(next(s, o).step is RefitCorrection),
        o is Refitted ==> next(s, o).last_refit == s.n_trees,
        next(s, o).step is RefitEnd ==> s.plan.refit is Ridge,
{
}

/// The steps of a round come in order: the tree, its correction where one is
/// planned, the score where one is watched, and the next round while there is one;
/// growth that finds no split for its tree ends the rounds.
pub proof fn law_rounds_keep_their_order(s: FitProgress, o: Outcome)
    requires
        s.wf(),
        fits(s, o),
    ensures
        s.step is Grow && o is NoSplit ==> {
            let t = next(s, o);
            t.step is Truncate || t.step is RefitEnd || t.step is Done
        },
        s.step is Grow && o is Grew ==> {
            let t = next(s, o);
            &&& t.step is Correct ==> s.plan.correction
            &&& t.step is Score ==> s.plan.has_validation && !s.plan.correction
            &&& t.step is RefitTree || s.plan.correction ==> t.step is RefitTree || t.step is Correct
            &&& s.plan.has_validation ==> t.step is RefitTree || t.step is Correct || t.step is Score
        },
        s.step is RefitTree && s.plan.correction ==> next(s, o).step is Correct,
        s.step is RefitTree && !s.plan.correction && s.plan.has_validation ==> next(s, o).step
            is Score,
        s.step is Correct && s.plan.has_validation ==> next(s, o).step is Score || (o is Grew && next(
            s,
            o,
        ).step is RefitCorrection),
        s.step is RefitCorrection && s.plan.has_validation ==> next(s, o).step is Score,
        // Without a score to watch, the next round begins while one is left.
        !s.plan.has_validation && s.round + 1 < s.plan.n_rounds && (s.step is RefitCorrection
            || s.step is Correct && o is NoSplit || s.step is RefitTree && !s.plan.correction)
            ==> next(s, o).step is Grow && next(s, o).round == s.round + 1,
        next(s, o).step is Grow ==> next(s, o).round == s.round + 1 && next(s, o).round
            < s.plan.n_rounds,
        !(next(s, o).step is Grow) ==> next(s, o).round == s.round || next(s, o).round
            == s.plan.n_rounds,
{
}

/// A fit that watches no score and finds a split for every tree runs all its
/// rounds, with one tree for each, or two where each is corrected.
pub proof fn law_unwatched_fits_run_all_rounds(plan: FitPlan, course: Seq<Outcome>)
    requires
        refit_fault(plan.refit) is None,
        plan.n_rounds > 0,
        !plan.has_validation,
        runs(started(plan, None), course),
        forall|i: int| 0 <= i < course.len() ==> !((#[trigger] course[i]) is NoSplit),
    ensures
        ({
            let t = after(started(plan, None), course);
            let each: int = if plan.correction {
                2
            } else {
                1
            };
            &&& t.step is RefitEnd || t.step is Done ==> t.n_trees == plan.n_rounds * each
            &&& t.step is Grow ==> t.n_trees == t.round * each
            &&& t.step is RefitTree || t.step is Correct ==> t.n_trees == t.round * each + 1
            &&& t.step is RefitCorrection ==> t.n_trees == t.round * each + 2 && plan.correction
            &&& t.plan == plan
            &&& !(t.step is Score) && !(t.step is Truncate)
        }),
    decreases course.len(),
{
    law_fit_ends(started(plan, None), course);
    if course.len() > 0 {
        let rest = course.drop_last();
        assert forall|i: int| 0 <= i < rest.len() implies !((#[trigger] rest[i]) is NoSplit) by {
            assert(rest[i] == course[i]);
        }
        law_fit_ends(started(plan, None), rest);
        law_unwatched_fits_run_all_rounds(plan, rest);
        assert(!(course[course.len() - 1] is NoSplit));
    }
}

/// The best score was seen at the number of trees that is kept with it: it is one
/// of the scores of the course, or that of the start.
#[verifier::spinoff_prover]
#[verifier::rlimit(60)]
pub proof fn law_best_trees_are_those_of_the_best_score(s: FitProgress, course: Seq<Outcome>)
    requires
        s.wf(),
        runs(s, course),
    ensures
        ({
            let t = after(s, course);
            ||| t.best == s.best && t.best_count == s.best_count
            ||| exists|i: int|
                {
                    &&& 0 <= i < course.len()
                    &&& (#[trigger] course[i]) is Scored
                    &&& t.best == Some(course[i]->Scored_0)
                    &&& t.best_count == after(s, course.take(i)).n_trees
                }
        }),
    decreases course.len(),
{
    if course.len() > 0 {
        let rest = course.drop_last();
        let n = course.len() - 1;
        law_best_trees_are_those_of_the_best_score(s, rest);
        let (u, t) = (after(s, rest), after(s, course));
        assert(course.take(n) =~= rest);
        if t.best == u.best && t.best_count == u.best_count {
            if !(t.best == s.best && t.best_count == s.best_count) {
                let i = choose|i: int|
                    {
                        &&& 0 <= i < rest.len()
                        &&& (#[trigger] rest[i]) is Scored
                        &&& u.best == Some(rest[i]->Scored_0)
                        &&& u.best_count == after(s, rest.take(i)).n_trees
                    };
                assert(rest[i] == course[i]);
                assert(rest.take(i) =~= course.take(i));
            }
        } else {
            assert(course[n] is Scored);
        }
    }
}

/// No score ends the rounds too soon: where rounds were left and the course goes
/// on to no further tree after a score, at least `early_stopping_rounds` trees
/// were added since the best one.
pub proof fn law_no_fit_stops_too_soon(s: FitProgress, course: Seq<Outcome>)
    requires
        s.wf(),
        runs(s, course),
        course.len() > 0,
        course.last() is Scored,
        after(s, course.drop_last()).round + 1 < s.plan.n_rounds,
        !(after(s, course).step is Grow),
    ensures
        after(s, course).n_trees - after(s, course).best_count >= s.plan.early_stopping_rounds,
{
    let rest = course.drop_last();
    law_fit_ends(s, rest);
    lemma_plan_stays(s, rest);
}

proof fn lemma_plan_stays(s: FitProgress, course: Seq<Outcome>)
    ensures
        after(s, course).plan == s.plan,
    decreases course.len(),
{
    if course.len() > 0 {
        lemma_plan_stays(s, course.drop_last());
    }
}

/// The leaf map of growth covers all training rows exactly when growth saw as
/// many rows as there are: a sample of the training rows that is as long as
/// they are is all of them.
pub proof fn law_full_sample_is_all_rows(sample: Seq<u32>, rows: Seq<u32>)
    requires
        crate::engine::rows::rows_ascend(sample),
        crate::engine::rows::rows_ascend(rows),
        forall|r: u32| #[trigger] sample.contains(r) ==> rows.contains(r),
        sample.len() == rows.len(),
    ensures
        sample == rows,
{
    assert(sample.no_duplicates() && rows.no_duplicates());
    sample.unique_seq_to_set();
    rows.unique_seq_to_set();
    assert(sample.to_set().subset_of(rows.to_set())) by {
        assert forall|r: u32| sample.to_set().contains(r) implies rows.to_set().contains(r) by {
            assert(sample.contains(r));
        }
    }
    vstd::set_lib::lemma_subset_equality(sample.to_set(), rows.to_set());
    assert forall|r: u32| #[trigger] rows.contains(r) implies sample.contains(r) by {
        assert(rows.to_set().contains(r));
        assert(sample.to_set().contains(r));
    }
    lemma_ascending_equal(sample, rows, sample.len() as int);
    assert(sample =~= rows);
}

proof fn lemma_ascending_equal(a: Seq<u32>, b: Seq<u32>, n: int)
    requires
        crate::engine::rows::rows_ascend(a),
        crate::engine::rows::rows_ascend(b),
        a.len() == b.len(),
        forall|r: u32| #[trigger] a.contains(r) <==> b.contains(r),
        0 <= n <= a.len(),
    ensures
        forall|i: int| 0 <= i < n ==> a[i] == b[i],
    decreases n,
{
    if n > 0 {
        lemma_ascending_equal(a, b, n - 1);
        let i = n - 1;
        assert(b.contains(a[i]) && a.contains(b[i])) by {
            assert(a.contains(a[i]));
            assert(b.contains(b[i]));
        }
        let p = choose|p: int| 0 <= p < b.len() && b[p] == a[i];
        let q = choose|q: int| 0 <= q < a.len() && a[q] == b[i];
        if p < i {
            assert(a[p] == b[p]);
        }
        if q < i {
            assert(a[q] == b[q]);
        }
        if p > i && q > i {
            assert(b[i] < b[p]);
            assert(a[i] < a[q]);
        }
    }
}

} // verus!
