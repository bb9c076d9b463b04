//! The searches that refine leaf values.
//!
//! Leaf refinement takes damped Newton steps: each step proposes a change of the
//! leaves and halves it until the deviance falls, or gives up. A fully-corrective
//! refit does the same with the solution of a linear system. The caller computes
//! deltas and deviances; what to try and when to stop is decided here.
use crate::boosters::config::RefitSpec;
use crate::float::F64;
use vstd::prelude::*;

verus! {

/// What a line search does next.
#[derive(Debug, Clone, Copy, PartialEq, Eq, Structural)]
pub enum SearchStep {
    /// Propose a change of the leaves.
    Propose,
    /// Try the change, halved this many times.
    Try { halvings: u32 },
    /// Nothing is left to do.
    Done,
}

/// The state of a line search.
#[derive(Debug, Clone, Copy, PartialEq, Eq, Structural)]
pub struct LineSearch {
    /// At most this many accepted steps.
    pub max_steps: u32,
    /// At most this many trials per step.
    pub max_trials: u32,
    /// The number of accepted steps.
    pub accepted: u32,
    /// The deviance of the current leaves.
    pub best: F64,
    pub step: SearchStep,
}

/// A search that has accepted `n` steps.
pub open spec fn searching(s: LineSearch, n: u32, best: F64) -> LineSearch {
    LineSearch {
        accepted: n,
        best,
        step: if n < s.max_steps {
            SearchStep::Propose
        } else {
            SearchStep::Done
        },
        ..s
    }
}

impl LineSearch {
    /// A search stays within its limits.
    pub open spec fn wf(&self) -> bool {
        &&& self.accepted <= self.max_steps
        &&& !(self.step is Done) ==> self.accepted < self.max_steps
        &&& self.step matches SearchStep::Try { halvings } ==> halvings < self.max_trials
    }

    /// A bound on the steps to come.
    pub open spec fn measure(&self) -> int {
        (self.max_steps - self.accepted) * (self.max_trials + 2) + (match self.step {
            SearchStep::Propose => self.max_trials + 1,
            SearchStep::Try { halvings } => self.max_trials - halvings,
            SearchStep::Done => 0,
        })
    }

    /// Starts a search from leaves with the given deviance.
    pub fn start(max_steps: u32, max_trials: u32, deviance: F64) -> (s: LineSearch)
        ensures
            s.wf(),
            s.max_steps == max_steps,
            s.max_trials == max_trials,
            s == searching(s, 0, deviance),
    {
        LineSearch {
            max_steps,
            max_trials,
            accepted: 0,
            best: deviance,
            step: if 0 < max_steps {
                SearchStep::Propose
            } else {
                SearchStep::Done
            },
        }
    }

    /// Reports whether a proposed change moves any leaf. Without one, or without
    /// a trial to spend on it, the search ends.
    pub fn proposed(&mut self, any: bool)
        requires
            old(self).wf(),
            old(self).step is Propose,
        ensures
            final(self).wf(),
            *final(self) == (LineSearch {
                step: if any && old(self).max_trials > 0 {
                    SearchStep::Try { halvings: 0 }
                } else {
                    SearchStep::Done
                },
                ..*old(self)
            }),
            0 <= final(self).measure() < old(self).measure(),
    {
        proof {
            assert((self.max_steps - self.accepted) * (self.max_trials + 2) >= 0) by (nonlinear_arith)
                requires
                    self.accepted <= self.max_steps,
            ;
        }
        if any && self.max_trials > 0 {
            self.step = SearchStep::Try { halvings: 0 };
        } else {
            self.step = SearchStep::Done;
        }
    }

    /// Reports the deviance of a trial, and says whether the trial is accepted:
    /// exactly where it lowers the deviance. A refused trial is halved again
    /// while trials are left; otherwise the search ends.
    pub fn tried(&mut self, deviance: F64) -> (accept: bool)
        requires
            old(self).wf(),
            old(self).step is Try,
        ensures
            accept == deviance.below(old(self).best),
            final(self).wf(),
            accept ==> *final(self) == searching(
                *old(self),
                (old(self).accepted + 1) as u32,
                deviance,
            ),
            !accept ==> *final(self) == (LineSearch {
                step: if old(self).step->halvings + 1 < old(self).max_trials {
                    SearchStep::Try { halvings: (old(self).step->halvings + 1) as u32 }
                } else {
                    SearchStep::Done
                },
                ..*old(self)
            }),
            0 <= final(self).measure() < old(self).measure(),
    {
        let halvings: u32 = match self.step {
            SearchStep::Try { halvings } => halvings,
            _ => 0,
        };
        proof {
            let a = self.max_steps - self.accepted;
            let t = self.max_trials + 2;
            assert((a - 1) * t == a * t - t) by (nonlinear_arith);
            assert((a - 1) * t >= 0) by (nonlinear_arith)
                requires
                    a >= 1,
                    t >= 0,
            ;
        }
        if deviance.lt(&self.best) {
            self.accepted = self.accepted + 1;
            self.best = deviance;
            if self.accepted < self.max_steps {
                self.step = SearchStep::Propose;
            } else {
                self.step = SearchStep::Done;
            }
            true
        } else {
            if halvings + 1 < self.max_trials {
                self.step = SearchStep::Try { halvings: halvings + 1 };
            } else {
                self.step = SearchStep::Done;
            }
            false
        }
    }
}

/// What is reported to a line search.
pub enum Report {
    Proposed(bool),
    Tried(F64),
}

/// Whether a report fits the state.
pub open spec fn report_fits(s: LineSearch, r: Report) -> bool {
    match r {
        Report::Proposed(_) => s.step is Propose,
        Report::Tried(_) => s.step is Try,
    }
}

/// The state after a report, as [`LineSearch::proposed`] and
/// [`LineSearch::tried`] leave it.
pub open spec fn reported(s: LineSearch, r: Report) -> LineSearch {
    match r {
        Report::Proposed(any) => LineSearch {
            step: if any && s.max_trials > 0 {
                SearchStep::Try { halvings: 0 }
            } else {
                SearchStep::Done
            },
            ..s
        },
        Report::Tried(d) => if d.below(s.best) {
            searching(s, (s.accepted + 1) as u32, d)
        } else {
            LineSearch {
                step: if s.step->halvings + 1 < s.max_trials {
                    SearchStep::Try { halvings: (s.step->halvings + 1) as u32 }
                } else {
                    SearchStep::Done
                },
                ..s
            }
        },
    }
}

/// The state after a course of reports.
pub open spec fn after_reports(s: LineSearch, course: Seq<Report>) -> LineSearch
    decreases course.len(),
{
    if course.len() == 0 {
        s
    } else {
        reported(after_reports(s, course.drop_last()), course.last())
    }
}

/// Whether every report of a course fits.
pub open spec fn course_fits(s: LineSearch, course: Seq<Report>) -> bool
    decreases course.len(),
{
    course.len() == 0 || (course_fits(s, course.drop_last()) && report_fits(
        after_reports(s, course.drop_last()),
        course.last(),
    ))
}

/// Refinement never raises the deviance: whatever is reported, the leaves that
/// are kept are not worse than those at the start.
pub proof fn law_refinement_does_not_raise_deviance(s: LineSearch, course: Seq<Report>)
    requires
        s.wf(),
        course_fits(s, course),
    ensures
        !s.best.below(after_reports(s, course).best),
        after_reports(s, course).best == s.best || after_reports(s, course).best.below(s.best),
    decreases course.len(),
{
    if course.len() > 0 {
        law_refinement_does_not_raise_deviance(s, course.drop_last());
    }
}

/// At most this many trials of a refit per solution.
pub const REFIT_MAX_BACKTRACKS: u32 = 32;

/// What a fully-corrective refit does next.
#[derive(Debug, Clone, Copy, PartialEq, Eq, Structural)]
pub enum RefitStep {
    /// Solve the normal equations.
    Solve,
    /// Try the way to the solution, halved this many times.
    Try { halvings: u32 },
    Done,
}

/// The state of a fully-corrective refit.
#[derive(Debug, Clone, Copy, PartialEq, Eq, Structural)]
pub struct RefitSearch {
    pub max_iter: u8,
    /// The number of accepted passes.
    pub iter: u8,
    /// The deviance of the leaves as they stand, once it is known.
    pub standing: Option<F64>,
    pub step: RefitStep,
}

/// The number of passes that a refit may take.
pub open spec fn refit_passes(refit: RefitSpec) -> u8 {
    match refit {
        RefitSpec::Off => 0,
        RefitSpec::Ridge { max_iter, .. } => max_iter,
    }
}

/// Whether a trial of a refit is kept: its deviance is a number within the limit.
pub open spec fn refit_accepts(deviance: F64, limit: F64) -> bool {
    deviance.finite() && deviance.at_most(limit)
}

/// A refit that has kept a trial: it goes on while the deviance still moves and
/// passes are left.
pub open spec fn refit_kept(s: RefitSearch, deviance: F64, gap: F64, slack: F64) -> RefitSearch {
    RefitSearch {
        iter: (s.iter + 1) as u8,
        standing: Some(deviance),
        step: if !gap.at_most(slack) && s.iter + 1 < s.max_iter {
            RefitStep::Solve
        } else {
            RefitStep::Done
        },
        ..s
    }
}

/// A refit that has dropped a trial: the step is halved again while trials are
/// left.
pub open spec fn refit_dropped(s: RefitSearch) -> RefitSearch {
    RefitSearch {
        step: if s.step->halvings + 1 < REFIT_MAX_BACKTRACKS {
            RefitStep::Try { halvings: (s.step->halvings + 1) as u32 }
        } else {
            RefitStep::Done
        },
        ..s
    }
}

/// A refit whose system is solved. The first solution brings the deviance of the
/// leaves with it; later it is that of the trial kept last.
pub open spec fn refit_solved(s: RefitSearch, deviance: F64) -> RefitSearch {
    RefitSearch {
        standing: if s.standing is None {
            Some(deviance)
        } else {
            s.standing
        },
        step: RefitStep::Try { halvings: 0 },
        ..s
    }
}

impl RefitSearch {
    /// A refit stays within its limits.
    pub open spec fn wf(&self) -> bool {
        &&& self.iter <= self.max_iter
        &&& !(self.step is Done) ==> self.iter < self.max_iter
        &&& self.step matches RefitStep::Try { halvings } ==> halvings < REFIT_MAX_BACKTRACKS
        &&& self.step is Try ==> self.standing is Some
    }

    /// A bound on the steps to come.
    pub open spec fn measure(&self) -> int {
        34 * (self.max_iter - self.iter) + (match self.step {
            RefitStep::Solve => 33,
            RefitStep::Try { halvings } => 32 - halvings,
            RefitStep::Done => 0,
        })
    }

    /// Starts a refit over some trees. Without trees, without passes and where
    /// refitting is off there is nothing to do.
    pub fn start(refit: &RefitSpec, n_trees: usize) -> (s: RefitSearch)
        ensures
            s.wf(),
            s == (RefitSearch {
                max_iter: refit_passes(*refit),
                iter: 0,
                standing: None,
                step: if n_trees > 0 && refit_passes(*refit) > 0 {
                    RefitStep::Solve
                } else {
                    RefitStep::Done
                },
            }),
    {
        let max_iter: u8 = match refit {
            RefitSpec::Off => 0,
            RefitSpec::Ridge { max_iter, .. } => *max_iter,
        };
        let step = if n_trees > 0 && max_iter > 0 {
            RefitStep::Solve
        } else {
            RefitStep::Done
        };
        RefitSearch { max_iter, iter: 0, standing: None, step }
    }

    /// Reports that the system is solved, with the deviance of the leaves.
    pub fn solved(&mut self, deviance: F64)
        requires
            old(self).wf(),
            old(self).step is Solve,
        ensures
            final(self).wf(),
            *final(self) == refit_solved(*old(self), deviance),
            0 <= final(self).measure() < old(self).measure(),
    {
        if self.standing.is_none() {
            self.standing = Some(deviance);
        }
        self.step = RefitStep::Try { halvings: 0 };
    }

    /// Reports a trial and says whether it is kept: exactly where its deviance is
    /// a number within the limit. `gap` is how far the deviance is from that of
    /// the leaves as they stand, and `slack` the distance that counts as none. A
    /// kept trial that still moves starts another pass while passes are left; a
    /// dropped one is halved again while trials are left.
    pub fn tried(&mut self, deviance: F64, limit: F64, gap: F64, slack: F64) -> (accept: bool)
        requires
            old(self).wf(),
            old(self).step is Try,
        ensures
            accept == (deviance.finite() && deviance.at_most(limit)),
            final(self).wf(),
            accept ==> *final(self) == refit_kept(*old(self), deviance, gap, slack),
            !accept ==> *final(self) == refit_dropped(*old(self)),
            0 <= final(self).measure() < old(self).measure(),
    {
        let halvings: u32 = match self.step {
            RefitStep::Try { halvings } => halvings,
            _ => 0,
        };
        if deviance.is_finite() && deviance.le(&limit) {
            self.iter = self.iter + 1;
            self.standing = Some(deviance);
            if !gap.le(&slack) && self.iter < self.max_iter {
                self.step = RefitStep::Solve;
            } else {
                self.step = RefitStep::Done;
            }
            true
        } else {
            if halvings + 1 < REFIT_MAX_BACKTRACKS {
                self.step = RefitStep::Try { halvings: halvings + 1 };
            } else {
                self.step = RefitStep::Done;
            }
            false
        }
    }
}

/// What is reported to a refit.
pub enum RefitReport {
    Solved { deviance: F64 },
    Tried { deviance: F64, limit: F64, gap: F64, slack: F64 },
}

/// Whether a report fits the state.
pub open spec fn refit_report_fits(s: RefitSearch, r: RefitReport) -> bool {
    match r {
        RefitReport::Solved { .. } => s.step is Solve,
        RefitReport::Tried { .. } => s.step is Try,
    }
}

/// Whether a report is a trial that is kept.
pub open spec fn refit_keeps(r: RefitReport) -> bool {
    r matches RefitReport::Tried { deviance, limit, .. } && refit_accepts(deviance, limit)
}

/// The state after a report, as [`RefitSearch::solved`] and
/// [`RefitSearch::tried`] leave it.
pub open spec fn refit_reported(s: RefitSearch, r: RefitReport) -> RefitSearch {
    match r {
        RefitReport::Solved { deviance } => refit_solved(s, deviance),
        RefitReport::Tried { deviance, limit, gap, slack } => if refit_accepts(deviance, limit) {
            refit_kept(s, deviance, gap, slack)
        } else {
            refit_dropped(s)
        },
    }
}

/// The state after a course of reports.
pub open spec fn refit_after(s: RefitSearch, course: Seq<RefitReport>) -> RefitSearch
    decreases course.len(),
{
    if course.len() == 0 {
        s
    } else {
        refit_reported(refit_after(s, course.drop_last()), course.last())
    }
}

/// Whether every report of a course fits.
pub open spec fn refit_course_fits(s: RefitSearch, course: Seq<RefitReport>) -> bool
    decreases course.len(),
{
    course.len() == 0 || (refit_course_fits(s, course.drop_last()) && refit_report_fits(
        refit_after(s, course.drop_last()),
        course.last(),
    ))
}

/// Whether no kept trial of a course raises the deviance by more than its slack.
pub open spec fn rises_within_slack(s: RefitSearch, course: Seq<RefitReport>) -> bool
    decreases course.len(),
{
    course.len() == 0 || {
        &&& rises_within_slack(s, course.drop_last())
        &&& course.last() matches RefitReport::Tried { deviance, limit, gap, slack }
            ==> refit_accepts(deviance, limit) ==> refit_after(
            s,
            course.drop_last(),
        ).standing->Some_0.below(deviance) ==> gap.at_most(slack)
    }
}

/// A refit keeps only what its rule admits: after any course of reports, the
/// deviance of the leaves is that of the first solution or that of a kept trial,
/// which is a number within the trial's limit.
pub proof fn law_refit_keeps_only_trials_within_their_limit(
    s: RefitSearch,
    course: Seq<RefitReport>,
)
    requires
        s.wf(),
        s.standing is None,
        refit_course_fits(s, course),
    ensures
        refit_after(s, course).wf(),
        course.len() == 0 ==> refit_after(s, course).standing is None,
        course.len() > 0 ==> course[0] is Solved,
        course.len() > 0 ==> (refit_after(s, course).standing == Some(course[0]->Solved_deviance)
            || exists|i: int|
            0 < i < course.len() && refit_keeps(#[trigger] course[i]) && refit_after(
                s,
                course,
            ).standing == Some(course[i]->Tried_deviance)),
    decreases course.len(),
{
    if course.len() > 0 {
        let before = course.drop_last();
        law_refit_keeps_only_trials_within_their_limit(s, before);
        let mid = refit_after(s, before);
        if course.len() > 1 {
            assert(course[0] == before[0]);
            if refit_keeps(course.last()) {
                assert(course[course.len() - 1] == course.last());
            } else if mid.standing != Some(course[0]->Solved_deviance) {
                let i = choose|i: int|
                    0 < i < before.len() && refit_keeps(#[trigger] before[i]) && mid.standing
                        == Some(before[i]->Tried_deviance);
                assert(course[i] == before[i]);
            }
        }
    }
}

/// A refit does not raise the deviance: while it goes on, the leaves are not
/// worse than at its start. They are worse at its end only where the trial kept
/// last stopped it by hardly moving, within the limit of that trial.
pub proof fn law_refit_does_not_raise_deviance(s: RefitSearch, course: Seq<RefitReport>)
    requires
        s.wf(),
        s.standing is None,
        course.len() > 0,
        refit_course_fits(s, course),
        rises_within_slack(s, course),
    ensures
        course[0] is Solved,
        refit_after(s, course).standing is Some,
        ({
            let first = course[0]->Solved_deviance;
            let end = refit_after(s, course).standing->Some_0;
            first.below(end) ==> {
                &&& refit_after(s, course).step is Done
                &&& refit_keeps(course.last())
                &&& end == course.last()->Tried_deviance
                &&& end.at_most(course.last()->limit)
                &&& course.last()->gap.at_most(course.last()->slack)
            }
        }),
    decreases course.len(),
{
    law_refit_keeps_only_trials_within_their_limit(s, course);
    let before = course.drop_last();
    if before.len() > 0 {
        law_refit_keeps_only_trials_within_their_limit(s, before);
        law_refit_does_not_raise_deviance(s, before);
        assert(course[0] == before[0]);
        let mid = refit_after(s, before);
        if mid.standing != Some(course[0]->Solved_deviance) {
            let i = choose|i: int|
                0 < i < before.len() && refit_keeps(#[trigger] before[i]) && mid.standing == Some(
                    before[i]->Tried_deviance,
                );
            assert(mid.standing->Some_0.finite());
        }
    }
}

/// The next step of a search, read off what was reported: a proposal is tried once
/// any leaf moves; a trial that lowers the deviance is accepted and leads to the
/// next proposal while steps are left; one that does not is halved until
/// `max_trials` trials are used up.
pub proof fn law_a_search_tries_as_often_as_planned(s: LineSearch, d: F64)
    requires
        s.wf(),
    ensures
        s.step is Propose && s.max_trials > 0 ==> reported(s, Report::Proposed(true)).step == (
        SearchStep::Try { halvings: 0 }),
        s.step is Propose ==> reported(s, Report::Proposed(false)).step is Done,
        s.step matches SearchStep::Try { halvings } ==> {
            let t = reported(s, Report::Tried(d));
            &&& d.below(s.best) ==> t.best == d && t.accepted == s.accepted + 1 && (t.step is Propose
                <==> s.accepted + 1 < s.max_steps) && (t.step is Propose || t.step is Done)
            &&& !d.below(s.best) ==> t.best == s.best && t.accepted == s.accepted && (t.step is Try
                <==> halvings + 1 < s.max_trials) && (t.step matches SearchStep::Try { halvings: h }
                ==> h == halvings + 1) && (t.step is Try || t.step is Done)
        },
{
}

/// How many reports of a course lowered the best deviance before them.
pub open spec fn lowered(s: LineSearch, course: Seq<Report>) -> nat
    decreases course.len(),
{
    if course.len() == 0 {
        0
    } else {
        lowered(s, course.drop_last()) + if course.last() matches Report::Tried(d) && d.below(
            after_reports(s, course.drop_last()).best,
        ) {
            1nat
        } else {
            0nat
        }
    }
}

/// A refinement takes one step for every trial that lowers the deviance, and no
/// more steps than it may.
pub proof fn law_a_search_steps_once_per_improvement(s: LineSearch, course: Seq<Report>)
    requires
        s.wf(),
        course_fits(s, course),
    ensures
        after_reports(s, course).wf(),
        after_reports(s, course).accepted == s.accepted + lowered(s, course),
        after_reports(s, course).accepted <= s.max_steps,
        after_reports(s, course).max_steps == s.max_steps,
        after_reports(s, course).max_trials == s.max_trials,
    decreases course.len(),
{
    if course.len() > 0 {
        law_a_search_steps_once_per_improvement(s, course.drop_last());
    }
}

/// The next step of a refit, read off what was tried: an accepted trial leads to
/// the next pass while the gap is not within the slack and passes are left; a
/// refused one is halved, 32 trials in all.
pub proof fn law_a_refit_tries_thirty_two_times(
    s: RefitSearch,
    deviance: F64,
    limit: F64,
    gap: F64,
    slack: F64,
)
    requires
        s.wf(),
        s.step is Try,
    ensures
        ({
            let t = refit_reported(s, RefitReport::Tried { deviance, limit, gap, slack });
            &&& deviance.finite() && deviance.at_most(limit) ==> {
                &&& t.iter == s.iter + 1
                &&& t.standing == Some(deviance)
                &&& t.step is Solve <==> !gap.at_most(slack) && s.iter + 1 < s.max_iter
                &&& t.step is Solve || t.step is Done
            }
            &&& !(deviance.finite() && deviance.at_most(limit)) ==> {
                &&& t.iter == s.iter
                &&& t.standing == s.standing
                &&& t.step is Try <==> s.step->halvings < 31
                &&& t.step matches RefitStep::Try { halvings } ==> halvings == s.step->halvings + 1
                &&& t.step is Try || t.step is Done
            }
            &&& t.max_iter == s.max_iter
        }),
{
}

/// A refit runs at most the passes that it was given, and none without trees.
pub proof fn law_refits_run_their_passes(refit: RefitSpec)
    ensures
        refit is Off ==> refit_passes(refit) == 0,
        refit matches RefitSpec::Ridge { max_iter, .. } ==> refit_passes(refit) == max_iter,
{
}

} // verus!
