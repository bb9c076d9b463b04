//! Pooling leaves until they respect the monotone signs.
//!
//! A pass visits the pairs of leaves that differ in one level, level by level, and
//! every pair that breaks its sign is pooled. Passes repeat until one changes
//! nothing, or there have been enough. The caller pools; which pair comes next and
//! when to stop is decided here.
use crate::constraints::MonoSign;
use crate::engine::grow::{law_no_violation_is_monotone, next_violation, violated_at};
use crate::float::F32;
use vstd::arithmetic::power2::*;
use vstd::prelude::*;

verus! {

/// At most this many passes.
pub const CLAMP_PASSES: u32 = 64;

/// What to do next.
#[derive(Debug, Clone, Copy, PartialEq, Eq, Structural)]
pub enum ClampStep {
    /// Give these two leaves their common mean: the leaf of the smaller feature
    /// values, and that of the larger ones.
    Pool { low: usize, high: usize },
    /// No pair breaks its sign.
    Settled,
    /// The passes are used up.
    Spent,
}

/// The state of the pooling.
#[derive(Debug, Clone, Copy, PartialEq, Eq, Structural)]
pub struct Clamp {
    /// The passes before the current one.
    pub passes: u32,
    /// The next step of the current pass.
    pub from: usize,
    /// Whether the current pass has pooled a pair.
    pub changed: bool,
}

/// The steps of a pass: one per level and leaf.
pub open spec fn pass_len(signs: Seq<Option<MonoSign>>, depth: nat) -> int {
    signs.len() * pow2(depth) as int
}

/// The first step from `from` on that breaks a sign, or `end`.
pub open spec fn first_violation(
    leaves: Seq<F32>,
    signs: Seq<Option<MonoSign>>,
    n: int,
    from: int,
    end: int,
) -> int
    decreases end - from,
{
    if from >= end {
        end
    } else if violated_at(leaves, signs, n, from) {
        from
    } else {
        first_violation(leaves, signs, n, from + 1, end)
    }
}

/// The pair of a step.
pub open spec fn pair_at(t: int, n: int) -> ClampStep {
    ClampStep::Pool { low: (t % n + pow2((t / n) as nat)) as usize, high: (t % n) as usize }
}

/// The state and the answer that follow: the next pair of the pass, and otherwise
/// the end, or the first pair of another pass.
pub open spec fn clamp_step(
    c: Clamp,
    leaves: Seq<F32>,
    signs: Seq<Option<MonoSign>>,
    depth: nat,
) -> (Clamp, ClampStep) {
    let n = pow2(depth) as int;
    let end = pass_len(signs, depth);
    let t = first_violation(leaves, signs, n, c.from as int, end);
    let u = first_violation(leaves, signs, n, 0, end);
    if t < end {
        (Clamp { from: (t + 1) as usize, changed: true, ..c }, pair_at(t, n))
    } else if !c.changed {
        (c, ClampStep::Settled)
    } else if c.passes + 1 >= CLAMP_PASSES {
        (c, ClampStep::Spent)
    } else if u < end {
        (
            Clamp { passes: (c.passes + 1) as u32, from: (u + 1) as usize, changed: true },
            pair_at(u, n),
        )
    } else {
        (Clamp { passes: (c.passes + 1) as u32, from: 0, changed: false }, ClampStep::Settled)
    }
}

proof fn lemma_first_violation(
    leaves: Seq<F32>,
    signs: Seq<Option<MonoSign>>,
    n: int,
    from: int,
    t: int,
    end: int,
)
    requires
        from <= t <= end,
        forall|u: int| from <= u < t ==> !(#[trigger] violated_at(leaves, signs, n, u)),
        t < end ==> violated_at(leaves, signs, n, t),
    ensures
        first_violation(leaves, signs, n, from, end) == t,
    decreases t - from,
{
    if from < t {
        lemma_first_violation(leaves, signs, n, from + 1, t, end);
    }
}

proof fn lemma_none_violated(
    leaves: Seq<F32>,
    signs: Seq<Option<MonoSign>>,
    n: int,
    from: int,
    end: int,
)
    requires
        first_violation(leaves, signs, n, from, end) >= end,
    ensures
        forall|u: int| from <= u < end ==> !(#[trigger] violated_at(leaves, signs, n, u)),
    decreases end - from,
{
    if from < end {
        lemma_none_violated(leaves, signs, n, from + 1, end);
    }
}

proof fn lemma_first_violation_range(
    leaves: Seq<F32>,
    signs: Seq<Option<MonoSign>>,
    n: int,
    from: int,
    end: int,
)
    requires
        from <= end,
    ensures
        from <= first_violation(leaves, signs, n, from, end) <= end,
    decreases end - from,
{
    if from < end {
        lemma_first_violation_range(leaves, signs, n, from + 1, end);
    }
}

proof fn lemma_few_steps(signs: int, depth: nat)
    requires
        1 <= depth <= 3,
        0 <= signs <= depth,
    ensures
        0 <= signs * pow2(depth) <= 24,
        2 <= pow2(depth) <= 8,
{
    lemma2_to64();
    let n = pow2(depth) as int;
    if depth == 1 {
        assert(n == 2);
    } else if depth == 2 {
        assert(n == 4);
    } else {
        assert(n == 8);
    }
    assert(0 <= signs * n <= 24) by (nonlinear_arith)
        requires
            0 <= signs <= 3,
            0 <= n <= 8,
    ;
}

impl Clamp {
    /// The state lies within the passes and the steps of one; a pass that has
    /// pooled nothing starts at its first step.
    pub open spec fn wf(&self, end: int) -> bool {
        &&& self.passes < CLAMP_PASSES
        &&& self.from <= end
        &&& !self.changed ==> self.from == 0
    }

    /// A bound on the pairs to come.
    pub open spec fn measure(&self, end: int) -> int {
        (CLAMP_PASSES - 1 - self.passes) * end + (end - self.from)
    }

    /// Before the first pass.
    pub fn start() -> (c: Clamp)
        ensures
            c == (Clamp { passes: 0, from: 0, changed: false }),
            forall|end: int| end >= 0 ==> #[trigger] c.wf(end),
    {
        Clamp { passes: 0, from: 0, changed: false }
    }

    /// What comes next, given the leaves as they stand. Once it is settled, no
    /// pair breaks its sign.
    pub fn next(
        &mut self,
        leaves: &[F32; 8],
        signs: &Vec<Option<MonoSign>>,
        depth: usize,
    ) -> (step: ClampStep)
        requires
            1 <= depth <= 3,
            signs@.len() <= depth,
            old(self).wf(pass_len(signs@, depth as nat)),
        ensures
            (*final(self), step) == clamp_step(*old(self), leaves@, signs@, depth as nat),
            final(self).wf(pass_len(signs@, depth as nat)),
            step is Settled ==> forall|t: int|
                0 <= t < pass_len(signs@, depth as nat) ==> !(#[trigger] violated_at(
                    leaves@,
                    signs@,
                    pow2(depth as nat) as int,
                    t,
                )),
    {
        let ghost n = pow2(depth as nat) as int;
        let ghost end = pass_len(signs@, depth as nat);
        let ghost c = *self;
        proof {
            lemma_few_steps(signs@.len() as int, depth as nat);
        }
        match next_violation(leaves, signs, depth, self.from) {
            Some((t, low, high)) => {
                proof {
                    lemma_first_violation(leaves@, signs@, n, c.from as int, t as int, end);
                }
                self.from = t + 1;
                self.changed = true;
                return ClampStep::Pool { low, high };
            },
            None => {
                proof {
                    lemma_first_violation(leaves@, signs@, n, c.from as int, end, end);
                }
            },
        }
        if !self.changed {
            return ClampStep::Settled;
        }
        if self.passes + 1 >= CLAMP_PASSES {
            return ClampStep::Spent;
        }
        self.passes = self.passes + 1;
        match next_violation(leaves, signs, depth, 0) {
            Some((t, low, high)) => {
                proof {
                    lemma_first_violation(leaves@, signs@, n, 0, t as int, end);
                }
                self.from = t + 1;
                ClampStep::Pool { low, high }
            },
            None => {
                proof {
                    lemma_first_violation(leaves@, signs@, n, 0, end, end);
                }
                self.from = 0;
                self.changed = false;
                ClampStep::Settled
            },
        }
    }
}

/// Settled leaves are monotone in every level: the leaf of the larger feature
/// values is never on the wrong side of that of the smaller.
pub proof fn law_settled_leaves_are_monotone(
    c: Clamp,
    leaves: Seq<F32>,
    signs: Seq<Option<MonoSign>>,
    depth: nat,
    level: int,
    high: int,
)
    requires
        1 <= depth <= 3,
        signs.len() <= depth,
        c.wf(pass_len(signs, depth)),
        clamp_step(c, leaves, signs, depth).1 is Settled,
        0 <= level < signs.len(),
        0 <= high < pow2(depth),
        (high / pow2(level as nat) as int) % 2 == 0,
        high + pow2(level as nat) < 8,
    ensures
        signs[level] == Some(MonoSign::Increasing) ==> !leaves[high].below(
            leaves[high + pow2(level as nat)],
        ),
        signs[level] == Some(MonoSign::Decreasing) ==> !leaves[high + pow2(level as nat)].below(
            leaves[high],
        ),
{
    let n = pow2(depth) as int;
    lemma_none_violated(leaves, signs, n, 0, pass_len(signs, depth));
    law_no_violation_is_monotone(leaves, signs, depth, level, high);
}

/// The state after the leaves of a course, pooled in whatever way.
pub open spec fn clamp_after(
    c: Clamp,
    course: Seq<Seq<F32>>,
    signs: Seq<Option<MonoSign>>,
    depth: nat,
) -> Clamp
    decreases course.len(),
{
    if course.len() == 0 {
        c
    } else {
        clamp_step(clamp_after(c, course.drop_last(), signs, depth), course.last(), signs, depth).0
    }
}

/// Whether every leaves of a course are given a pair to pool.
pub open spec fn always_pools(
    c: Clamp,
    course: Seq<Seq<F32>>,
    signs: Seq<Option<MonoSign>>,
    depth: nat,
) -> bool
    decreases course.len(),
{
    course.len() == 0 || (always_pools(c, course.drop_last(), signs, depth) && clamp_step(
        clamp_after(c, course.drop_last(), signs, depth),
        course.last(),
        signs,
        depth,
    ).1 is Pool)
}

proof fn lemma_pools_are_counted(
    c: Clamp,
    course: Seq<Seq<F32>>,
    signs: Seq<Option<MonoSign>>,
    depth: nat,
)
    requires
        1 <= depth <= 3,
        signs.len() <= depth,
        c.wf(pass_len(signs, depth)),
        always_pools(c, course, signs, depth),
    ensures
        clamp_after(c, course, signs, depth).wf(pass_len(signs, depth)),
        clamp_after(c, course, signs, depth).measure(pass_len(signs, depth)) + course.len()
            <= c.measure(pass_len(signs, depth)),
    decreases course.len(),
{
    if course.len() > 0 {
        let n = pow2(depth) as int;
        let end = pass_len(signs, depth);
        lemma_few_steps(signs.len() as int, depth);
        lemma_pools_are_counted(c, course.drop_last(), signs, depth);
        let before = clamp_after(c, course.drop_last(), signs, depth);
        lemma_first_violation_range(course.last(), signs, n, before.from as int, end);
        lemma_first_violation_range(course.last(), signs, n, 0, end);
        let p = CLAMP_PASSES - 1 - before.passes;
        assert((p - 1) * end == p * end - end) by (nonlinear_arith);
    }
}

/// Pooling ends: however the pairs are pooled, there are no more of them than the
/// passes have steps.
pub proof fn law_clamping_ends(
    course: Seq<Seq<F32>>,
    signs: Seq<Option<MonoSign>>,
    depth: nat,
)
    requires
        1 <= depth <= 3,
        signs.len() <= depth,
        always_pools(Clamp { passes: 0, from: 0, changed: false }, course, signs, depth),
    ensures
        course.len() <= CLAMP_PASSES * pass_len(signs, depth),
{
    let c = Clamp { passes: 0, from: 0, changed: false };
    let end = pass_len(signs, depth);
    lemma_few_steps(signs.len() as int, depth);
    lemma_pools_are_counted(c, course, signs, depth);
    let after = clamp_after(c, course, signs, depth);
    let p = CLAMP_PASSES - 1 - after.passes;
    assert(p * end >= 0) by (nonlinear_arith)
        requires
            p >= 0,
            end >= 0,
    ;
    assert((CLAMP_PASSES - 1) * end + end == CLAMP_PASSES * end) by (nonlinear_arith);
}

/// Only pairs that break their sign are pooled: the pair of a step is one leaf on
/// the high side of a level and its partner on the low side, and the values of the
/// two are in the wrong order for the sign of that level.
pub proof fn law_pooled_pairs_break_their_sign(
    c: Clamp,
    leaves: Seq<F32>,
    signs: Seq<Option<MonoSign>>,
    depth: nat,
) -> (level: nat)
    requires
        1 <= depth <= 3,
        signs.len() <= depth,
        c.wf(pass_len(signs, depth)),
        clamp_step(c, leaves, signs, depth).1 is Pool,
    ensures
        level < signs.len(),
        ({
            let step = clamp_step(c, leaves, signs, depth).1;
            let (low, high) = (step->low as int, step->high as int);
            &&& low == high + pow2(level)
            &&& low < 8
            &&& (high / pow2(level) as int) % 2 == 0
            &&& {
                ||| signs[level as int] == Some(MonoSign::Increasing) && leaves[high].below(leaves[low])
                ||| signs[level as int] == Some(MonoSign::Decreasing) && leaves[low].below(leaves[high])
            }
        }),
{
    let n = pow2(depth) as int;
    let end = pass_len(signs, depth);
    lemma_few_steps(signs.len() as int, depth);
    let t = first_violation(leaves, signs, n, c.from as int, end);
    let u = first_violation(leaves, signs, n, 0, end);
    lemma_found_is_violated(leaves, signs, n, c.from as int, end);
    lemma_found_is_violated(leaves, signs, n, 0, end);
    let at = if t < end {
        t
    } else {
        u
    };
    assert(violated_at(leaves, signs, n, at));
    let level = at / n;
    assert(0 <= level < signs.len()) by (nonlinear_arith)
        requires
            0 <= at < signs.len() * n,
            n > 0,
            level == at / n,
    ;
    level as nat
}

proof fn lemma_found_is_violated(
    leaves: Seq<F32>,
    signs: Seq<Option<MonoSign>>,
    n: int,
    from: int,
    end: int,
)
    requires
        from <= end,
    ensures
        from <= first_violation(leaves, signs, n, from, end) <= end,
        first_violation(leaves, signs, n, from, end) < end ==> violated_at(
            leaves,
            signs,
            n,
            first_violation(leaves, signs, n, from, end),
        ),
    decreases end - from,
{
    if from < end {
        lemma_found_is_violated(leaves, signs, n, from + 1, end);
    }
}

/// Clamping gives up only after 64 passes that each pooled a pair.
pub proof fn law_clamping_gives_up_after_sixty_four_passes(
    c: Clamp,
    leaves: Seq<F32>,
    signs: Seq<Option<MonoSign>>,
    depth: nat,
)
    requires
        1 <= depth <= 3,
        signs.len() <= depth,
        c.wf(pass_len(signs, depth)),
        clamp_step(c, leaves, signs, depth).1 is Spent,
    ensures
        c.passes == 63,
        c.changed,
{
}

} // verus!
