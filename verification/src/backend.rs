//! Deterministic seeding and the CPU backend.
//!
//! Every randomised stage takes its seed from [`pb_seed`], a pure function of
//! the base seed and the coordinates of the work unit. Draws are therefore the
//! same whatever the number of threads and whatever the order of the work.
use crate::data::BinnedMatrix;
use crate::engine::hist::Hist;
use crate::engine::Split;
use crate::error::{answers, internal, Fault, PbError};
use crate::float::F32;
use crate::text::{dec, with_number};
use rand::RngCore;
use rand::SeedableRng;
use rand_pcg::Pcg64;
use vstd::prelude::*;

verus! {

/// Per-level constraint context of the split finder.
#[derive(Debug, Clone, Copy, Default)]
pub struct LevelConstraints {}

/// The CPU backend.
#[derive(Debug, Clone, Copy, PartialEq, Eq, Structural)]
pub struct CpuBackend {
    /// Worker threads. No result depends on this number.
    pub n_threads: usize,
}

/// The first position of `rows` that lies outside `0..n`, or `rows.len()`.
pub open spec fn first_outside(rows: Seq<u32>, n: nat) -> nat
    decreases rows.len(),
{
    if rows.len() == 0 {
        0
    } else if rows[0] >= n {
        0
    } else {
        1 + first_outside(rows.drop_first(), n)
    }
}

proof fn lemma_first_outside(rows: Seq<u32>, n: nat, k: nat)
    requires
        k <= rows.len(),
        forall|j: int| 0 <= j < k ==> rows[j] < n,
        k < rows.len() ==> rows[k as int] >= n,
    ensures
        first_outside(rows, n) == k,
    decreases rows.len(),
{
    if rows.len() > 0 && k > 0 {
        assert(rows[0] < n);
        assert forall|j: int| 0 <= j < k - 1 implies rows.drop_first()[j] < n by {
            assert(rows[j + 1] < n);
        }
        lemma_first_outside(rows.drop_first(), n, (k - 1) as nat);
    }
}

/// Why a request for the scores of a block of rows is refused.
pub open spec fn block_fault(n_rows: nat, rows: Seq<u32>, out_len: nat) -> Option<Fault> {
    if out_len != rows.len() {
        Some(
            Fault::ShapeMismatch(
                "predict_block out len "@ + dec(out_len) + " != rows len "@ + dec(rows.len()),
            ),
        )
    } else if first_outside(rows, n_rows) < rows.len() {
        Some(
            Fault::InvalidInput(
                "predict_block row "@ + dec(rows[first_outside(rows, n_rows) as int] as nat)
                    + " outside n_rows "@ + dec(n_rows),
            ),
        )
    } else {
        None
    }
}

impl CpuBackend {
    /// A CPU backend with `n_threads` workers.
    pub fn new(n_threads: usize) -> (b: CpuBackend)
        ensures
            b.n_threads == n_threads,
    {
        CpuBackend { n_threads }
    }

    /// Refused: a histogram needs the leaf of every row and the list of axes,
    /// which [`crate::engine::level_hist`] takes.
    pub fn build_histograms(&self, x: &BinnedMatrix, rows: &Vec<u32>, hist: &mut Hist) -> (r: Result<
        (),
        PbError,
    >)
        ensures
            answers(
                r,
                Some(
                    Fault::Internal(
                        "CpuBackend::build_histograms legacy seam lacks leaf assignments/axis list; use engine::hist/split"@,
                    ),
                ),
            ),
            *final(hist) == *old(hist),
    {
        Err(
            internal(
                "CpuBackend::build_histograms legacy seam lacks leaf assignments/axis list; use engine::hist/split",
            ),
        )
    }

    /// Refused: a split needs the axes and the constraints of the level, which
    /// [`crate::engine::split`] takes.
    pub fn best_level_split(&self, hist: &Hist, lambda: F32, constraints: &LevelConstraints) -> (r:
        Result<Option<Split>, PbError>)
        ensures
            answers(
                r,
                Some(
                    Fault::Internal(
                        "CpuBackend::best_level_split legacy seam lacks axis metadata/constraints; use engine::split"@,
                    ),
                ),
            ),
    {
        Err(
            internal(
                "CpuBackend::best_level_split legacy seam lacks axis metadata/constraints; use engine::split",
            ),
        )
    }

    /// Copies the scores of the chosen rows, in the order of `rows`. `scores`
    /// holds one score per row of the data. Where a row lies outside the data,
    /// what precedes it in `rows` has been copied and the rest is untouched.
    pub fn predict_block(&self, scores: &Vec<F32>, rows: &Vec<u32>, out: &mut Vec<F32>) -> (r: Result<
        (),
        PbError,
    >)
        ensures
            answers(r, block_fault(scores@.len(), rows@, old(out)@.len())),
            final(out)@.len() == old(out)@.len(),
            old(out)@.len() == rows@.len() ==> forall|i: int|
                0 <= i < rows@.len() ==> #[trigger] final(out)@[i] == (if i < first_outside(
                    rows@,
                    scores@.len(),
                ) {
                    scores@[rows@[i] as int]
                } else {
                    old(out)@[i]
                }),
            old(out)@.len() != rows@.len() ==> final(out)@ == old(out)@,
    {
        if out.len() != rows.len() {
            let mut what = with_number("predict_block out len ", out.len() as u64, " != rows len ");
            what.append(crate::text::decimal(rows.len() as u64).as_str());
            return Err(PbError::ShapeMismatch { what });
        }
        let mut i: usize = 0;
        while i < rows.len()
            invariant
                i <= rows.len(),
                out@.len() == rows@.len(),
                old(out)@.len() == rows@.len(),
                forall|j: int| 0 <= j < i ==> rows@[j] < scores@.len(),
                forall|j: int|
                    0 <= j < i ==> #[trigger] out@[j] == scores@[rows@[j] as int],
                forall|j: int| i <= j < rows@.len() ==> #[trigger] out@[j] == old(out)@[j],
            decreases rows.len() - i,
        {
            let row: u32 = rows[i];
            if row as usize >= scores.len() {
                proof {
                    lemma_first_outside(rows@, scores@.len(), i as nat);
                }
                let mut what = with_number("predict_block row ", row as u64, " outside n_rows ");
                what.append(crate::text::decimal(scores.len() as u64).as_str());
                return Err(PbError::InvalidInput { what });
            }
            let score = scores[row as usize];
            out.set(i, score);
            i = i + 1;
        }
        proof {
            lemma_first_outside(rows@, scores@.len(), rows@.len());
        }
        Ok(())
    }
}

/// The stage that a random stream belongs to. The numbers are frozen: an
/// existing stage is never renumbered.
#[derive(Debug, Clone, Copy, PartialEq, Eq, Structural)]
pub enum Stage {
    /// Per-feature binning subsample.
    Binning,
    /// Row and feature subsampling.
    Sample,
    /// Stochastic rounding of quantised histograms.
    Quantize,
    /// Bagged ensemble selection.
    Bagging,
    /// Folds and permutations of categorical encodings.
    Categorical,
    /// Split-score noise.
    SplitNoise,
    /// Tree-dropout masks.
    Dart,
    /// The validation carve-out.
    Holdout,
    /// Column subsampling.
    Cols,
}

impl Stage {
    /// The frozen number of the stage.
    pub open spec fn code(self) -> u32 {
        match self {
            Stage::Binning => 1,
            Stage::Sample => 2,
            Stage::Quantize => 3,
            Stage::Bagging => 4,
            Stage::Categorical => 5,
            Stage::SplitNoise => 6,
            Stage::Dart => 7,
            Stage::Holdout => 8,
            Stage::Cols => 9,
        }
    }

    /// The frozen number of the stage.
    pub fn number(&self) -> (n: u32)
        ensures
            n == self.code(),
    {
        match self {
            Stage::Binning => 1,
            Stage::Sample => 2,
            Stage::Quantize => 3,
            Stage::Bagging => 4,
            Stage::Categorical => 5,
            Stage::SplitNoise => 6,
            Stage::Dart => 7,
            Stage::Holdout => 8,
            Stage::Cols => 9,
        }
    }
}

/// The 64-bit finaliser shared by all seeds.
pub open spec fn mix64(z: u64) -> u64 {
    let a = (z ^ (z >> 30)).wrapping_mul(0xBF58_476D_1CE4_E5B9);
    let b = (a ^ (a >> 27)).wrapping_mul(0x94D0_49BB_1331_11EB);
    b ^ (b >> 31)
}

/// The seed of one work unit: the coordinates, spread over 64 bits and mixed.
pub open spec fn seed_of(base: u64, round: u32, stage: u32, block: u32) -> u64 {
    mix64(
        base ^ (round as u64).wrapping_mul(0x9E37_79B9_7F4A_7C15) ^ (stage as u64).wrapping_mul(
            0xBF58_476D_1CE4_E5B9,
        ) ^ (block as u64).wrapping_mul(0x94D0_49BB_1331_11EB),
    )
}

/// The 64-bit finaliser shared by all seeds.
pub fn mix(z: u64) -> (r: u64)
    ensures
        r == mix64(z),
{
    let a: u64 = (z ^ (z >> 30)).wrapping_mul(0xBF58_476D_1CE4_E5B9);
    let b: u64 = (a ^ (a >> 27)).wrapping_mul(0x94D0_49BB_1331_11EB);
    b ^ (b >> 31)
}

/// The seed of the work unit `(round, stage, block)` under a base seed. Frozen:
/// every reproducible result depends on it.
pub fn pb_seed(base: u64, round: u32, stage: u32, block: u32) -> (r: u64)
    ensures
        r == seed_of(base, round, stage, block),
{
    mix(
        base ^ (round as u64).wrapping_mul(0x9E37_79B9_7F4A_7C15) ^ (stage as u64).wrapping_mul(
            0xBF58_476D_1CE4_E5B9,
        ) ^ (block as u64).wrapping_mul(0x94D0_49BB_1331_11EB),
    )
}

/// A 64-bit permuted congruential generator of the `rand_pcg` crate.
#[verifier::external_type_specification]
#[verifier::external_body]
pub struct ExPcg64(rand_pcg::Lcg128Xsl64);

/// The numbers that a generator will give, by position: entry 0 is the next one.
pub uninterp spec fn pcg_numbers(rng: Pcg64) -> Map<nat, u64>;

/// The numbers of a generator that was made from a 64-bit seed.
pub uninterp spec fn pcg_numbers_of_seed(seed: u64) -> Map<nat, u64>;

/// Calls `Pcg64::seed_from_u64` (the default method of `SeedableRng`). It is a
/// fixed function of the seed, so the numbers that follow get a name.
#[verifier::external_body]
fn pcg_from_seed(seed: u64) -> (rng: Pcg64)
    ensures
        pcg_numbers(rng) == pcg_numbers_of_seed(seed),
{
    Pcg64::seed_from_u64(seed)
}

/// Calls `next_u64` of `RngCore` on the generator: the number at the front comes
/// out, and the others move up by one.
#[verifier::external_body]
pub(crate) fn pcg_next(rng: &mut Pcg64) -> (x: u64)
    ensures
        x == pcg_numbers(*old(rng))[0],
        forall|i: nat| #[trigger] pcg_numbers(*final(rng))[i] == pcg_numbers(*old(rng))[i + 1],
{
    rng.next_u64()
}

/// The random stream of the work unit `(round, stage, block)` under a base seed.
pub fn pb_rng(base: u64, round: u32, stage: Stage, block: u32) -> (rng: Pcg64)
    ensures
        pcg_numbers(rng) == pcg_numbers_of_seed(seed_of(base, round, stage.code(), block)),
{
    pcg_from_seed(pb_seed(base, round, stage.number(), block))
}

/// A block is scored exactly when it has a place for every row and knows every row;
/// else the rows before the first unknown one are scored.
pub proof fn law_blocks_know_their_rows(n_rows: nat, rows: Seq<u32>, out_len: nat, k: int)
    ensures
        block_fault(n_rows, rows, out_len) is None <==> out_len == rows.len() && forall|i: int|
            0 <= i < rows.len() ==> (#[trigger] rows[i]) < n_rows,
        0 <= k < rows.len() && rows[k] >= n_rows && (forall|i: int|
            0 <= i < k ==> (#[trigger] rows[i]) < n_rows) ==> first_outside(rows, n_rows) == k,
        (forall|i: int| 0 <= i < rows.len() ==> (#[trigger] rows[i]) < n_rows) ==> first_outside(
            rows,
            n_rows,
        ) == rows.len(),
    decreases rows.len(),
{
    if rows.len() > 0 {
        let rest = rows.drop_first();
        law_blocks_know_their_rows(n_rows, rest, rest.len(), k - 1);
        if rows[0] < n_rows {
            if forall|i: int| 0 <= i < rest.len() ==> (#[trigger] rest[i]) < n_rows {
                assert forall|i: int| 0 <= i < rows.len() implies (#[trigger] rows[i]) < n_rows by {
                    if i > 0 {
                        assert(rest[i - 1] == rows[i]);
                    }
                }
            } else {
                let i = choose|i: int| 0 <= i < rest.len() && !((#[trigger] rest[i]) < n_rows);
                assert(rows[i + 1] >= n_rows);
            }
            if 0 < k < rows.len() && rows[k] >= n_rows && (forall|i: int|
                0 <= i < k ==> (#[trigger] rows[i]) < n_rows) {
                assert(rest[k - 1] == rows[k]);
                assert forall|i: int| 0 <= i < k - 1 implies (#[trigger] rest[i]) < n_rows by {
                    assert(rows[i + 1] < n_rows);
                }
            }
        }
    }
}

/// No two stages share a number.
pub proof fn law_stages_have_their_own_numbers(a: Stage, b: Stage)
    ensures
        a.code() == b.code() ==> a == b,
        1 <= a.code() <= 9,
{
}

} // verus!
