//! The knobs of the boosters. By default every lever is off.
use crate::cat::finite_not_negative;
use crate::error::{
    answers, first_fault, invalid_config, lemma_first_fault, lemma_no_fault, refused_setting, Fault,
    PbError,
};
use crate::float::F32;
use crate::shown::shown;
use crate::text::{dec, number_last};
use vstd::prelude::*;

verus! {

/// Fully-corrective refit of the leaves.
#[derive(Debug, Clone, Copy, PartialEq, Eq, Structural)]
pub enum RefitSpec {
    /// Leaves stay as grown.
    Off,
    /// Ridge-regularised refit over the frozen leaf memberships.
    Ridge {
        l2: F32,
        /// At most this many passes.
        max_iter: u8,
        /// Refit after every so many trees; otherwise once, at the end.
        every_k_trees: Option<u32>,
    },
}

/// Accelerated boosting.
#[derive(Debug, Clone, Copy, PartialEq, Eq, Structural)]
pub enum NesterovSpec {
    Off,
    /// Look-ahead boosting, with or without a correction tree per round.
    Agbm { momentum_correction: bool },
}

/// Averaging of several models.
#[derive(Debug, Clone, PartialEq)]
pub enum EnsembleSpec {
    Off,
    /// One setting over independent bags.
    OuterBag { n_bags: u16 },
    /// Many settings, combined by greedy selection.
    GreedySelect { library_size: u16, hp_grid: HpGrid, selection_bags: u16, seed_top_n: u8 },
}

/// The candidate settings of greedy selection.
#[derive(Debug, Clone, PartialEq)]
pub struct HpGrid {
    pub max_bins: Vec<u16>,
    pub lambdas: Vec<F32>,
    pub learning_rates: Vec<F32>,
    pub n_trees: Vec<u32>,
    pub max_interaction_orders: Vec<u8>,
    pub random_strengths: Vec<F32>,
}

/// Tree dropout.
#[derive(Debug, Clone, Copy, PartialEq, Eq, Structural)]
pub struct DartSpec {
    /// The probability of dropping an earlier tree in a round.
    pub drop_rate: F32,
    /// Whether to rescale the dropped and the new tree.
    pub normalize: bool,
}

/// All booster knobs.
#[derive(Debug, Clone, PartialEq)]
pub struct BoosterConfig {
    pub refit_leaves: RefitSpec,
    pub nesterov: NesterovSpec,
    pub ensemble: EnsembleSpec,
    pub dart: Option<DartSpec>,
    /// The strength of the noise on split scores.
    pub random_strength: F32,
    /// Whether to move the intercept so that totals match.
    pub reanchor: bool,
}

impl Default for BoosterConfig {
    fn default() -> (c: BoosterConfig)
        ensures
            c.refit_leaves is Off,
            c.nesterov is Off,
            c.ensemble is Off,
            c.dart is None,
            c.random_strength.bits == 0,
            !c.reanchor,
    {
        BoosterConfig {
            refit_leaves: RefitSpec::Off,
            nesterov: NesterovSpec::Off,
            ensemble: EnsembleSpec::Off,
            dart: None,
            random_strength: F32 { bits: 0 },
            reanchor: false,
        }
    }
}

impl Default for HpGrid {
    fn default() -> (g: HpGrid)
        ensures
            g.max_bins@ == seq![64u16, 128u16, 254u16],
            g.lambdas@ == seq![
                (F32 { bits: 0 }),
                (F32 { bits: 0x3f80_0000 }),
                (F32 { bits: 0x4120_0000 }),
            ],
            g.learning_rates@ == seq![
                (F32 { bits: 0x3cf5_c28f }),
                (F32 { bits: 0x3d4c_cccd }),
                (F32 { bits: 0x3dcc_cccd }),
            ],
            g.n_trees@ == seq![250u32, 500u32, 1000u32],
            g.max_interaction_orders@ == seq![2u8, 3u8],
            g.random_strengths@ == seq![(F32 { bits: 0 })],
    {
        HpGrid {
            max_bins: vec![64, 128, 254],
            lambdas: vec![F32 { bits: 0 }, F32 { bits: 0x3f80_0000 }, F32 { bits: 0x4120_0000 }],
            learning_rates: vec![
                F32 { bits: 0x3cf5_c28f },
                F32 { bits: 0x3d4c_cccd },
                F32 { bits: 0x3dcc_cccd },
            ],
            n_trees: vec![250, 500, 1000],
            max_interaction_orders: vec![2, 3],
            random_strengths: vec![F32 { bits: 0 }],
        }
    }
}

/// Why a refit is refused.
pub open spec fn refit_fault(s: RefitSpec) -> Option<Fault> {
    match s {
        RefitSpec::Off => None,
        RefitSpec::Ridge { l2, max_iter, every_k_trees } => if !finite_not_negative(l2) {
            Some(Fault::InvalidConfig("refit l2 must be finite and >= 0, got "@ + shown(l2)))
        } else if max_iter == 0 {
            Some(Fault::InvalidConfig("refit max_iter must be > 0"@))
        } else if every_k_trees == Some(0u32) {
            Some(Fault::InvalidConfig("refit every_k_trees must be > 0 when set"@))
        } else {
            None
        },
    }
}

impl RefitSpec {
    /// Refuses a refit without sense.
    pub fn validate(&self) -> (r: Result<(), PbError>)
        ensures
            answers(r, refit_fault(*self)),
    {
        match *self {
            RefitSpec::Off => Ok(()),
            RefitSpec::Ridge { l2, max_iter, every_k_trees } => {
                if !l2.is_finite() || l2.order_key() < 0 {
                    return Err(refused_setting("refit l2 must be finite and >= 0, got ", l2));
                }
                if max_iter == 0 {
                    return Err(invalid_config("refit max_iter must be > 0"));
                }
                match every_k_trees {
                    Some(k) => {
                        if k == 0 {
                            return Err(
                                invalid_config("refit every_k_trees must be > 0 when set"),
                            );
                        }
                    },
                    None => {},
                }
                Ok(())
            },
        }
    }
}

/// Why a dropout is refused.
pub open spec fn dart_fault(d: DartSpec) -> Option<Fault> {
    if !finite_not_negative(d.drop_rate) || d.drop_rate.key() >= 0x3f80_0000 {
        Some(
            Fault::InvalidConfig(
                "DART drop_rate must be finite and in [0, 1), got "@ + shown(d.drop_rate),
            ),
        )
    } else {
        None
    }
}

impl DartSpec {
    /// Refuses a rate outside `[0, 1)`.
    pub fn validate(&self) -> (r: Result<(), PbError>)
        ensures
            answers(r, dart_fault(*self)),
    {
        let k: i32 = self.drop_rate.order_key();
        if !self.drop_rate.is_finite() || k < 0 || k >= 0x3f80_0000 {
            return Err(
                refused_setting(
                    "DART drop_rate must be finite and in [0, 1), got ",
                    self.drop_rate,
                ),
            );
        }
        Ok(())
    }
}

/// Why a bin count is refused.
pub open spec fn max_bin_fault(v: Seq<u16>, i: int) -> Option<Fault> {
    if v[i] < 2 || v[i] > 254 {
        Some(
            Fault::InvalidConfig("HpGrid max_bin must be in 2..=254, got "@ + dec(v[i] as nat)),
        )
    } else {
        None
    }
}

/// Why an interaction order is refused.
pub open spec fn order_fault(v: Seq<u8>, i: int) -> Option<Fault> {
    if v[i] < 1 || v[i] > 3 {
        Some(
            Fault::InvalidConfig(
                "HpGrid max_interaction_order must be in 1..=3, got "@ + dec(v[i] as nat),
            ),
        )
    } else {
        None
    }
}

/// Whether a learning rate can be used.
pub open spec fn usable_rate(x: F32) -> bool {
    x.finite() && x.key() > 0
}

/// Why a number of a list that must be finite and not negative is refused.
pub open spec fn not_negative_fault(v: Seq<F32>, head: Seq<char>, i: int) -> Option<Fault> {
    if !finite_not_negative(v[i]) {
        Some(Fault::InvalidConfig(head + shown(v[i])))
    } else {
        None
    }
}

/// Why a learning rate of a list is refused.
pub open spec fn rate_fault(v: Seq<F32>, i: int) -> Option<Fault> {
    if !usable_rate(v[i]) {
        Some(
            Fault::InvalidConfig(
                "HpGrid learning_rate must be finite and > 0, got "@ + shown(v[i]),
            ),
        )
    } else {
        None
    }
}

/// Why candidate settings are refused, in the order of the checks.
pub open spec fn hp_grid_fault(g: HpGrid) -> Option<Fault> {
    let bins = first_fault(|i: int| max_bin_fault(g.max_bins@, i), 0, g.max_bins@.len() as int);
    let lambdas = first_fault(
        |i: int|
            not_negative_fault(g.lambdas@, "HpGrid lambda must be finite and >= 0, got "@, i),
        0,
        g.lambdas@.len() as int,
    );
    let rates = first_fault(
        |i: int| rate_fault(g.learning_rates@, i),
        0,
        g.learning_rates@.len() as int,
    );
    let orders = first_fault(
        |i: int| order_fault(g.max_interaction_orders@, i),
        0,
        g.max_interaction_orders@.len() as int,
    );
    let strengths = first_fault(
        |i: int|
            not_negative_fault(
                g.random_strengths@,
                "HpGrid random_strength must be finite and >= 0, got "@,
                i,
            ),
        0,
        g.random_strengths@.len() as int,
    );
    if g.max_bins@.len() == 0 || g.lambdas@.len() == 0 || g.learning_rates@.len() == 0
        || g.n_trees@.len() == 0 || g.max_interaction_orders@.len() == 0
        || g.random_strengths@.len() == 0 {
        Some(Fault::InvalidConfig("HpGrid candidate lists must be non-empty"@))
    } else if bins is Some {
        bins
    } else if lambdas is Some {
        lambdas
    } else if rates is Some {
        rates
    } else if g.n_trees@.contains(0u32) {
        Some(Fault::InvalidConfig("HpGrid n_trees must be > 0"@))
    } else if orders is Some {
        orders
    } else {
        strengths
    }
}

/// Refuses the first number that is not finite or negative.
fn check_not_negative(v: &Vec<F32>, head: &str) -> (r: Result<(), PbError>)
    ensures
        answers(r, first_fault(|i: int| not_negative_fault(v@, head@, i), 0, v@.len() as int)),
{
    let ghost f = |i: int| not_negative_fault(v@, head@, i);
    let mut i: usize = 0;
    while i < v.len()
        invariant
            i <= v.len(),
            f == (|i: int| not_negative_fault(v@, head@, i)),
            forall|j: int| 0 <= j < i ==> (#[trigger] f(j)) is None,
        decreases v.len() - i,
    {
        proof {
            lemma_first_fault(f, 0, i as int, v@.len() as int);
        }
        if !v[i].is_finite() || v[i].order_key() < 0 {
            assert(f(i as int) is Some);
            return Err(refused_setting(head, v[i]));
        }
        assert(f(i as int) is None);
        i = i + 1;
    }
    proof {
        lemma_first_fault(f, 0, v@.len() as int, v@.len() as int);
    }
    Ok(())
}

/// Refuses the first learning rate that cannot be used.
fn check_rates(v: &Vec<F32>) -> (r: Result<(), PbError>)
    ensures
        answers(r, first_fault(|i: int| rate_fault(v@, i), 0, v@.len() as int)),
{
    let ghost f = |i: int| rate_fault(v@, i);
    let mut i: usize = 0;
    while i < v.len()
        invariant
            i <= v.len(),
            f == (|i: int| rate_fault(v@, i)),
            forall|j: int| 0 <= j < i ==> (#[trigger] f(j)) is None,
        decreases v.len() - i,
    {
        proof {
            lemma_first_fault(f, 0, i as int, v@.len() as int);
        }
        if !v[i].is_finite() || v[i].order_key() <= 0 {
            assert(f(i as int) is Some);
            return Err(
                refused_setting("HpGrid learning_rate must be finite and > 0, got ", v[i]),
            );
        }
        assert(f(i as int) is None);
        i = i + 1;
    }
    proof {
        lemma_first_fault(f, 0, v@.len() as int, v@.len() as int);
    }
    Ok(())
}

/// Whether a list holds a zero.
fn has_zero(v: &Vec<u32>) -> (b: bool)
    ensures
        b == v@.contains(0u32),
{
    let mut i: usize = 0;
    while i < v.len()
        invariant
            i <= v.len(),
            forall|j: int| 0 <= j < i ==> v@[j] != 0,
        decreases v.len() - i,
    {
        if v[i] == 0 {
            assert(v@[i as int] == 0);
            return true;
        }
        i = i + 1;
    }
    false
}

fn check_bins(v: &Vec<u16>) -> (r: Result<(), PbError>)
    ensures
        answers(r, first_fault(|i: int| max_bin_fault(v@, i), 0, v@.len() as int)),
{
    let ghost f = |i: int| max_bin_fault(v@, i);
    let mut i: usize = 0;
    while i < v.len()
        invariant
            i <= v.len(),
            f == (|i: int| max_bin_fault(v@, i)),
            forall|j: int| 0 <= j < i ==> (#[trigger] f(j)) is None,
        decreases v.len() - i,
    {
        proof {
            lemma_first_fault(f, 0, i as int, v@.len() as int);
        }
        if v[i] < 2 || v[i] > 254 {
            assert(f(i as int) is Some);
            let what = number_last("HpGrid max_bin must be in 2..=254, got ", v[i] as u64);
            return Err(PbError::InvalidConfig { what });
        }
        assert(f(i as int) is None);
        i = i + 1;
    }
    proof {
        lemma_first_fault(f, 0, v@.len() as int, v@.len() as int);
    }
    Ok(())
}

fn check_orders(v: &Vec<u8>) -> (r: Result<(), PbError>)
    ensures
        answers(r, first_fault(|i: int| order_fault(v@, i), 0, v@.len() as int)),
{
    let ghost f = |i: int| order_fault(v@, i);
    let mut i: usize = 0;
    while i < v.len()
        invariant
            i <= v.len(),
            f == (|i: int| order_fault(v@, i)),
            forall|j: int| 0 <= j < i ==> (#[trigger] f(j)) is None,
        decreases v.len() - i,
    {
        proof {
            lemma_first_fault(f, 0, i as int, v@.len() as int);
        }
        if v[i] < 1 || v[i] > 3 {
            assert(f(i as int) is Some);
            let what = number_last(
                "HpGrid max_interaction_order must be in 1..=3, got ",
                v[i] as u64,
            );
            return Err(PbError::InvalidConfig { what });
        }
        assert(f(i as int) is None);
        i = i + 1;
    }
    proof {
        lemma_first_fault(f, 0, v@.len() as int, v@.len() as int);
    }
    Ok(())
}

impl HpGrid {
    /// Refuses empty or meaningless candidate lists.
    pub fn validate(&self) -> (r: Result<(), PbError>)
        ensures
            answers(r, hp_grid_fault(*self)),
    {
        if self.max_bins.len() == 0 || self.lambdas.len() == 0 || self.learning_rates.len() == 0
            || self.n_trees.len() == 0 || self.max_interaction_orders.len() == 0
            || self.random_strengths.len() == 0 {
            return Err(invalid_config("HpGrid candidate lists must be non-empty"));
        }
        match check_bins(&self.max_bins) {
            Err(e) => return Err(e),
            Ok(()) => {},
        }
        match check_not_negative(&self.lambdas, "HpGrid lambda must be finite and >= 0, got ") {
            Err(e) => return Err(e),
            Ok(()) => {},
        }
        match check_rates(&self.learning_rates) {
            Err(e) => return Err(e),
            Ok(()) => {},
        }
        if has_zero(&self.n_trees) {
            return Err(invalid_config("HpGrid n_trees must be > 0"));
        }
        match check_orders(&self.max_interaction_orders) {
            Err(e) => return Err(e),
            Ok(()) => {},
        }
        check_not_negative(
            &self.random_strengths,
            "HpGrid random_strength must be finite and >= 0, got ",
        )
    }
}

/// Why an ensemble is refused.
pub open spec fn ensemble_fault(e: EnsembleSpec) -> Option<Fault> {
    match e {
        EnsembleSpec::Off => None,
        EnsembleSpec::OuterBag { n_bags } => if n_bags == 0 {
            Some(Fault::InvalidConfig("OuterBag n_bags must be > 0"@))
        } else {
            None
        },
        EnsembleSpec::GreedySelect { library_size, hp_grid, selection_bags, seed_top_n } =>
            if library_size == 0 {
                Some(Fault::InvalidConfig("GreedySelect library_size must be > 0"@))
            } else if selection_bags == 0 {
                Some(Fault::InvalidConfig("GreedySelect selection_bags must be > 0"@))
            } else if seed_top_n == 0 || seed_top_n as int > library_size {
                Some(Fault::InvalidConfig("GreedySelect seed_top_n must be in 1..=library_size"@))
            } else {
                hp_grid_fault(hp_grid)
            },
    }
}

impl EnsembleSpec {
    /// Refuses an ensemble without members or with inconsistent sizes.
    pub fn validate(&self) -> (r: Result<(), PbError>)
        ensures
            answers(r, ensemble_fault(*self)),
    {
        match self {
            EnsembleSpec::Off => Ok(()),
            EnsembleSpec::OuterBag { n_bags } => {
                if *n_bags == 0 {
                    return Err(invalid_config("OuterBag n_bags must be > 0"));
                }
                Ok(())
            },
            EnsembleSpec::GreedySelect { library_size, hp_grid, selection_bags, seed_top_n } => {
                if *library_size == 0 {
                    return Err(invalid_config("GreedySelect library_size must be > 0"));
                }
                if *selection_bags == 0 {
                    return Err(invalid_config("GreedySelect selection_bags must be > 0"));
                }
                if *seed_top_n == 0 || *seed_top_n as u16 > *library_size {
                    return Err(
                        invalid_config("GreedySelect seed_top_n must be in 1..=library_size"),
                    );
                }
                hp_grid.validate()
            },
        }
    }
}

/// Why booster knobs are refused, in the order of the checks.
pub open spec fn booster_fault(c: BoosterConfig) -> Option<Fault> {
    if refit_fault(c.refit_leaves) is Some {
        refit_fault(c.refit_leaves)
    } else if ensemble_fault(c.ensemble) is Some {
        ensemble_fault(c.ensemble)
    } else if c.dart is Some && dart_fault(c.dart->0) is Some {
        dart_fault(c.dart->0)
    } else if c.dart is Some && !(c.nesterov is Off) {
        Some(
            Fault::InvalidConfig(
                "DART and Nesterov/AGBM cannot be combined in the v1.5 booster pipeline"@,
            ),
        )
    } else if !finite_not_negative(c.random_strength) {
        Some(
            Fault::InvalidConfig(
                "random_strength must be finite and >= 0, got "@ + shown(c.random_strength),
            ),
        )
    } else {
        None
    }
}

impl BoosterConfig {
    /// Refuses knobs that cannot be honoured.
    pub fn validate(&self) -> (r: Result<(), PbError>)
        ensures
            answers(r, booster_fault(*self)),
    {
        match self.refit_leaves.validate() {
            Err(e) => return Err(e),
            Ok(()) => {},
        }
        match self.ensemble.validate() {
            Err(e) => return Err(e),
            Ok(()) => {},
        }
        match self.dart {
            Some(d) => {
                match d.validate() {
                    Err(e) => return Err(e),
                    Ok(()) => {},
                }
                match self.nesterov {
                    NesterovSpec::Off => {},
                    NesterovSpec::Agbm { momentum_correction: _ } => {
                        return Err(
                            invalid_config(
                                "DART and Nesterov/AGBM cannot be combined in the v1.5 booster pipeline",
                            ),
                        );
                    },
                }
            },
            None => {},
        }
        if !self.random_strength.is_finite() || self.random_strength.order_key() < 0 {
            return Err(
                refused_setting(
                    "random_strength must be finite and >= 0, got ",
                    self.random_strength,
                ),
            );
        }
        Ok(())
    }
}

/// One setting of greedy selection.
#[derive(Debug, Clone, Copy, PartialEq, Eq, Structural)]
pub struct HpChoice {
    pub max_bin: u16,
    pub lambda: F32,
    pub learning_rate: F32,
    pub n_trees: u32,
    pub max_order: u8,
    pub random_strength: F32,
}

/// The sizes of the candidate lists, in the order in which they are counted
/// through.
pub open spec fn radices(g: HpGrid) -> Seq<nat> {
    seq![
        g.max_bins@.len(),
        g.lambdas@.len(),
        g.learning_rates@.len(),
        g.n_trees@.len(),
        g.max_interaction_orders@.len(),
        g.random_strengths@.len(),
    ]
}

/// What is left of a number after its first `k` digits in mixed radix.
pub open spec fn rest_after(radices: Seq<nat>, n: nat, k: nat) -> nat
    decreases k,
{
    if k == 0 {
        n
    } else {
        rest_after(radices, n, (k - 1) as nat) / radices[k - 1]
    }
}

/// Digit `k` of a number in mixed radix, the first digit moving fastest.
pub open spec fn digit(radices: Seq<nat>, n: nat, k: nat) -> nat {
    rest_after(radices, n, k) % radices[k as int]
}

/// The setting at an ordinal: one candidate per list, by the digits of the
/// ordinal.
pub open spec fn choice_at(g: HpGrid, n: nat) -> HpChoice {
    let r = radices(g);
    HpChoice {
        max_bin: g.max_bins@[digit(r, n, 0) as int],
        lambda: g.lambdas@[digit(r, n, 1) as int],
        learning_rate: g.learning_rates@[digit(r, n, 2) as int],
        n_trees: g.n_trees@[digit(r, n, 3) as int],
        max_order: g.max_interaction_orders@[digit(r, n, 4) as int],
        random_strength: g.random_strengths@[digit(r, n, 5) as int],
    }
}

/// Why there is no setting.
pub open spec fn choice_fault(g: HpGrid) -> Option<Fault> {
    if exists|k: int| 0 <= k < 6 && #[trigger] radices(g)[k] == 0 {
        Some(Fault::InvalidConfig("HpGrid candidate lists must be non-empty"@))
    } else {
        None
    }
}

/// The setting at an ordinal, wrapping around past the last combination.
pub fn hp_choice_at(grid: &HpGrid, ordinal: usize) -> (r: Result<HpChoice, PbError>)
    ensures
        answers(r, choice_fault(*grid)),
        r is Ok ==> r->Ok_0 == choice_at(*grid, ordinal as nat),
{
    let ghost rx = radices(*grid);
    let n0: usize = grid.max_bins.len();
    let n1: usize = grid.lambdas.len();
    let n2: usize = grid.learning_rates.len();
    let n3: usize = grid.n_trees.len();
    let n4: usize = grid.max_interaction_orders.len();
    let n5: usize = grid.random_strengths.len();
    proof {
        assert(rx[0] == n0 && rx[1] == n1 && rx[2] == n2 && rx[3] == n3 && rx[4] == n4 && rx[5]
            == n5);
        reveal_with_fuel(rest_after, 7);
    }
    if n0 == 0 || n1 == 0 || n2 == 0 || n3 == 0 || n4 == 0 || n5 == 0 {
        return Err(invalid_config("HpGrid candidate lists must be non-empty"));
    }
    let c1: usize = ordinal / n0;
    let c2: usize = c1 / n1;
    let c3: usize = c2 / n2;
    let c4: usize = c3 / n3;
    let c5: usize = c4 / n4;
    Ok(
        HpChoice {
            max_bin: grid.max_bins[ordinal % n0],
            lambda: grid.lambdas[c1 % n1],
            learning_rate: grid.learning_rates[c2 % n2],
            n_trees: grid.n_trees[c3 % n3],
            max_order: grid.max_interaction_orders[c4 % n4],
            random_strength: grid.random_strengths[c5 % n5],
        },
    )
}

/// The number of combinations of the lists from `k` on.
pub open spec fn combinations(radices: Seq<nat>, k: nat) -> nat
    decreases radices.len() - k,
{
    if k >= radices.len() {
        1
    } else {
        radices[k as int] * combinations(radices, k + 1)
    }
}

proof fn lemma_rest_bound(radices: Seq<nat>, n: nat, k: nat)
    requires
        k <= radices.len(),
        forall|j: int| 0 <= j < radices.len() ==> (#[trigger] radices[j]) > 0,
        n < combinations(radices, 0),
    ensures
        rest_after(radices, n, k) < combinations(radices, k),
    decreases k,
{
    if k > 0 {
        lemma_rest_bound(radices, n, (k - 1) as nat);
        let before = rest_after(radices, n, (k - 1) as nat);
        let r = radices[k - 1];
        let c = combinations(radices, k);
        assert(before / r < c) by (nonlinear_arith)
            requires
                before < r * c,
                r > 0,
        ;
    }
}

proof fn lemma_rest_equal(radices: Seq<nat>, a: nat, b: nat, k: nat)
    requires
        k <= radices.len(),
        forall|j: int| 0 <= j < radices.len() ==> (#[trigger] radices[j]) > 0,
        a < combinations(radices, 0),
        b < combinations(radices, 0),
        forall|j: nat| j < radices.len() ==> #[trigger] digit(radices, a, j) == digit(radices, b, j),
    ensures
        rest_after(radices, a, k) == rest_after(radices, b, k),
    decreases radices.len() - k,
{
    if k == radices.len() {
        lemma_rest_bound(radices, a, k);
        lemma_rest_bound(radices, b, k);
    } else {
        lemma_rest_equal(radices, a, b, k + 1);
        assert(digit(radices, a, k) == digit(radices, b, k));
        let x = rest_after(radices, a, k);
        let y = rest_after(radices, b, k);
        let r = radices[k as int];
        assert(x == (x / r) * r + x % r) by (nonlinear_arith)
            requires
                r > 0,
        ;
        assert(y == (y / r) * r + y % r) by (nonlinear_arith)
            requires
                r > 0,
        ;
    }
}

/// Counting through the ordinals visits every combination once: two ordinals
/// below the number of combinations that pick the same candidates are equal.
pub proof fn law_ordinals_pick_distinct_candidates(g: HpGrid, a: nat, b: nat)
    requires
        choice_fault(g) is None,
        a < combinations(radices(g), 0),
        b < combinations(radices(g), 0),
        forall|k: nat| k < 6 ==> #[trigger] digit(radices(g), a, k) == digit(radices(g), b, k),
    ensures
        a == b,
{
    let r = radices(g);
    assert forall|j: int| 0 <= j < r.len() implies (#[trigger] r[j]) > 0 by {
        assert(radices(g)[j] != 0);
    }
    lemma_rest_equal(r, a, b, 0);
}

/// A refit is accepted exactly when its penalty is finite and not negative, it has
/// passes, and its interval is not zero.
pub proof fn law_accepted_refits_are_sound(s: RefitSpec)
    ensures
        refit_fault(s) is None <==> (s matches RefitSpec::Ridge { l2, max_iter, every_k_trees }
            ==> l2.finite() && l2.key() >= 0 && max_iter >= 1 && every_k_trees != Some(0u32)),
{
}

/// A dropout is accepted exactly when its rate lies in `[0, 1)`.
pub proof fn law_accepted_dropouts_are_sound(d: DartSpec)
    ensures
        dart_fault(d) is None <==> !d.drop_rate.nan() && 0 <= d.drop_rate.key() < 0x3f80_0000,
{
}

/// Candidate settings are accepted exactly when no list is empty and every entry
/// of every list is one that a fit accepts.
pub proof fn law_accepted_candidates_are_sound(g: HpGrid)
    ensures
        hp_grid_fault(g) is None <==> {
            &&& g.max_bins@.len() > 0 && g.lambdas@.len() > 0 && g.learning_rates@.len() > 0
            &&& g.n_trees@.len() > 0 && g.max_interaction_orders@.len() > 0
            &&& g.random_strengths@.len() > 0
            &&& forall|i: int| 0 <= i < g.max_bins@.len() ==> 2 <= #[trigger] g.max_bins@[i] <= 254
            &&& forall|i: int|
                0 <= i < g.lambdas@.len() ==> (#[trigger] g.lambdas@[i]).finite()
                    && g.lambdas@[i].key() >= 0
            &&& forall|i: int|
                0 <= i < g.learning_rates@.len() ==> (#[trigger] g.learning_rates@[i]).finite()
                    && g.learning_rates@[i].key() > 0
            &&& forall|i: int| 0 <= i < g.n_trees@.len() ==> #[trigger] g.n_trees@[i] >= 1
            &&& forall|i: int|
                0 <= i < g.max_interaction_orders@.len() ==> 1
                    <= #[trigger] g.max_interaction_orders@[i] <= 3
            &&& forall|i: int|
                0 <= i < g.random_strengths@.len() ==> (#[trigger] g.random_strengths@[i]).finite()
                    && g.random_strengths@[i].key() >= 0
        },
{
    let bins = |i: int| max_bin_fault(g.max_bins@, i);
    let lambdas = |i: int|
        not_negative_fault(g.lambdas@, "HpGrid lambda must be finite and >= 0, got "@, i);
    let rates = |i: int| rate_fault(g.learning_rates@, i);
    let orders = |i: int| order_fault(g.max_interaction_orders@, i);
    let strengths = |i: int|
        not_negative_fault(
            g.random_strengths@,
            "HpGrid random_strength must be finite and >= 0, got "@,
            i,
        );
    lemma_no_fault(bins, g.max_bins@.len() as int);
    lemma_no_fault(lambdas, g.lambdas@.len() as int);
    lemma_no_fault(rates, g.learning_rates@.len() as int);
    lemma_no_fault(orders, g.max_interaction_orders@.len() as int);
    lemma_no_fault(strengths, g.random_strengths@.len() as int);
    assert((forall|i: int| 0 <= i < g.max_bins@.len() ==> 2 <= #[trigger] g.max_bins@[i] <= 254)
        <==> forall|i: int| 0 <= i < g.max_bins@.len() ==> (#[trigger] bins(i)) is None) by {
        if forall|i: int| 0 <= i < g.max_bins@.len() ==> (#[trigger] bins(i)) is None {
            assert forall|i: int| 0 <= i < g.max_bins@.len() implies 2 <= #[trigger] g.max_bins@[i]
                <= 254 by {
                assert(bins(i) is None);
            }
        }
    }
    assert((forall|i: int|
        0 <= i < g.lambdas@.len() ==> (#[trigger] g.lambdas@[i]).finite() && g.lambdas@[i].key() >= 0)
        <==> forall|i: int| 0 <= i < g.lambdas@.len() ==> (#[trigger] lambdas(i)) is None) by {
        if forall|i: int| 0 <= i < g.lambdas@.len() ==> (#[trigger] lambdas(i)) is None {
            assert forall|i: int| 0 <= i < g.lambdas@.len() implies (#[trigger] g.lambdas@[i]).finite()
                && g.lambdas@[i].key() >= 0 by {
                assert(lambdas(i) is None);
            }
        }
    }
    assert((forall|i: int|
        0 <= i < g.learning_rates@.len() ==> (#[trigger] g.learning_rates@[i]).finite()
            && g.learning_rates@[i].key() > 0) <==> forall|i: int|
        0 <= i < g.learning_rates@.len() ==> (#[trigger] rates(i)) is None) by {
        if forall|i: int| 0 <= i < g.learning_rates@.len() ==> (#[trigger] rates(i)) is None {
            assert forall|i: int| 0 <= i < g.learning_rates@.len() implies (
            #[trigger] g.learning_rates@[i]).finite() && g.learning_rates@[i].key() > 0 by {
                assert(rates(i) is None);
            }
        }
    }
    assert((forall|i: int|
        0 <= i < g.max_interaction_orders@.len() ==> 1 <= #[trigger] g.max_interaction_orders@[i]
            <= 3) <==> forall|i: int|
        0 <= i < g.max_interaction_orders@.len() ==> (#[trigger] orders(i)) is None) by {
        if forall|i: int| 0 <= i < g.max_interaction_orders@.len() ==> (#[trigger] orders(i)) is None {
            assert forall|i: int| 0 <= i < g.max_interaction_orders@.len() implies 1
                <= #[trigger] g.max_interaction_orders@[i] <= 3 by {
                assert(orders(i) is None);
            }
        }
    }
    assert((forall|i: int|
        0 <= i < g.random_strengths@.len() ==> (#[trigger] g.random_strengths@[i]).finite()
            && g.random_strengths@[i].key() >= 0) <==> forall|i: int|
        0 <= i < g.random_strengths@.len() ==> (#[trigger] strengths(i)) is None) by {
        if forall|i: int| 0 <= i < g.random_strengths@.len() ==> (#[trigger] strengths(i)) is None {
            assert forall|i: int| 0 <= i < g.random_strengths@.len() implies (
            #[trigger] g.random_strengths@[i]).finite() && g.random_strengths@[i].key() >= 0 by {
                assert(strengths(i) is None);
            }
        }
    }
    if g.n_trees@.contains(0u32) {
        let i = choose|i: int| 0 <= i < g.n_trees@.len() && g.n_trees@[i] == 0;
        assert(g.n_trees@[i] == 0);
    } else {
        assert forall|i: int| 0 <= i < g.n_trees@.len() implies #[trigger] g.n_trees@[i] >= 1 by {
            assert(g.n_trees@.contains(g.n_trees@[i]));
        }
    }
}

/// An ensemble is accepted exactly when it has members: bags, or a library with
/// selection bags, of which no more are seeded than it has, over candidates that
/// are accepted.
pub proof fn law_accepted_ensembles_are_sound(e: EnsembleSpec)
    ensures
        ensemble_fault(e) is None <==> match e {
            EnsembleSpec::Off => true,
            EnsembleSpec::OuterBag { n_bags } => n_bags >= 1,
            EnsembleSpec::GreedySelect { library_size, hp_grid, selection_bags, seed_top_n } => {
                &&& library_size >= 1
                &&& selection_bags >= 1
                &&& 1 <= seed_top_n <= library_size
                &&& hp_grid_fault(hp_grid) is None
            },
        },
{
}

/// Booster knobs are accepted exactly when each is, the noise strength is finite
/// and not negative, and dropout is not combined with look-ahead.
pub proof fn law_accepted_boosters_are_sound(c: BoosterConfig)
    ensures
        booster_fault(c) is None <==> {
            &&& refit_fault(c.refit_leaves) is None
            &&& ensemble_fault(c.ensemble) is None
            &&& c.dart matches Some(d) ==> dart_fault(d) is None && c.nesterov is Off
            &&& c.random_strength.finite() && c.random_strength.key() >= 0
        },
{
}

/// The settings of an ordinal count through the lists like the digits of a number:
/// the first list turns fastest, each other one once the lists before it are
/// through.
pub proof fn law_ordinals_count_through_the_lists(g: HpGrid, n: nat)
    requires
        choice_fault(g) is None,
    ensures
        ({
            let a = n / g.max_bins@.len();
            let b = a / g.lambdas@.len();
            let c = b / g.learning_rates@.len();
            let d = c / g.n_trees@.len();
            let e = d / g.max_interaction_orders@.len();
            choice_at(g, n) == (HpChoice {
                max_bin: g.max_bins@[(n % g.max_bins@.len()) as int],
                lambda: g.lambdas@[(a % g.lambdas@.len()) as int],
                learning_rate: g.learning_rates@[(b % g.learning_rates@.len()) as int],
                n_trees: g.n_trees@[(c % g.n_trees@.len()) as int],
                max_order: g.max_interaction_orders@[(d % g.max_interaction_orders@.len()) as int],
                random_strength: g.random_strengths@[(e % g.random_strengths@.len()) as int],
            })
        }),
        choice_fault(g) is None <==> g.max_bins@.len() > 0 && g.lambdas@.len() > 0
            && g.learning_rates@.len() > 0 && g.n_trees@.len() > 0 && g.max_interaction_orders@.len()
            > 0 && g.random_strengths@.len() > 0,
{
    reveal_with_fuel(rest_after, 7);
    let r = radices(g);
    assert(r[0] > 0 && r[1] > 0 && r[2] > 0 && r[3] > 0 && r[4] > 0 && r[5] > 0);
}

} // verus!
