//! The optimiser's configuration, and the estimator that holds it.
use crate::boosters::config::{booster_fault, BoosterConfig};
use crate::cat::finite_not_negative;
use crate::error::{answers, invalid_config, refused_setting, Fault, PbError};
use crate::float::F32;
use crate::shown::shown;
use vstd::prelude::*;

verus! {

/// Which rows choose the splits of a round.
#[derive(Debug, Clone, Copy, PartialEq, Eq, Structural)]
pub enum Sampling {
    /// All training rows.
    Full,
    /// A share of the rows, drawn in favour of large gradients.
    Mvs { rate: F32, min_rows: u32 },
}

impl Default for Sampling {
    fn default() -> (s: Sampling)
        ensures
            s == Sampling::Full,
    {
        Sampling::Full
    }
}

/// How the sums of a histogram are held.
#[derive(Debug, Clone, Copy, PartialEq, Eq, Structural)]
pub enum HistPrecision {
    /// As floating-point numbers.
    FullF64,
    /// As whole steps of a common size.
    QuantizedI32,
}

impl Default for HistPrecision {
    fn default() -> (p: HistPrecision)
        ensures
            p == HistPrecision::FullF64,
    {
        HistPrecision::FullF64
    }
}

/// The optimiser's configuration.
#[derive(Debug, Clone, PartialEq)]
pub struct Config {
    /// At most this many rounds.
    pub n_trees: u32,
    pub learning_rate: F32,
    /// The penalty on squared leaf values.
    pub lambda: F32,
    /// A level ends when its best gain does not exceed this.
    pub min_split_gain: F32,
    /// A cap on the size of a leaf's Newton step; without one, the loss decides.
    pub max_delta_step: Option<F32>,
    pub sampling: Sampling,
    pub hist_precision: HistPrecision,
    /// The penalty on absolute leaf values.
    pub l1_leaf: F32,
    /// The share of the axes that a tree may split on.
    pub colsample_bytree: F32,
    /// How fast the learning rate falls over the rounds.
    pub learning_rate_decay: F32,
    /// The share of the rows that is held out to stop early.
    pub validation_fraction: Option<F32>,
    /// Stop after this many trees without a better score.
    pub early_stopping_rounds: u32,
    /// At most this many refining steps of the leaves of a new tree.
    pub leaf_refine_steps: u32,
    /// At most this many trials per refining step.
    pub leaf_refine_backtracks: u32,
    pub boosters: BoosterConfig,
}

/// Whether a configuration is the default one.
pub open spec fn is_default(c: Config) -> bool {
    &&& c.n_trees == 1000
    &&& c.learning_rate.bits == 0x3d4c_cccd
    &&& c.lambda.bits == 0x3f80_0000
    &&& c.min_split_gain.bits == 0
    &&& c.max_delta_step is None
    &&& c.sampling == Sampling::Full
    &&& c.hist_precision == HistPrecision::FullF64
    &&& c.l1_leaf.bits == 0
    &&& c.colsample_bytree.bits == 0x3f80_0000
    &&& c.learning_rate_decay.bits == 0
    &&& c.validation_fraction is None
    &&& c.early_stopping_rounds == 50
    &&& c.leaf_refine_steps == 0
    &&& c.leaf_refine_backtracks == 4
    &&& c.boosters.refit_leaves is Off
    &&& c.boosters.nesterov is Off
    &&& c.boosters.ensemble is Off
    &&& c.boosters.dart is None
    &&& c.boosters.random_strength.bits == 0
    &&& !c.boosters.reanchor
}

impl Default for Config {
    fn default() -> (c: Config)
        ensures
            is_default(c),
    {
        Config {
            n_trees: 1000,
            learning_rate: F32 { bits: 0x3d4c_cccd },
            lambda: F32 { bits: 0x3f80_0000 },
            min_split_gain: F32 { bits: 0 },
            max_delta_step: None,
            sampling: Sampling::Full,
            hist_precision: HistPrecision::FullF64,
            l1_leaf: F32 { bits: 0 },
            colsample_bytree: F32 { bits: 0x3f80_0000 },
            learning_rate_decay: F32 { bits: 0 },
            validation_fraction: None,
            early_stopping_rounds: 50,
            leaf_refine_steps: 0,
            leaf_refine_backtracks: 4,
            boosters: BoosterConfig::default(),
        }
    }
}

/// Whether a number is finite and above zero.
pub open spec fn finite_positive(x: F32) -> bool {
    x.finite() && x.key() > 0
}

/// The number one.
pub open spec fn one() -> F32 {
    F32 { bits: 0x3f80_0000 }
}

/// Whether a number is a share: above zero and at most one.
pub open spec fn is_share(x: F32) -> bool {
    x.positive() && x.at_most(one())
}

/// Whether a number is a proper share: above zero and below one.
pub open spec fn is_proper_share(x: F32) -> bool {
    x.positive() && x.below(one())
}

/// Why a way of sampling is refused.
pub open spec fn sampling_fault(s: Sampling) -> Option<Fault> {
    match s {
        Sampling::Full => None,
        Sampling::Mvs { rate, min_rows } => if !is_share(rate) {
            Some(Fault::InvalidConfig("MVS rate must be in (0, 1]"@))
        } else if min_rows == 0 {
            Some(Fault::InvalidConfig("MVS min_rows must be > 0"@))
        } else {
            None
        },
    }
}

/// Why the knobs of the loop are refused, in the order of the checks.
pub open spec fn loop_fault(c: Config) -> Option<Fault> {
    if sampling_fault(c.sampling) is Some {
        sampling_fault(c.sampling)
    } else if !finite_not_negative(c.l1_leaf) {
        Some(Fault::InvalidConfig("l1_leaf must be finite and >= 0"@))
    } else if !is_share(c.colsample_bytree) {
        Some(Fault::InvalidConfig("colsample_bytree must be in (0, 1]"@))
    } else if !finite_not_negative(c.learning_rate_decay) {
        Some(Fault::InvalidConfig("learning_rate_decay must be finite and >= 0"@))
    } else if c.validation_fraction is Some && !is_proper_share(c.validation_fraction->0) {
        Some(Fault::InvalidConfig("validation_fraction must be in (0, 1) when set"@))
    } else if c.validation_fraction is Some && c.early_stopping_rounds == 0 {
        Some(Fault::InvalidConfig("early_stopping_rounds must be > 0 with a validation split"@))
    } else if c.leaf_refine_steps > 0 && c.leaf_refine_backtracks == 0 {
        Some(Fault::InvalidConfig("leaf_refine_backtracks must be > 0 when leaves are refined"@))
    } else {
        None
    }
}

/// Why a configuration is refused, in the order of the checks.
pub open spec fn config_fault(c: Config) -> Option<Fault> {
    if c.n_trees == 0 {
        Some(Fault::InvalidConfig("n_trees must be > 0"@))
    } else if !finite_positive(c.learning_rate) {
        Some(Fault::InvalidConfig("learning_rate must be finite and > 0, got "@ + shown(c.learning_rate)))
    } else if !finite_not_negative(c.lambda) {
        Some(Fault::InvalidConfig("lambda must be finite and >= 0, got "@ + shown(c.lambda)))
    } else if !finite_not_negative(c.min_split_gain) {
        Some(Fault::InvalidConfig("min_split_gain must be finite and >= 0, got "@ + shown(c.min_split_gain)))
    } else if c.max_delta_step is Some && !finite_positive(c.max_delta_step->0) {
        Some(
            Fault::InvalidConfig("max_delta_step must be finite and > 0 when set, got "@ + shown(c.max_delta_step->0)),
        )
    } else if loop_fault(c) is Some {
        loop_fault(c)
    } else {
        booster_fault(c.boosters)
    }
}

impl Sampling {
    /// Refuses a way of sampling that cannot be honoured.
    pub fn validate(&self) -> (r: Result<(), PbError>)
        ensures
            answers(r, sampling_fault(*self)),
    {
        match *self {
            Sampling::Full => Ok(()),
            Sampling::Mvs { rate, min_rows } => {
                if !rate.is_positive() || !rate.le(&F32 { bits: 0x3f80_0000 }) {
                    return Err(invalid_config("MVS rate must be in (0, 1]"));
                }
                if min_rows == 0 {
                    return Err(invalid_config("MVS min_rows must be > 0"));
                }
                Ok(())
            },
        }
    }
}

impl Config {
    fn validate_loop(&self) -> (r: Result<(), PbError>)
        ensures
            answers(r, loop_fault(*self)),
    {
        match self.sampling.validate() {
            Err(e) => return Err(e),
            Ok(()) => {},
        }
        if !self.l1_leaf.is_finite() || self.l1_leaf.order_key() < 0 {
            return Err(invalid_config("l1_leaf must be finite and >= 0"));
        }
        let one = F32 { bits: 0x3f80_0000 };
        if !self.colsample_bytree.is_positive() || !self.colsample_bytree.le(&one) {
            return Err(invalid_config("colsample_bytree must be in (0, 1]"));
        }
        if !self.learning_rate_decay.is_finite() || self.learning_rate_decay.order_key() < 0 {
            return Err(invalid_config("learning_rate_decay must be finite and >= 0"));
        }
        match self.validation_fraction {
            Some(share) => {
                if !share.is_positive() || !share.lt(&one) {
                    return Err(invalid_config("validation_fraction must be in (0, 1) when set"));
                }
                if self.early_stopping_rounds == 0 {
                    return Err(
                        invalid_config("early_stopping_rounds must be > 0 with a validation split"),
                    );
                }
            },
            None => {},
        }
        if self.leaf_refine_steps > 0 && self.leaf_refine_backtracks == 0 {
            return Err(
                invalid_config("leaf_refine_backtracks must be > 0 when leaves are refined"),
            );
        }
        Ok(())
    }

    /// Refuses a configuration that cannot be honoured.
    pub fn validate(&self) -> (r: Result<(), PbError>)
        ensures
            answers(r, config_fault(*self)),
    {
        if self.n_trees == 0 {
            return Err(invalid_config("n_trees must be > 0"));
        }
        if !self.learning_rate.is_finite() || self.learning_rate.order_key() <= 0 {
            return Err(refused_setting("learning_rate must be finite and > 0, got ", self.learning_rate));
        }
        if !self.lambda.is_finite() || self.lambda.order_key() < 0 {
            return Err(refused_setting("lambda must be finite and >= 0, got ", self.lambda));
        }
        if !self.min_split_gain.is_finite() || self.min_split_gain.order_key() < 0 {
            return Err(refused_setting("min_split_gain must be finite and >= 0, got ", self.min_split_gain));
        }
        match self.max_delta_step {
            Some(d) => {
                if !d.is_finite() || d.order_key() <= 0 {
                    return Err(
                        refused_setting("max_delta_step must be finite and > 0 when set, got ", d),
                    );
                }
            },
            None => {},
        }
        match self.validate_loop() {
            Err(e) => return Err(e),
            Ok(()) => {},
        }
        self.boosters.validate()
    }

    /// The cap on a leaf's Newton step: the configured one, or that of the loss.
    pub fn step_cap(&self, of_loss: Option<F32>) -> (cap: Option<F32>)
        ensures
            cap == (if self.max_delta_step is Some {
                self.max_delta_step
            } else {
                of_loss
            }),
    {
        match self.max_delta_step {
            Some(d) => Some(d),
            None => of_loss,
        }
    }
}

/// The estimator: a configuration that can be fitted.
#[derive(Debug, Clone)]
pub struct Booster {
    config: Config,
}

impl Booster {
    /// The configuration.
    pub closed spec fn settings(&self) -> Config {
        self.config
    }

    /// An estimator with the default configuration.
    pub fn new() -> (b: Booster)
        ensures
            is_default(b.settings()),
    {
        Booster { config: Config::default() }
    }

    /// An estimator with the given configuration.
    pub fn with_config(config: Config) -> (b: Booster)
        ensures
            b.settings() == config,
    {
        Booster { config }
    }

    /// The configuration.
    pub fn config(&self) -> (c: &Config)
        ensures
            *c == self.settings(),
    {
        &self.config
    }
}

/// A configuration is accepted exactly when there are trees to grow, the learning
/// rate is finite and above zero, the other numbers are finite and not negative,
/// shares lie between zero and one, and what depends on another knob is set with
/// it.
pub proof fn law_accepted_configs_are_sound(c: Config)
    ensures
        config_fault(c) is None <==> {
            &&& c.n_trees >= 1
            &&& c.learning_rate.finite() && c.learning_rate.key() > 0
            &&& c.lambda.finite() && c.lambda.key() >= 0
            &&& c.min_split_gain.finite() && c.min_split_gain.key() >= 0
            &&& c.max_delta_step matches Some(d) ==> d.finite() && d.key() > 0
            &&& c.sampling matches Sampling::Mvs { rate, min_rows } ==> !rate.nan() && 0 < rate.key()
                <= 0x3f80_0000 && min_rows >= 1
            &&& c.l1_leaf.finite() && c.l1_leaf.key() >= 0
            &&& !c.colsample_bytree.nan() && 0 < c.colsample_bytree.key() <= 0x3f80_0000
            &&& c.learning_rate_decay.finite() && c.learning_rate_decay.key() >= 0
            &&& c.validation_fraction matches Some(v) ==> !v.nan() && 0 < v.key() < 0x3f80_0000
                && c.early_stopping_rounds >= 1
            &&& c.leaf_refine_steps > 0 ==> c.leaf_refine_backtracks >= 1
            &&& booster_fault(c.boosters) is None
        },
{
}

} // verus!
