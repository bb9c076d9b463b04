//! The one error type of the library.
//!
//! Every fallible function returns `Result<_, PbError>`. The view of an error is
//! a [`Fault`]: its variant with the text it carries, so that a contract can say
//! exactly which error comes back and with which message.
use crate::float::F32;
use crate::shown::{number_shown, shown};
use crate::text::{dec, decimal};
use vstd::prelude::*;

verus! {

/// The lossless properties that the library upholds.
#[derive(Debug, Clone, Copy, PartialEq, Eq, Structural)]
pub enum Invariant {
    /// Every tree has depth 1 to 3 with exactly `depth` distinct raw features.
    FeatureBudget,
    /// Every table is pure: each axis slice has weighted mean zero.
    Decomposability,
    /// Total signed mass is conserved across purification.
    MassConservation,
    /// The ensemble equals the intercept plus the sum of its tables.
    Reconstruction,
    /// Total variance equals the sum of the per-table variances.
    VarianceSum,
    /// Tree sum, table sum and Shapley sum agree.
    ThreeWayEqual,
}

/// The one error type of the library.
#[derive(Debug)]
pub enum PbError {
    /// Data handed in by the caller is malformed.
    InvalidInput { what: String },
    /// A buffer or column had the wrong element type.
    DtypeMismatch { expected: &'static str },
    /// Two arrays or axes that had to agree on length or rank did not.
    ShapeMismatch { what: String },
    /// A configuration value is outside its legal range.
    InvalidConfig { what: String },
    /// One of the lossless properties failed its check.
    InvariantViolated { broken: Invariant },
    /// An operation that cannot preserve exact decomposability was attempted.
    ExactnessFirewall(String),
    /// A table, or the whole bank, would exceed its cell budget.
    TableBudget { what: String, cells: u64, budget: u64 },
    /// Serialization or deserialization failed.
    Serialization(String),
    /// A condition that the library itself rules out did not hold.
    Internal { what: String },
}

/// What an error says: its variant, with its texts as character sequences.
pub enum Fault {
    InvalidInput(Seq<char>),
    DtypeMismatch(Seq<char>),
    ShapeMismatch(Seq<char>),
    InvalidConfig(Seq<char>),
    InvariantViolated(Invariant),
    ExactnessFirewall(Seq<char>),
    TableBudget(Seq<char>, u64, u64),
    Serialization(Seq<char>),
    Internal(Seq<char>),
}

impl View for PbError {
    type V = Fault;

    open spec fn view(&self) -> Fault {
        match *self {
            PbError::InvalidInput { what } => Fault::InvalidInput(what@),
            PbError::DtypeMismatch { expected } => Fault::DtypeMismatch(expected@),
            PbError::ShapeMismatch { what } => Fault::ShapeMismatch(what@),
            PbError::InvalidConfig { what } => Fault::InvalidConfig(what@),
            PbError::InvariantViolated { broken } => Fault::InvariantViolated(broken),
            PbError::ExactnessFirewall(s) => Fault::ExactnessFirewall(s@),
            PbError::TableBudget { what, cells, budget } => Fault::TableBudget(what@, cells, budget),
            PbError::Serialization(s) => Fault::Serialization(s@),
            PbError::Internal { what } => Fault::Internal(what@),
        }
    }
}

/// The displayed name of an invariant.
pub open spec fn invariant_text(i: Invariant) -> Seq<char> {
    match i {
        Invariant::FeatureBudget => "FeatureBudget (I1: depth-3, ≤3 distinct raw features)"@,
        Invariant::Decomposability => "Decomposability (purity: every table slice has w-mean zero)"@,
        Invariant::MassConservation => "MassConservation (signed w-mass conserved)"@,
        Invariant::Reconstruction => "Reconstruction (ensemble == intercept + Σ tables)"@,
        Invariant::VarianceSum => "VarianceSum (σ²(F) == Σ σ²(f_u))"@,
        Invariant::ThreeWayEqual => "ThreeWayEqual (tree == table == Shapley sum)"@,
    }
}

/// The displayed text of an error.
pub open spec fn fault_text(f: Fault) -> Seq<char> {
    match f {
        Fault::InvalidInput(w) => "invalid input: "@ + w,
        Fault::DtypeMismatch(w) => "dtype mismatch: expected "@ + w,
        Fault::ShapeMismatch(w) => "shape mismatch: "@ + w,
        Fault::InvalidConfig(w) => "invalid config: "@ + w,
        Fault::InvariantViolated(i) => "invariant violated: "@ + invariant_text(i),
        Fault::ExactnessFirewall(w) => "exactness firewall: "@ + w,
        Fault::TableBudget(w, c, b) => "table budget exceeded: "@ + w + " would materialize "@ + dec(
            c as nat,
        ) + " cells (budget "@ + dec(b as nat) + ")"@,
        Fault::Serialization(w) => "serialization: "@ + w,
        Fault::Internal(w) => "internal bug: "@ + w,
    }
}

impl Invariant {
    /// The displayed name of the invariant.
    pub fn name(&self) -> (s: &'static str)
        ensures
            s@ == invariant_text(*self),
    {
        match self {
            Invariant::FeatureBudget => "FeatureBudget (I1: depth-3, ≤3 distinct raw features)",
            Invariant::Decomposability => "Decomposability (purity: every table slice has w-mean zero)",
            Invariant::MassConservation => "MassConservation (signed w-mass conserved)",
            Invariant::Reconstruction => "Reconstruction (ensemble == intercept + Σ tables)",
            Invariant::VarianceSum => "VarianceSum (σ²(F) == Σ σ²(f_u))",
            Invariant::ThreeWayEqual => "ThreeWayEqual (tree == table == Shapley sum)",
        }
    }
}

fn join(head: &str, tail: &str) -> (s: String)
    ensures
        s@ == head@ + tail@,
{
    let mut s = String::from_str(head);
    s.append(tail);
    s
}

impl PbError {
    /// The error that reports a violated invariant.
    pub fn invariant_violated(broken: Invariant) -> (e: PbError)
        ensures
            e@ == Fault::InvariantViolated(broken),
    {
        PbError::InvariantViolated { broken }
    }

    /// The displayed text of the error.
    pub fn message(&self) -> (s: String)
        ensures
            s@ == fault_text(self@),
    {
        match self {
            PbError::InvalidInput { what } => join("invalid input: ", what.as_str()),
            PbError::DtypeMismatch { expected } => join("dtype mismatch: expected ", expected),
            PbError::ShapeMismatch { what } => join("shape mismatch: ", what.as_str()),
            PbError::InvalidConfig { what } => join("invalid config: ", what.as_str()),
            PbError::InvariantViolated { broken } => join("invariant violated: ", broken.name()),
            PbError::ExactnessFirewall(s) => join("exactness firewall: ", s.as_str()),
            PbError::TableBudget { what, cells, budget } => {
                let mut s = join("table budget exceeded: ", what.as_str());
                s.append(" would materialize ");
                s.append(decimal(*cells).as_str());
                s.append(" cells (budget ");
                s.append(decimal(*budget).as_str());
                s.append(")");
                s
            },
            PbError::Serialization(s) => join("serialization: ", s.as_str()),
            PbError::Internal { what } => join("internal bug: ", what.as_str()),
        }
    }
}

/// An [`PbError::InvalidInput`] with a fixed text.
pub fn invalid_input(what: &str) -> (e: PbError)
    ensures
        e@ == Fault::InvalidInput(what@),
{
    PbError::InvalidInput { what: String::from_str(what) }
}

/// A [`PbError::ShapeMismatch`] with a fixed text.
pub fn shape_mismatch(what: &str) -> (e: PbError)
    ensures
        e@ == Fault::ShapeMismatch(what@),
{
    PbError::ShapeMismatch { what: String::from_str(what) }
}

/// A configuration error that ends in the number it is about.
pub fn refused_setting(head: &str, a: F32) -> (e: PbError)
    ensures
        e@ == Fault::InvalidConfig(head@ + shown(a)),
{
    PbError::InvalidConfig { what: number_shown(head, a) }
}

/// A [`PbError::InvalidConfig`] with a fixed text.
pub fn invalid_config(what: &str) -> (e: PbError)
    ensures
        e@ == Fault::InvalidConfig(what@),
{
    PbError::InvalidConfig { what: String::from_str(what) }
}

/// A [`PbError::Internal`] with a fixed text.
pub fn internal(what: &str) -> (e: PbError)
    ensures
        e@ == Fault::Internal(what@),
{
    PbError::Internal { what: String::from_str(what) }
}

/// How a checked function answers: success exactly when no fault applies, and
/// otherwise that fault.
pub open spec fn answers<T>(r: Result<T, PbError>, fault: Option<Fault>) -> bool {
    match fault {
        None => r is Ok,
        Some(f) => r is Err && r->Err_0@ == f,
    }
}

/// The fault of the first item from `from` on that has one.
pub open spec fn first_fault(f: spec_fn(int) -> Option<Fault>, from: int, n: int) -> Option<Fault>
    decreases n - from,
{
    if from >= n {
        None
    } else if f(from) is Some {
        f(from)
    } else {
        first_fault(f, from + 1, n)
    }
}

/// Scanning from `from` and finding nothing before `k` leaves the search at `k`.
pub proof fn lemma_first_fault(f: spec_fn(int) -> Option<Fault>, from: int, k: int, n: int)
    requires
        from <= k <= n,
        forall|i: int| from <= i < k ==> (#[trigger] f(i)) is None,
    ensures
        first_fault(f, from, n) == first_fault(f, k, n),
    decreases k - from,
{
    if from < k {
        assert(f(from) is None);
        lemma_first_fault(f, from + 1, k, n);
    }
}

/// No first fault means no fault at all.
pub proof fn lemma_all_none(f: spec_fn(int) -> Option<Fault>, from: int, n: int)
    requires
        first_fault(f, from, n) is None,
    ensures
        forall|i: int| from <= i < n ==> (#[trigger] f(i)) is None,
    decreases n - from,
{
    if from < n {
        lemma_all_none(f, from + 1, n);
    }
}

/// There is no first fault exactly where no item has one.
pub proof fn lemma_no_fault(f: spec_fn(int) -> Option<Fault>, n: int)
    ensures
        first_fault(f, 0, n) is None <==> forall|i: int| 0 <= i < n ==> (#[trigger] f(i)) is None,
{
    if first_fault(f, 0, n) is None {
        lemma_all_none(f, 0, n);
    }
    if n > 0 && forall|i: int| 0 <= i < n ==> (#[trigger] f(i)) is None {
        lemma_first_fault(f, 0, n, n);
    }
}

} // verus!
