//! Interaction policy, monotone signs, credibility floors, and the sign pattern
//! of the eight-leaf Walsh-Hadamard transform.
use crate::cat::finite_not_negative;
use crate::data::FeatureId;
use crate::error::{answers, invalid_config, Fault, PbError};
use crate::float::F32;
use vstd::prelude::*;

verus! {

/// The direction in which a response must move with a feature.
#[derive(Debug, Clone, Copy, PartialEq, Eq, Structural)]
pub enum MonoSign {
    Increasing,
    Decreasing,
    /// No constraint.
    Free,
}

/// A set of raw features.
#[derive(Debug, Clone, PartialEq)]
pub struct FeatureSet {
    pub ids: Vec<FeatureId>,
}

impl FeatureSet {
    /// Whether the feature belongs to the set.
    pub fn contains(&self, raw: FeatureId) -> (b: bool)
        ensures
            b == self.ids@.contains(raw),
    {
        let mut i: usize = 0;
        while i < self.ids.len()
            invariant
                i <= self.ids.len(),
                forall|j: int| 0 <= j < i ==> self.ids@[j] != raw,
            decreases self.ids.len() - i,
        {
            if self.ids[i] == raw {
                assert(self.ids@[i as int] == raw);
                return true;
            }
            i = i + 1;
        }
        false
    }
}

/// The number of cells that a table may have by default.
pub fn default_table_budget_cells() -> (n: u64)
    ensures
        n == 2_000_000,
{
    2_000_000
}

/// Which interactions a model may hold.
#[derive(Debug, Clone, PartialEq)]
pub struct InteractionPolicy {
    /// At most this many features per tree.
    pub max_order: u8,
    /// Where given, the features of a tree all lie in one of these groups.
    pub groups: Option<Vec<FeatureSet>>,
    /// The strength of the table-size prior.
    pub table_budget_beta: F32,
    /// Tables up to this size are not penalised.
    pub table_budget_cells: u64,
}

impl Default for InteractionPolicy {
    fn default() -> (p: InteractionPolicy)
        ensures
            p.max_order == 3,
            p.groups is None,
            p.table_budget_beta == (F32 { bits: 0x3f00_0000 }),
            p.table_budget_cells == 2_000_000,
    {
        InteractionPolicy {
            max_order: 3,
            groups: None,
            table_budget_beta: F32 { bits: 0x3f00_0000 },
            table_budget_cells: default_table_budget_cells(),
        }
    }
}

/// The least support of the leaves of a tree, and how far leaves are drawn
/// towards their parents.
#[derive(Debug, Clone, Copy, PartialEq, Eq, Structural)]
pub struct CredibilityFloor {
    /// The fewest rows of a leaf.
    pub min_data_in_leaf: u32,
    /// The least sum of hessians of a leaf.
    pub min_sum_hessian_in_leaf: F32,
    /// The least sum of weights of a leaf.
    pub min_weight_sum_in_leaf: F32,
    /// The weight of a leaf's parent; zero leaves the leaf as it is.
    pub path_smooth: F32,
}

impl Default for CredibilityFloor {
    fn default() -> (c: CredibilityFloor)
        ensures
            c == (CredibilityFloor {
                min_data_in_leaf: 0,
                min_sum_hessian_in_leaf: F32 { bits: 0 },
                min_weight_sum_in_leaf: F32 { bits: 0 },
                path_smooth: F32 { bits: 0 },
            }),
    {
        CredibilityFloor {
            min_data_in_leaf: 0,
            min_sum_hessian_in_leaf: F32 { bits: 0 },
            min_weight_sum_in_leaf: F32 { bits: 0 },
            path_smooth: F32 { bits: 0 },
        }
    }
}

/// Why floors are refused, in the order of the checks.
pub open spec fn floor_fault(c: CredibilityFloor) -> Option<Fault> {
    if !finite_not_negative(c.min_sum_hessian_in_leaf) {
        Some(Fault::InvalidConfig("min_sum_hessian_in_leaf must be finite and >= 0"@))
    } else if !finite_not_negative(c.min_weight_sum_in_leaf) {
        Some(Fault::InvalidConfig("min_weight_sum_in_leaf must be finite and >= 0"@))
    } else if !finite_not_negative(c.path_smooth) {
        Some(Fault::InvalidConfig("path_smooth must be finite and >= 0"@))
    } else {
        None
    }
}

impl CredibilityFloor {
    /// Whether no candidate can fall below a floor.
    pub fn rejects_nothing(&self) -> (b: bool)
        ensures
            b == (self.min_data_in_leaf == 0 && !self.min_sum_hessian_in_leaf.positive()
                && !self.min_weight_sum_in_leaf.positive()),
    {
        self.min_data_in_leaf == 0 && !self.min_sum_hessian_in_leaf.is_positive()
            && !self.min_weight_sum_in_leaf.is_positive()
    }

    /// Refuses floors that cannot be honoured.
    pub fn validate(&self) -> (r: Result<(), PbError>)
        ensures
            answers(r, floor_fault(*self)),
    {
        if !self.min_sum_hessian_in_leaf.is_finite() || self.min_sum_hessian_in_leaf.order_key() < 0 {
            return Err(invalid_config("min_sum_hessian_in_leaf must be finite and >= 0"));
        }
        if !self.min_weight_sum_in_leaf.is_finite() || self.min_weight_sum_in_leaf.order_key() < 0 {
            return Err(invalid_config("min_weight_sum_in_leaf must be finite and >= 0"));
        }
        if !self.path_smooth.is_finite() || self.path_smooth.order_key() < 0 {
            return Err(invalid_config("path_smooth must be finite and >= 0"));
        }
        Ok(())
    }
}

/// Whether a mask and a leaf share bit `k` (given as its weight).
pub open spec fn share_bit(mask: int, leaf: int, weight: int) -> bool {
    (mask / weight) % 2 == 1 && (leaf / weight) % 2 == 1
}

/// The sign with which a leaf enters the coefficient of a mask: negative when
/// they share an odd number of bits.
pub open spec fn sign_of(mask: int, leaf: int) -> int {
    let a = share_bit(mask, leaf, 1);
    let b = share_bit(mask, leaf, 2);
    let c = share_bit(mask, leaf, 4);
    if (a != b) != c {
        -1
    } else {
        1
    }
}

/// The sign with which a leaf enters the coefficient of a mask.
pub fn sign(mask: u8, leaf: u8) -> (s: i8)
    requires
        mask < 8,
        leaf < 8,
    ensures
        s as int == sign_of(mask as int, leaf as int),
{
    let a: bool = mask % 2 == 1 && leaf % 2 == 1;
    let b: bool = (mask / 2) % 2 == 1 && (leaf / 2) % 2 == 1;
    let c: bool = (mask / 4) % 2 == 1 && (leaf / 4) % 2 == 1;
    if (a != b) != c {
        -1
    } else {
        1
    }
}

/// A value with the sign of its leaf in a mask.
pub open spec fn signed(mask: int, leaf: int, x: int) -> int {
    if sign_of(mask, leaf) == 1 {
        x
    } else {
        -x
    }
}

/// The signed sum of eight values for one mask.
pub open spec fn wht_sum(v: Seq<int>, mask: int) -> int {
    signed(mask, 0, v[0]) + signed(mask, 1, v[1]) + signed(mask, 2, v[2]) + signed(mask, 3, v[3])
        + signed(mask, 4, v[4]) + signed(mask, 5, v[5]) + signed(mask, 6, v[6]) + signed(
        mask,
        7,
        v[7],
    )
}

/// All eight signed sums.
pub open spec fn wht_sums(v: Seq<int>) -> Seq<int> {
    Seq::new(8, |mask: int| wht_sum(v, mask))
}

/// The transform undoes itself up to the factor eight: the leaves can be had back
/// from their coefficients.
pub proof fn law_wht_inverts(v: Seq<int>, leaf: int)
    requires
        v.len() == 8,
        0 <= leaf < 8,
    ensures
        wht_sum(wht_sums(v), leaf) == 8 * v[leaf],
{
    let w = wht_sums(v);
    assert(w[0] == v[0] + v[1] + v[2] + v[3] + v[4] + v[5] + v[6] + v[7]);
    assert(w[1] == v[0] - v[1] + v[2] - v[3] + v[4] - v[5] + v[6] - v[7]);
    assert(w[2] == v[0] + v[1] - v[2] - v[3] + v[4] + v[5] - v[6] - v[7]);
    assert(w[3] == v[0] - v[1] - v[2] + v[3] + v[4] - v[5] - v[6] + v[7]);
    assert(w[4] == v[0] + v[1] + v[2] + v[3] - v[4] - v[5] - v[6] - v[7]);
    assert(w[5] == v[0] - v[1] + v[2] - v[3] - v[4] + v[5] - v[6] + v[7]);
    assert(w[6] == v[0] + v[1] - v[2] - v[3] - v[4] - v[5] + v[6] + v[7]);
    assert(w[7] == v[0] - v[1] - v[2] + v[3] - v[4] + v[5] + v[6] - v[7]);
    assert(leaf == 0 || leaf == 1 || leaf == 2 || leaf == 3 || leaf == 4 || leaf == 5 || leaf == 6
        || leaf == 7);
}

/// Floors are accepted exactly when they are finite and not negative.
pub proof fn law_accepted_floors_are_sound(c: CredibilityFloor)
    ensures
        floor_fault(c) is None <==> {
            &&& c.min_sum_hessian_in_leaf.finite() && c.min_sum_hessian_in_leaf.key() >= 0
            &&& c.min_weight_sum_in_leaf.finite() && c.min_weight_sum_in_leaf.key() >= 0
            &&& c.path_smooth.finite() && c.path_smooth.key() >= 0
        },
{
}

/// The sign of a leaf is negative exactly when it shares an odd number of bits
/// with the mask.
pub proof fn law_signs_count_shared_bits(mask: int, leaf: int)
    requires
        0 <= mask < 8,
        0 <= leaf < 8,
    ensures
        ({
            let shared = (mask % 2) * (leaf % 2) + (mask / 2 % 2) * (leaf / 2 % 2) + (mask / 4) * (leaf
                / 4);
            sign_of(mask, leaf) == if shared % 2 == 1 {
                -1int
            } else {
                1int
            }
        }),
{
    let (a, b, c) = (mask % 2, mask / 2 % 2, mask / 4);
    let (x, y, z) = (leaf % 2, leaf / 2 % 2, leaf / 4);
    assert(a * x == if a == 1 && x == 1 { 1int } else { 0int }) by (nonlinear_arith)
        requires
            0 <= a <= 1,
            0 <= x <= 1,
    ;
    assert(b * y == if b == 1 && y == 1 { 1int } else { 0int }) by (nonlinear_arith)
        requires
            0 <= b <= 1,
            0 <= y <= 1,
    ;
    assert(c * z == if c == 1 && z == 1 { 1int } else { 0int }) by (nonlinear_arith)
        requires
            0 <= c <= 1,
            0 <= z <= 1,
    ;
}

} // verus!
