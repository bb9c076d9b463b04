//! Trees, models and the configuration of the engine.
use crate::data::AxisProvenance;
use crate::error::{
    answers, first_fault, internal, lemma_all_none, lemma_first_fault, lemma_no_fault, Fault, Invariant, PbError,
};
use crate::float::F32;
use crate::raws::{raw_items, RawList};
use crate::text::{dec, with_number};
use vstd::arithmetic::power2::*;
use vstd::prelude::*;

pub mod bags;
pub mod check;
pub mod clamp;
pub mod config;
pub mod correct;
pub mod dart;
pub mod fit_runs;
pub mod grow;
pub mod hist;
pub mod level_hist;
pub mod members;
pub mod model;
pub mod monotone;
pub mod progress;
pub mod quantize;
pub mod refine;
pub mod rows;
pub mod runs;
pub mod select;
pub mod sibling;
pub mod split;
pub mod subtracted;

verus! {

/// Whether a row goes to the low side of a split: the missing bin by the split's
/// choice, a data bin when it does not exceed the split's bin.
pub open spec fn goes_low(bin: u8, bin_le: u8, missing_left: bool) -> bool {
    if bin == 0 {
        missing_left
    } else {
        bin <= bin_le
    }
}

/// Whether a row goes to the low side of a split. The one rule that growing,
/// scoring and explaining share.
pub fn low_bit(bin: u8, bin_le: u8, missing_left: bool) -> (b: bool)
    ensures
        b == goes_low(bin, bin_le, missing_left),
{
    if bin == 0 {
        missing_left
    } else {
        bin <= bin_le
    }
}

/// Whether a model decomposes exactly.
#[derive(Debug, Clone, PartialEq)]
pub enum ExactnessMode {
    Exact,
    Approximate { reason: String },
}

impl Default for ExactnessMode {
    fn default() -> (m: ExactnessMode)
        ensures
            m is Exact,
    {
        ExactnessMode::Exact
    }
}

/// One level of an oblivious tree.
#[derive(Debug, Clone, Copy, PartialEq, Eq, Structural)]
pub struct Split {
    pub axis: u32,
    pub bin_le: u8,
    pub missing_left: bool,
}

/// The side that a row takes at a split.
pub open spec fn split_bit(s: Split, bins: Seq<u8>) -> bool {
    goes_low(bins[s.axis as int], s.bin_le, s.missing_left)
}

/// The leaf that the first `n` splits lead to: split `k` contributes bit `k`.
pub open spec fn leaf_at(splits: Seq<Split>, bins: Seq<u8>, n: nat) -> nat
    decreases n,
{
    if n == 0 {
        0
    } else {
        leaf_at(splits, bins, (n - 1) as nat) + if split_bit(splits[n - 1], bins) {
            pow2((n - 1) as nat)
        } else {
            0
        }
    }
}

/// A leaf index has one bit per split.
pub proof fn lemma_leaf_at_bound(splits: Seq<Split>, bins: Seq<u8>, n: nat)
    ensures
        leaf_at(splits, bins, n) < pow2(n),
    decreases n,
{
    if n == 0 {
        lemma_pow2(0);
        assert(pow2(0) == 1) by {
            lemma2_to64();
        }
    } else {
        lemma_leaf_at_bound(splits, bins, (n - 1) as nat);
        lemma_pow2_unfold(n);
    }
}

/// A tree whose levels each split all nodes in the same way.
#[derive(Debug, Clone, PartialEq)]
pub struct ObliviousTree {
    pub splits: Vec<Split>,
    pub leaves: [F32; 8],
    pub depth: u8,
}

/// Why a split cannot be evaluated on a row.
pub open spec fn lookup_split_fault(splits: Seq<Split>, n_axes: nat, k: int) -> Option<Fault> {
    if splits[k].axis as nat >= n_axes {
        Some(
            Fault::ShapeMismatch(
                "row has no axis "@ + dec(splits[k].axis as nat) + " for tree lookup"@,
            ),
        )
    } else {
        None
    }
}

/// Why a row has no leaf.
pub open spec fn lookup_fault(splits: Seq<Split>, bins: Seq<u8>) -> Option<Fault> {
    let missing = first_fault(
        |k: int| lookup_split_fault(splits, bins.len(), k),
        0,
        splits.len() as int,
    );
    if missing is Some {
        missing
    } else if leaf_at(splits, bins, splits.len()) >= 8 {
        Some(Fault::Internal("oblivious leaf index escaped 0..8"@))
    } else {
        None
    }
}

/// The raw feature of each split.
pub open spec fn raws_of(splits: Seq<Split>, provenance: Seq<AxisProvenance>) -> Seq<u32> {
    splits.map_values(|s: Split| provenance[s.axis as int].raw.0)
}

/// Why a split has no raw feature.
pub open spec fn provenance_fault(
    splits: Seq<Split>,
    provenance: Seq<AxisProvenance>,
    k: int,
) -> Option<Fault> {
    if splits[k].axis as nat >= provenance.len() {
        Some(
            Fault::Internal(
                "split axis "@ + dec(splits[k].axis as nat) + " absent from provenance"@,
            ),
        )
    } else {
        None
    }
}

/// Why splits make no tree: the feature budget allows one to three splits, on
/// distinct raw features.
pub open spec fn tree_fault(splits: Seq<Split>, provenance: Seq<AxisProvenance>) -> Option<Fault> {
    let absent = first_fault(
        |k: int| provenance_fault(splits, provenance, k),
        0,
        splits.len() as int,
    );
    if splits.len() == 0 || splits.len() > 3 {
        Some(Fault::InvariantViolated(Invariant::FeatureBudget))
    } else if absent is Some {
        absent
    } else if !raws_of(splits, provenance).no_duplicates() {
        Some(Fault::InvariantViolated(Invariant::FeatureBudget))
    } else {
        None
    }
}

/// A leaf depends on the bins of the split axes alone.
pub proof fn law_leaf_reads_split_axes_only(splits: Seq<Split>, a: Seq<u8>, b: Seq<u8>, n: nat)
    requires
        n <= splits.len(),
        forall|k: int| 0 <= k < n ==> a[(#[trigger] splits[k]).axis as int] == b[splits[k].axis as int],
    ensures
        leaf_at(splits, a, n) == leaf_at(splits, b, n),
    decreases n,
{
    if n > 0 {
        law_leaf_reads_split_axes_only(splits, a, b, (n - 1) as nat);
    }
}

/// A tree that keeps the feature budget is a table over one to three raw features:
/// rows that agree on these features fall into the same leaf.
pub proof fn law_tree_is_a_table_of_three_features(
    splits: Seq<Split>,
    provenance: Seq<AxisProvenance>,
    a: Seq<u8>,
    b: Seq<u8>,
)
    requires
        tree_fault(splits, provenance) is None,
        forall|axis: int|
            0 <= axis < provenance.len() && raws_of(splits, provenance).contains(
                (#[trigger] provenance[axis]).raw.0,
            ) ==> a[axis] == b[axis],
    ensures
        1 <= raws_of(splits, provenance).len() <= 3,
        raws_of(splits, provenance).no_duplicates(),
        leaf_at(splits, a, splits.len()) == leaf_at(splits, b, splits.len()),
{
    lemma_axes_are_known(splits, provenance);
    assert forall|k: int| 0 <= k < splits.len() implies a[(#[trigger] splits[k]).axis as int]
        == b[splits[k].axis as int] by {
        assert(raws_of(splits, provenance)[k] == provenance[splits[k].axis as int].raw.0);
    }
    law_leaf_reads_split_axes_only(splits, a, b, splits.len());
}

/// A tree that keeps the feature budget has a leaf for every row with all axes.
pub proof fn law_tree_serves_every_row(
    splits: Seq<Split>,
    provenance: Seq<AxisProvenance>,
    bins: Seq<u8>,
)
    requires
        tree_fault(splits, provenance) is None,
        provenance.len() <= bins.len(),
    ensures
        lookup_fault(splits, bins) is None,
{
    lemma_axes_are_known(splits, provenance);
    let f = |k: int| lookup_split_fault(splits, bins.len(), k);
    assert forall|k: int| 0 <= k < splits.len() implies (#[trigger] f(k)) is None by {
        assert(splits[k].axis < provenance.len());
    }
    lemma_first_fault(f, 0, splits.len() as int, splits.len() as int);
    lemma_leaf_at_bound(splits, bins, splits.len());
    lemma2_to64();
    if splits.len() < 3 {
        lemma_pow2_strictly_increases(splits.len(), 3);
    }
}

proof fn lemma_axes_are_known(splits: Seq<Split>, provenance: Seq<AxisProvenance>)
    requires
        tree_fault(splits, provenance) is None,
    ensures
        forall|k: int| 0 <= k < splits.len() ==> (#[trigger] splits[k]).axis < provenance.len(),
{
    let f = |k: int| provenance_fault(splits, provenance, k);
    assert forall|k: int| 0 <= k < splits.len() implies (#[trigger] splits[k]).axis
        < provenance.len() by {
        lemma_all_none(f, 0, splits.len() as int);
        assert(f(k) is None);
    }
}

impl ObliviousTree {
    /// The shape that construction gives: one to three splits, as deep as they
    /// are many.
    pub open spec fn wf(&self) -> bool {
        1 <= self.splits@.len() <= 3 && self.depth as nat == self.splits@.len()
    }

    /// The value of the leaf that a row falls into.
    pub fn lookup(&self, row_bins: &Vec<u8>) -> (r: Result<F32, PbError>)
        requires
            self.splits@.len() <= 64,
        ensures
            answers(r, lookup_fault(self.splits@, row_bins@)),
            r is Ok ==> r->Ok_0 == self.leaves@[leaf_at(
                self.splits@,
                row_bins@,
                self.splits@.len(),
            ) as int],
    {
        let ghost f = |k: int| lookup_split_fault(self.splits@, row_bins@.len(), k);
        let n: usize = self.splits.len();
        let mut idx: u64 = 0;
        let mut weight: u64 = 1;
        let mut k: usize = 0;
        proof {
            lemma2_to64();
        }
        while k < n
            invariant
                k <= n,
                n == self.splits@.len(),
                n <= 64,
                f == (|k: int| lookup_split_fault(self.splits@, row_bins@.len(), k)),
                forall|j: int| 0 <= j < k ==> (#[trigger] f(j)) is None,
                idx == leaf_at(self.splits@, row_bins@, k as nat),
                k < n ==> weight == pow2(k as nat),
            decreases n - k,
        {
            proof {
                lemma_first_fault(f, 0, k as int, n as int);
            }
            let s = self.splits[k];
            if s.axis as usize >= row_bins.len() {
                assert(f(k as int) is Some);
                let what = with_number("row has no axis ", s.axis as u64, " for tree lookup");
                return Err(PbError::ShapeMismatch { what });
            }
            assert(f(k as int) is None);
            proof {
                lemma_leaf_at_bound(self.splits@, row_bins@, (k + 1) as nat);
                lemma_leaf_at_bound(self.splits@, row_bins@, k as nat);
                lemma_pow2_unfold((k + 1) as nat);
                lemma2_to64();
                lemma2_to64_rest();
                if k + 1 < 64 {
                    lemma_pow2_strictly_increases((k + 1) as nat, 64);
                }
                assert(pow2((k + 1) as nat) <= pow2(64));
            }
            if low_bit(row_bins[s.axis as usize], s.bin_le, s.missing_left) {
                idx = idx + weight;
            }
            if k + 1 < n {
                weight = weight * 2;
            }
            k = k + 1;
        }
        proof {
            lemma_first_fault(f, 0, n as int, n as int);
        }
        if idx >= 8 {
            return Err(internal("oblivious leaf index escaped 0..8"));
        }
        Ok(self.leaves[idx as usize])
    }

    /// Makes a tree, if it keeps the feature budget.
    pub fn try_new(splits: Vec<Split>, leaves: [F32; 8], provenance: &Vec<AxisProvenance>) -> (r:
        Result<ObliviousTree, PbError>)
        ensures
            answers(r, tree_fault(splits@, provenance@)),
            r is Ok ==> r->Ok_0.wf() && r->Ok_0.splits@ == splits@ && r->Ok_0.leaves@ == leaves@,
    {
        let depth: usize = splits.len();
        if depth == 0 || depth > 3 {
            return Err(PbError::invariant_violated(Invariant::FeatureBudget));
        }
        let ghost f = |k: int| provenance_fault(splits@, provenance@, k);
        let ghost raws = raws_of(splits@, provenance@);
        let mut distinct = RawList::new();
        let mut k: usize = 0;
        while k < depth
            invariant
                k <= depth,
                depth == splits@.len(),
                1 <= depth <= 3,
                f == (|k: int| provenance_fault(splits@, provenance@, k)),
                raws == raws_of(splits@, provenance@),
                forall|j: int| 0 <= j < k ==> (#[trigger] f(j)) is None,
                raw_items(distinct).len() <= k,
                raw_items(distinct).len() == k ==> raw_items(distinct) == raws.take(k as int),
                raw_items(distinct).len() == k <==> raws.take(k as int).no_duplicates(),
            decreases depth - k,
        {
            proof {
                lemma_first_fault(f, 0, k as int, depth as int);
            }
            let s = splits[k];
            if s.axis as usize >= provenance.len() {
                assert(f(k as int) is Some);
                let what = with_number("split axis ", s.axis as u64, " absent from provenance");
                return Err(PbError::Internal { what });
            }
            assert(f(k as int) is None);
            let raw: u32 = provenance[s.axis as usize].raw.0;
            let ghost before = raw_items(distinct);
            let ghost head = raws.take(k as int);
            let ghost now = raws.take(k + 1);
            if !distinct.contains(raw) {
                distinct.push(raw);
            }
            proof {
                assert(raws[k as int] == raw);
                assert(now =~= head.push(raw));
                if now.no_duplicates() {
                    assert(head.no_duplicates()) by {
                        assert forall|i: int, j: int|
                            0 <= i < head.len() && 0 <= j < head.len() && i != j implies head[i]
                            != head[j] by {
                            assert(now[i] == head[i] && now[j] == head[j]);
                        }
                    }
                    assert(before == head);
                    if head.contains(raw) {
                        let i = choose|i: int| 0 <= i < head.len() && head[i] == raw;
                        assert(now[i] == now[k as int]);
                    }
                }
                if raw_items(distinct).len() == k + 1 {
                    assert(before.len() == k);
                    assert(before == head);
                    assert(!head.contains(raw));
                    assert forall|i: int, j: int|
                        0 <= i < now.len() && 0 <= j < now.len() && i != j implies now[i]
                        != now[j] by {
                        if i == k {
                            assert(now[j] == head[j]);
                            assert(head.contains(head[j]));
                        } else if j == k {
                            assert(now[i] == head[i]);
                            assert(head.contains(head[i]));
                        } else {
                            assert(now[i] == head[i] && now[j] == head[j]);
                        }
                    }
                }
            }
            k = k + 1;
        }
        proof {
            lemma_first_fault(f, 0, depth as int, depth as int);
            assert(raws.take(depth as int) =~= raws);
        }
        if distinct.len() != depth {
            return Err(PbError::invariant_violated(Invariant::FeatureBudget));
        }
        Ok(ObliviousTree { splits, leaves, depth: depth as u8 })
    }
}

/// The bit of a leaf number that level `k` sets: the low side sets it, and the low
/// side holds the bins up to the border, with missing values where the split sends
/// them.
pub proof fn law_each_split_sets_one_bit(splits: Seq<Split>, bins: Seq<u8>, n: nat, k: nat)
    requires
        k < n <= splits.len(),
    ensures
        ({
            let s = splits[k as int];
            let bin = bins[s.axis as int];
            ((leaf_at(splits, bins, n) / pow2(k)) % 2 == 1) <==> (bin == 0 && s.missing_left) || (1
                <= bin && bin <= s.bin_le)
        }),
        leaf_at(splits, bins, n) < pow2(n),
    decreases n,
{
    lemma_leaf_at_bound(splits, bins, n);
    let m = (n - 1) as nat;
    let low = leaf_at(splits, bins, m) as int;
    lemma_leaf_at_bound(splits, bins, m);
    let p = pow2(k) as int;
    lemma_pow2_pos(k);
    let b: int = if split_bit(splits[n - 1], bins) {
        1
    } else {
        0
    };
    if k == m {
        assert((low + b * p) / p == b) by (nonlinear_arith)
            requires
                0 <= low < p,
                0 <= b <= 1,
        ;
        assert(b * p == if b == 1 { p } else { 0 });
    } else {
        law_each_split_sets_one_bit(splits, bins, m, k);
        let h = pow2((m - k - 1) as nat) as int;
        lemma_pow2_adds((k + 1) as nat, (m - k - 1) as nat);
        lemma_pow2_unfold((k + 1) as nat);
        let q = pow2(m) as int;
        assert(q == p * (2 * h)) by (nonlinear_arith)
            requires
                q == pow2((k + 1) as nat) * h,
                pow2((k + 1) as nat) == 2 * p,
        ;
        let t = b * (2 * h);
        assert(b * q == p * t) by (nonlinear_arith)
            requires
                q == p * (2 * h),
                t == b * (2 * h),
        ;
        vstd::arithmetic::div_mod::lemma_div_multiples_vanish_fancy(t, low % p, p);
        vstd::arithmetic::div_mod::lemma_hoist_over_denominator(low, t, p as nat);
        assert((low + b * q) / p == low / p + t);
        let bh = b * h;
        assert(t == 2 * bh) by (nonlinear_arith)
            requires
                t == b * (2 * h),
                bh == b * h,
        ;
        assert((low / p + t) % 2 == (low / p) % 2);
        assert(b * q == if b == 1 { q } else { 0 });
    }
}

/// A tree is accepted exactly when it has one to three splits on axes of the
/// model, no two of which come from one raw feature.
pub proof fn law_accepted_trees_have_distinct_features(
    splits: Seq<Split>,
    provenance: Seq<AxisProvenance>,
)
    ensures
        tree_fault(splits, provenance) is None <==> {
            &&& 1 <= splits.len() <= 3
            &&& forall|k: int| 0 <= k < splits.len() ==> (#[trigger] splits[k]).axis < provenance.len()
            &&& forall|j: int, k: int|
                0 <= j < k < splits.len() ==> provenance[(#[trigger] splits[j]).axis as int].raw.0
                    != provenance[(#[trigger] splits[k]).axis as int].raw.0
        },
{
    let f = |k: int| provenance_fault(splits, provenance, k);
    lemma_no_fault(f, splits.len() as int);
    let raws = raws_of(splits, provenance);
    if forall|k: int| 0 <= k < splits.len() ==> (#[trigger] f(k)) is None {
        assert forall|k: int| 0 <= k < splits.len() implies (#[trigger] splits[k]).axis
            < provenance.len() by {
            assert(f(k) is None);
        }
    } else {
        let k = choose|k: int| 0 <= k < splits.len() && !((#[trigger] f(k)) is None);
        assert(splits[k].axis >= provenance.len());
    }
    if raws.no_duplicates() {
        assert forall|j: int, k: int| 0 <= j < k < splits.len() implies provenance[(
        #[trigger] splits[j]).axis as int].raw.0 != provenance[(#[trigger] splits[k]).axis as int].raw.0 by {
            assert(raws[j] != raws[k]);
        }
    } else {
        let (j, k) = choose|j: int, k: int|
            0 <= j < raws.len() && 0 <= k < raws.len() && j != k && raws[j] == raws[k];
        let (x, y) = if j < k {
            (j, k)
        } else {
            (k, j)
        };
        assert(provenance[splits[x].axis as int].raw.0 == provenance[splits[y].axis as int].raw.0);
    }
}

/// A tree of at most three levels is looked up exactly where the row has all its
/// axes.
pub proof fn law_lookups_need_their_axes_only(splits: Seq<Split>, bins: Seq<u8>)
    requires
        splits.len() <= 3,
    ensures
        lookup_fault(splits, bins) is None <==> forall|k: int|
            0 <= k < splits.len() ==> (#[trigger] splits[k]).axis < bins.len(),
{
    let f = |k: int| lookup_split_fault(splits, bins.len(), k);
    lemma_no_fault(f, splits.len() as int);
    lemma_leaf_at_bound(splits, bins, splits.len());
    lemma2_to64();
    if splits.len() < 3 {
        lemma_pow2_strictly_increases(splits.len(), 3);
    }
    if forall|k: int| 0 <= k < splits.len() ==> (#[trigger] f(k)) is None {
        assert forall|k: int| 0 <= k < splits.len() implies (#[trigger] splits[k]).axis
            < bins.len() by {
            assert(f(k) is None);
        }
    } else {
        let k = choose|k: int| 0 <= k < splits.len() && !((#[trigger] f(k)) is None);
        assert(splits[k].axis >= bins.len());
    }
}

} // verus!
