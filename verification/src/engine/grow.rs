//! Growing a tree, level by level.
//!
//! The caller alternates with [`GrowState`]: it asks for the axes that may be
//! split next, finds the best split of the level, and applies it. The state keeps
//! the leaf of every row by the same routing rule that later walks the tree.
use crate::constraints::{FeatureSet, MonoSign};
use crate::data::{AxisProvenance, BinnedMatrix, BorderGrid, FeatureId};
use crate::engine::split::{bit_clear, Candidate};
use crate::engine::subtracted::leaves_at;
use crate::engine::{
    goes_low, leaf_at, lemma_leaf_at_bound, lookup_fault, lookup_split_fault, low_bit,
    provenance_fault, raws_of, split_bit, tree_fault, ObliviousTree, Split,
};
use crate::error::{answers, first_fault, internal, lemma_first_fault, Fault, PbError};
use crate::float::F32;
use crate::raws::{raw_items, RawList};

use vstd::arithmetic::power2::*;
use vstd::prelude::*;

verus! {

/// The bins of one row.
pub open spec fn row_bins(data: Seq<Vec<u8>>, r: int) -> Seq<u8> {
    Seq::new(data.len(), |a: int| data[a]@[r])
}

/// Whether a group holds a feature together with all used ones.
pub open spec fn group_holds(group: FeatureSet, raw: FeatureId, used: Seq<u32>) -> bool {
    &&& group.ids@.contains(raw)
    &&& forall|i: int| 0 <= i < used.len() ==> group.ids@.contains(FeatureId(#[trigger] used[i]))
}

/// Whether some group holds a feature together with all used ones.
pub open spec fn group_allows(groups: Seq<FeatureSet>, raw: FeatureId, used: Seq<u32>) -> bool {
    exists|k: int| 0 <= k < groups.len() && #[trigger] group_holds(groups[k], raw, used)
}

/// The view of optional groups.
pub open spec fn groups_view(groups: Option<&Vec<FeatureSet>>) -> Option<Seq<FeatureSet>> {
    match groups {
        Some(g) => Some(g@),
        None => None,
    }
}

/// Whether an axis may be split next: its raw feature is known, not used yet,
/// and shares a group with the used ones.
pub open spec fn admissible(
    provenance: Seq<AxisProvenance>,
    axis: u32,
    used: Seq<u32>,
    groups: Option<Seq<FeatureSet>>,
) -> bool {
    &&& axis < provenance.len()
    &&& !used.contains(provenance[axis as int].raw.0)
    &&& groups is Some ==> group_allows(groups->0, provenance[axis as int].raw, used)
}

/// The axes of the first `n` that may be split next.
pub open spec fn admissible_axes(
    provenance: Seq<AxisProvenance>,
    axes: Seq<u32>,
    used: Seq<u32>,
    groups: Option<Seq<FeatureSet>>,
    n: nat,
) -> Seq<u32>
    decreases n,
{
    if n == 0 {
        Seq::empty()
    } else {
        let before = admissible_axes(provenance, axes, used, groups, (n - 1) as nat);
        if admissible(provenance, axes[n - 1], used, groups) {
            before.push(axes[n - 1])
        } else {
            before
        }
    }
}

/// Every listed axis may be split next.
pub proof fn law_listed_axes_are_admissible(
    provenance: Seq<AxisProvenance>,
    axes: Seq<u32>,
    used: Seq<u32>,
    groups: Option<Seq<FeatureSet>>,
    n: nat,
)
    requires
        n <= axes.len(),
    ensures
        forall|i: int|
            0 <= i < admissible_axes(provenance, axes, used, groups, n).len() ==> admissible(
                provenance,
                #[trigger] admissible_axes(provenance, axes, used, groups, n)[i],
                used,
                groups,
            ),
    decreases n,
{
    if n > 0 {
        law_listed_axes_are_admissible(provenance, axes, used, groups, (n - 1) as nat);
        let before = admissible_axes(provenance, axes, used, groups, (n - 1) as nat);
        let now = admissible_axes(provenance, axes, used, groups, n);
        assert forall|i: int| 0 <= i < now.len() implies admissible(
            provenance,
            #[trigger] now[i],
            used,
            groups,
        ) by {
            if i < before.len() {
                assert(now[i] == before[i]);
            }
        }
    }
}

/// The most splits that a tree may have.
pub open spec fn order_cap(max_order: u8) -> int {
    if max_order < 3 {
        max_order as int
    } else {
        3
    }
}

/// Why a split cannot be applied to a row.
pub open spec fn apply_row_fault(col: Seq<u8>, n_map: nat, rows: Seq<u32>, i: int) -> Option<Fault> {
    if rows[i] >= col.len() {
        Some(Fault::Internal("split bin"@))
    } else if rows[i] >= n_map {
        Some(Fault::Internal("leaf set"@))
    } else {
        None
    }
}

/// Why a split cannot be applied.
pub open spec fn apply_fault(x: BinnedMatrix, n_map: nat, rows: Seq<u32>, axis: u32) -> Option<Fault> {
    if axis >= x.provenance@.len() {
        Some(Fault::Internal("split axis provenance"@))
    } else if axis >= x.data@.len() {
        Some(Fault::Internal("split col"@))
    } else {
        first_fault(
            |i: int| apply_row_fault(x.data@[axis as int]@, n_map, rows, i),
            0,
            rows.len() as int,
        )
    }
}

/// Whether a row is among those listed.
pub open spec fn listed(rows: Seq<u32>, r: int) -> bool {
    exists|i: int| 0 <= i < rows.len() && (#[trigger] rows[i]) as int == r
}

/// What a tree under construction holds.
#[verifier::ext_equal]
pub struct Growth {
    /// The splits so far.
    pub levels: Seq<Split>,
    /// The raw features of the splits so far.
    pub used: Seq<u32>,
    /// The leaf of each row.
    pub map: Seq<u8>,
}

/// A tree without splits.
pub open spec fn seedling(n_rows: nat) -> Growth {
    Growth {
        levels: Seq::empty(),
        used: Seq::empty(),
        map: Seq::new(n_rows, |r: int| 0u8),
    }
}

/// The split of a candidate.
pub open spec fn split_of(cand: Candidate) -> Split {
    Split { axis: cand.axis, bin_le: cand.bin_le, missing_left: cand.missing_left }
}

/// The leaf of a row after a split: a listed row on the low side gains a bit.
pub open spec fn moved_leaf(
    g: Growth,
    x: BinnedMatrix,
    rows: Seq<u32>,
    cand: Candidate,
    r: int,
) -> u8 {
    if listed(rows, r) && goes_low(
        x.data@[cand.axis as int]@[r],
        cand.bin_le,
        cand.missing_left,
    ) {
        (g.map[r] + pow2(g.levels.len())) as u8
    } else {
        g.map[r]
    }
}

/// What a tree holds after a split.
pub open spec fn after_split(g: Growth, x: BinnedMatrix, rows: Seq<u32>, cand: Candidate) -> Growth {
    Growth {
        levels: g.levels.push(split_of(cand)),
        used: g.used.push(x.provenance@[cand.axis as int].raw.0),
        map: Seq::new(g.map.len(), |r: int| moved_leaf(g, x, rows, cand, r)),
    }
}

/// A tree under construction.
pub struct GrowState {
    leaf_of_row: Vec<u8>,
    splits: Vec<Split>,
    used_raws: RawList,
}

impl View for GrowState {
    type V = Growth;

    open spec fn view(&self) -> Growth {
        Growth { levels: self.levels(), used: self.used(), map: self.map() }
    }
}

impl GrowState {
    /// The leaf of each row.
    pub closed spec fn map(&self) -> Seq<u8> {
        self.leaf_of_row@
    }

    /// The splits so far.
    pub closed spec fn levels(&self) -> Seq<Split> {
        self.splits@
    }

    /// The raw features of the splits so far.
    pub closed spec fn used(&self) -> Seq<u32> {
        raw_items(self.used_raws)
    }

    /// The state fits the data: splits are few, on known axes, and their raw
    /// features are kept; leaves are within reach of the splits.
    pub open spec fn wf(&self, x: BinnedMatrix) -> bool {
        &&& self.levels().len() <= 3
        &&& self.used() == raws_of(self.levels(), x.provenance@)
        &&& forall|k: int|
            0 <= k < self.levels().len() ==> (#[trigger] self.levels()[k]).axis < x.provenance@.len()
                && self.levels()[k].axis < x.data@.len()
        &&& forall|r: int|
            0 <= r < self.map().len() ==> (#[trigger] self.map()[r]) < pow2(self.levels().len())
    }

    /// Every listed row stands in the leaf that the splits lead it to.
    pub open spec fn maps(&self, x: BinnedMatrix, rows: Seq<u32>) -> bool {
        forall|i: int|
            0 <= i < rows.len() ==> (#[trigger] rows[i]) < self.map().len() && self.map()[rows[i] as int]
                == leaf_at(self.levels(), row_bins(x.data@, rows[i] as int), self.levels().len())
    }

    /// No raw feature is used twice.
    pub open spec fn keeps_budget(&self) -> bool {
        self.used().no_duplicates()
    }

    /// A tree without splits over `n_rows` rows.
    pub fn new(n_rows: usize, x: &BinnedMatrix) -> (s: GrowState)
        ensures
            s@ == seedling(n_rows as nat),
            s.wf(*x),
            s.keeps_budget(),
            s.levels().len() == 0,
            s.map().len() == n_rows,
            forall|rows: Seq<u32>|
                (forall|i: int| 0 <= i < rows.len() ==> (#[trigger] rows[i]) < n_rows)
                    ==> #[trigger] s.maps(*x, rows),
    {
        let mut leaf_of_row: Vec<u8> = Vec::with_capacity(n_rows);
        let mut i: usize = 0;
        while i < n_rows
            invariant
                i <= n_rows,
                leaf_of_row@.len() == i,
                forall|j: int| 0 <= j < i ==> #[trigger] leaf_of_row@[j] == 0,
            decreases n_rows - i,
        {
            leaf_of_row.push(0);
            i = i + 1;
        }
        let s = GrowState { leaf_of_row, splits: Vec::new(), used_raws: RawList::new() };
        proof {
            lemma2_to64();
            assert(s.used() =~= raws_of(s.levels(), x.provenance@));
            assert(s@ =~= seedling(n_rows as nat));
        }
        s
    }

    /// The number of splits so far.
    pub fn level(&self) -> (n: usize)
        ensures
            n == self.levels().len(),
    {
        self.splits.len()
    }

    /// The leaf of each row.
    pub fn leaf_map(&self) -> (m: &Vec<u8>)
        ensures
            m@ == self.map(),
    {
        &self.leaf_of_row
    }

    /// The axes of the splits so far.
    pub fn used_axes(&self) -> (a: Vec<u32>)
        ensures
            a@ == self.levels().map_values(|s: Split| s.axis),
    {
        let mut a: Vec<u32> = Vec::with_capacity(self.splits.len());
        let mut i: usize = 0;
        while i < self.splits.len()
            invariant
                i <= self.splits.len(),
                a@.len() == i,
                forall|j: int| 0 <= j < i ==> #[trigger] a@[j] == self.splits@[j].axis,
            decreases self.splits.len() - i,
        {
            a.push(self.splits[i].axis);
            i = i + 1;
        }
        assert(a@ =~= self.levels().map_values(|s: Split| s.axis));
        a
    }

    /// Whether an axis may be split next.
    fn axis_is_admissible(
        &self,
        x: &BinnedMatrix,
        axis: u32,
        groups: Option<&Vec<FeatureSet>>,
    ) -> (b: bool)
        requires
            self.wf(*x),
        ensures
            b == admissible(x.provenance@, axis, self.used(), groups_view(groups)),
    {
        if axis as usize >= x.provenance.len() {
            return false;
        }
        let raw: FeatureId = x.provenance[axis as usize].raw;
        if self.used_raws.contains(raw.0) {
            return false;
        }
        match groups {
            None => true,
            Some(gs) => {
                let ghost used = self.used();
                let mut k: usize = 0;
                while k < gs.len()
                    invariant
                        k <= gs.len(),
                        self.wf(*x),
                        used == self.used(),
                        groups == Some(gs),
                        axis < x.provenance@.len(),
                        raw == x.provenance@[axis as int].raw,
                        !used.contains(raw.0),
                        forall|j: int| 0 <= j < k ==> !(#[trigger] group_holds(gs@[j], raw, used)),
                    decreases gs.len() - k,
                {
                    if gs[k].contains(raw) {
                        let mut all: bool = true;
                        let mut i: usize = 0;
                        while i < self.splits.len()
                            invariant
                                i <= self.splits.len(),
                                k < gs@.len(),
                                self.wf(*x),
                                used == self.used(),
                                all ==> forall|j: int|
                                    0 <= j < i ==> gs@[k as int].ids@.contains(
                                        FeatureId(#[trigger] used[j]),
                                    ),
                                !all ==> exists|j: int|
                                    0 <= j < used.len() && !gs@[k as int].ids@.contains(
                                        FeatureId(#[trigger] used[j]),
                                    ),
                            decreases self.splits.len() - i,
                        {
                            assert(self.levels()[i as int].axis < x.provenance@.len());
                            let u: u32 = x.provenance[self.splits[i].axis as usize].raw.0;
                            assert(used[i as int] == u);
                            if !gs[k].contains(FeatureId(u)) {
                                assert(!gs@[k as int].ids@.contains(FeatureId(used[i as int])));
                                all = false;
                            }
                            i = i + 1;
                        }
                        if all {
                            assert(group_holds(gs@[k as int], raw, used));
                            return true;
                        }
                    }
                    k = k + 1;
                }
                false
            },
        }
    }

    /// The axes that may be split next, or nothing when growth ends: the tree is
    /// as deep as it may be, or no axis is left.
    pub fn next_axes(
        &self,
        x: &BinnedMatrix,
        axes: &Vec<u32>,
        groups: Option<&Vec<FeatureSet>>,
        max_order: u8,
    ) -> (r: Option<Vec<u32>>)
        requires
            self.wf(*x),
        ensures
            ({
                let list = admissible_axes(
                    x.provenance@,
                    axes@,
                    self.used(),
                    groups_view(groups),
                    axes@.len(),
                );
                &&& r is None <==> self.levels().len() >= order_cap(max_order) || list.len() == 0
                &&& r is Some ==> r->0@ == list
            }),
    {
        let cap: usize = if max_order < 3 {
            max_order as usize
        } else {
            3
        };
        if self.used_raws.len() >= cap {
            return None;
        }
        let mut out: Vec<u32> = Vec::new();
        let mut i: usize = 0;
        while i < axes.len()
            invariant
                i <= axes.len(),
                self.wf(*x),
                out@ == admissible_axes(
                    x.provenance@,
                    axes@,
                    self.used(),
                    groups_view(groups),
                    i as nat,
                ),
            decreases axes.len() - i,
        {
            if self.axis_is_admissible(x, axes[i], groups) {
                out.push(axes[i]);
            }
            i = i + 1;
        }
        if out.len() == 0 {
            None
        } else {
            Some(out)
        }
    }

    /// Applies the split of a level: records it and moves every listed row to its
    /// new leaf.
    pub fn apply(&mut self, x: &BinnedMatrix, rows: &Vec<u32>, cand: &Candidate) -> (r: Result<
        (),
        PbError,
    >)
        requires
            old(self).wf(*x),
            old(self).levels().len() < 3,
        ensures
            answers(r, apply_fault(*x, old(self).map().len(), rows@, cand.axis)),
            r is Err ==> final(self)@ == old(self)@,
            r is Ok ==> {
                &&& final(self)@ == after_split(old(self)@, *x, rows@, *cand)
                &&& final(self).wf(*x)
                &&& old(self).maps(*x, rows@) ==> final(self).maps(*x, rows@)
            },
    {
        if cand.axis as usize >= x.provenance.len() {
            return Err(internal("split axis provenance"));
        }
        if cand.axis as usize >= x.data.len() {
            return Err(internal("split col"));
        }
        let col = &x.data[cand.axis as usize];
        let ghost f = |i: int|
            apply_row_fault(x.data@[cand.axis as int]@, old(self).map().len(), rows@, i);
        let mut i: usize = 0;
        while i < rows.len()
            invariant
                i <= rows.len(),
                *self == *old(self),
                cand.axis < x.provenance@.len(),
                cand.axis < x.data@.len(),
                *col == x.data@[cand.axis as int],
                f == (|i: int|
                    apply_row_fault(x.data@[cand.axis as int]@, old(self).map().len(), rows@, i)),
                forall|j: int| 0 <= j < i ==> (#[trigger] f(j)) is None,
            decreases rows.len() - i,
        {
            proof {
                lemma_first_fault(f, 0, i as int, rows@.len() as int);
            }
            if rows[i] as usize >= col.len() {
                assert(f(i as int) is Some);
                return Err(internal("split bin"));
            }
            if rows[i] as usize >= self.leaf_of_row.len() {
                assert(f(i as int) is Some);
                return Err(internal("leaf set"));
            }
            assert(f(i as int) is None);
            i = i + 1;
        }
        proof {
            lemma_first_fault(f, 0, rows@.len() as int, rows@.len() as int);
        }
        let level: usize = self.splits.len();
        let bit: usize = leaves_at(level);
        let ghost old_map = self.leaf_of_row@;
        let ghost old_levels = self.splits@;
        let ghost n = level as nat;
        let split = Split {
            axis: cand.axis,
            bin_le: cand.bin_le,
            missing_left: cand.missing_left,
        };
        let ghost now = old_levels.push(split);
        proof {
            lemma_pow2_unfold(n + 1);
            lemma2_to64();
            if level < 2 {
                lemma_pow2_strictly_increases(n, 2);
            }
            assert(bit <= 4);
        }
        let mut k: usize = 0;
        while k < rows.len()
            invariant
                k <= rows.len(),
                n == level,
                level < 3,
                bit == pow2(n),
                1 <= bit <= 4,
                cand.axis < x.data@.len(),
                *col == x.data@[cand.axis as int],
                split == (Split {
                    axis: cand.axis,
                    bin_le: cand.bin_le,
                    missing_left: cand.missing_left,
                }),
                f == (|i: int| apply_row_fault(x.data@[cand.axis as int]@, old_map.len(), rows@, i)),
                forall|j: int| 0 <= j < rows@.len() ==> (#[trigger] f(j)) is None,
                self.splits@ == old_levels,
                raw_items(self.used_raws) == raw_items(old(self).used_raws),
                old_levels == old(self).splits@,
                old_map == old(self).leaf_of_row@,
                self.leaf_of_row@.len() == old_map.len(),
                forall|q: int| 0 <= q < old_map.len() ==> (#[trigger] old_map[q]) < bit,
                forall|q: int|
                    0 <= q < old_map.len() ==> (#[trigger] self.leaf_of_row@[q]) == old_map[q]
                        || self.leaf_of_row@[q] == old_map[q] + bit,
                forall|q: int|
                    0 <= q < old_map.len() && !listed(rows@.take(k as int), q)
                        ==> #[trigger] self.leaf_of_row@[q] == old_map[q],
                forall|j: int|
                    0 <= j < k ==> self.leaf_of_row@[(#[trigger] rows@[j]) as int]
                        == old_map[rows@[j] as int] + (if goes_low(
                        col@[rows@[j] as int],
                        cand.bin_le,
                        cand.missing_left,
                    ) {
                        bit as int
                    } else {
                        0
                    }),
            decreases rows.len() - k,
        {
            let row: u32 = rows[k];
            assert(f(k as int) is None);
            let ghost before = self.leaf_of_row@;
            let low: bool = low_bit(col[row as usize], cand.bin_le, cand.missing_left);
            let leaf: u8 = self.leaf_of_row[row as usize];
            if low && (leaf as usize) < bit {
                self.leaf_of_row.set(row as usize, leaf + bit as u8);
            }
            proof {
                assert(rows@.take(k + 1) =~= rows@.take(k as int).push(row));
                assert(before[row as int] == old_map[row as int] || before[row as int]
                    == old_map[row as int] + bit);
                assert(old_map[row as int] < bit);
                // A row met before already stands in its new leaf.
                assert(!low ==> before[row as int] == old_map[row as int]) by {
                    if before[row as int] != old_map[row as int] {
                        assert(listed(rows@.take(k as int), row as int));
                        let j = choose|j: int|
                            0 <= j < rows@.take(k as int).len() && (#[trigger] rows@.take(
                                k as int,
                            )[j]) as int == row as int;
                        assert(rows@[j] == row);
                    }
                }
                assert forall|q: int|
                    0 <= q < old_map.len() && !listed(
                        rows@.take(k + 1),
                        q,
                    ) implies #[trigger] self.leaf_of_row@[q] == old_map[q] by {
                    if q == row {
                        assert(rows@.take(k + 1)[k as int] == row);
                    } else {
                        if listed(rows@.take(k as int), q) {
                            let j = choose|j: int|
                                0 <= j < rows@.take(k as int).len() && (#[trigger] rows@.take(
                                    k as int,
                                )[j]) as int == q;
                            assert(rows@.take(k + 1)[j] == q);
                        }
                        assert(before[q] == old_map[q]);
                    }
                }
                assert forall|j: int| 0 <= j < k + 1 implies self.leaf_of_row@[(
                #[trigger] rows@[j]) as int] == old_map[rows@[j] as int] + (if goes_low(
                    col@[rows@[j] as int],
                    cand.bin_le,
                    cand.missing_left,
                ) {
                    bit as int
                } else {
                    0
                }) by {
                    assert(f(j) is None);
                    if rows@[j] != row {
                        assert(self.leaf_of_row@[rows@[j] as int] == before[rows@[j] as int]);
                    }
                }
            }
            k = k + 1;
        }
        self.splits.push(split);
        self.used_raws.push(x.provenance[cand.axis as usize].raw.0);
        proof {
            assert(rows@.take(rows@.len() as int) =~= rows@);
            assert(self.levels() == now);
            assert(self.used() =~= raws_of(now, x.provenance@));
            let want = after_split(old(self)@, *x, rows@, *cand);
            assert forall|q: int| 0 <= q < old_map.len() implies #[trigger] self.leaf_of_row@[q]
                == want.map[q] by {
                if listed(rows@, q) {
                    let j = choose|j: int| 0 <= j < rows@.len() && (#[trigger] rows@[j]) as int == q;
                    assert(rows@[j] as int == q);
                }
            }
            assert(self@ =~= want);
            if old(self).maps(*x, rows@) {
                assert forall|i: int| 0 <= i < rows@.len() implies (#[trigger] rows@[i])
                    < self.map().len() && self.map()[rows@[i] as int] == leaf_at(
                    now,
                    row_bins(x.data@, rows@[i] as int),
                    now.len(),
                ) by {
                    let b = row_bins(x.data@, rows@[i] as int);
                    lemma_leaf_at_prefix(old_levels, split, b, n);
                    assert(f(i) is None);
                    assert(b[cand.axis as int] == col@[rows@[i] as int]);
                    assert(now[n as int] == split);
                }
            }
        }
        Ok(())
    }

    /// Ends growth: nothing when no split was applied, and otherwise the tree
    /// with these leaves, together with the leaf of each row. Leaves that no row
    /// can reach are zero.
    pub fn finish(self, leaves: [F32; 8], x: &BinnedMatrix) -> (r: Result<
        Option<(ObliviousTree, Vec<u8>)>,
        PbError,
    >)
        requires
            self.wf(*x),
        ensures
            self.levels().len() == 0 ==> r == Ok::<Option<(ObliviousTree, Vec<u8>)>, PbError>(None),
            self.levels().len() > 0 ==> answers(r, tree_fault(self.levels(), x.provenance@)),
            self.keeps_budget() ==> r is Ok,
            self.levels().len() > 0 && r is Ok ==> {
                &&& r->Ok_0 matches Some((tree, map))
                &&& tree.wf()
                &&& tree.splits@ == self.levels()
                &&& forall|k: int|
                    0 <= k < 8 ==> #[trigger] tree.leaves@[k] == (if k < pow2(self.levels().len()) {
                        leaves@[k]
                    } else {
                        F32 { bits: 0 }
                    })
                &&& map@ == self.map()
            },
    {
        if self.splits.len() == 0 {
            return Ok(None);
        }
        proof {
            if self.keeps_budget() {
                law_grown_tree_keeps_budget(self, *x);
            }
        }
        let n_leaves: usize = leaves_at(self.splits.len());
        let mut reached: [F32; 8] = leaves;
        let mut k: usize = 0;
        while k < 8
            invariant
                k <= 8,
                n_leaves == pow2(self.levels().len()),
                forall|j: int|
                    0 <= j < k ==> #[trigger] reached@[j] == (if j < n_leaves {
                        leaves@[j]
                    } else {
                        F32 { bits: 0 }
                    }),
                forall|j: int| k <= j < 8 ==> #[trigger] reached@[j] == leaves@[j],
            decreases 8 - k,
        {
            if k >= n_leaves {
                reached[k] = F32 { bits: 0 };
            }
            k = k + 1;
        }
        match ObliviousTree::try_new(self.splits, reached, &x.provenance) {
            Ok(tree) => Ok(Some((tree, self.leaf_of_row))),
            Err(e) => Err(e),
        }
    }
}

/// One more split adds its bit to the leaf.
proof fn lemma_leaf_at_prefix(levels: Seq<Split>, split: Split, bins: Seq<u8>, n: nat)
    requires
        n == levels.len(),
    ensures
        leaf_at(levels.push(split), bins, n) == leaf_at(levels, bins, n),
        leaf_at(levels.push(split), bins, n + 1) == leaf_at(levels, bins, n) + (if split_bit(
            split,
            bins,
        ) {
            pow2(n)
        } else {
            0
        }),
{
    lemma_leaf_at_same(levels, levels.push(split), bins, n);
}

proof fn lemma_leaf_at_same(a: Seq<Split>, b: Seq<Split>, bins: Seq<u8>, n: nat)
    requires
        n <= a.len(),
        n <= b.len(),
        forall|k: int| 0 <= k < n ==> a[k] == b[k],
    ensures
        leaf_at(a, bins, n) == leaf_at(b, bins, n),
    decreases n,
{
    if n > 0 {
        lemma_leaf_at_same(a, b, bins, (n - 1) as nat);
    }
}

/// With groups, an admissible split leaves all used features in one of them.
pub proof fn law_admissible_splits_stay_in_a_group(
    used: Seq<u32>,
    provenance: Seq<AxisProvenance>,
    axis: u32,
    groups: Seq<FeatureSet>,
) -> (g: int)
    requires
        admissible(provenance, axis, used, Some(groups)),
    ensures
        0 <= g < groups.len(),
        forall|i: int|
            0 <= i <= used.len() ==> groups[g].ids@.contains(
                FeatureId(#[trigger] used.push(provenance[axis as int].raw.0)[i]),
            ),
{
    let raw = provenance[axis as int].raw;
    let g = choose|g: int| 0 <= g < groups.len() && #[trigger] group_holds(groups[g], raw, used);
    assert forall|i: int| 0 <= i <= used.len() implies groups[g].ids@.contains(
        FeatureId(#[trigger] used.push(raw.0)[i]),
    ) by {
        if i < used.len() {
            assert(used.push(raw.0)[i] == used[i]);
        } else {
            assert(FeatureId(raw.0) == raw);
        }
    }
    g
}

/// Splitting an admissible axis never uses a raw feature twice.
pub proof fn law_admissible_splits_keep_budget(
    used: Seq<u32>,
    provenance: Seq<AxisProvenance>,
    axis: u32,
    groups: Option<Seq<FeatureSet>>,
)
    requires
        used.no_duplicates(),
        admissible(provenance, axis, used, groups),
    ensures
        used.push(provenance[axis as int].raw.0).no_duplicates(),
{
    let raw = provenance[axis as int].raw.0;
    let now = used.push(raw);
    assert forall|i: int, j: int| 0 <= i < now.len() && 0 <= j < now.len() && i != j implies now[i]
        != now[j] by {
        if i == used.len() {
            assert(used.contains(used[j]));
        } else if j == used.len() {
            assert(used.contains(used[i]));
        }
    }
}

/// A grown tree with distinct raw features always passes construction.
pub proof fn law_grown_tree_keeps_budget(s: GrowState, x: BinnedMatrix)
    requires
        s.wf(x),
        s.keeps_budget(),
        s.levels().len() > 0,
    ensures
        tree_fault(s.levels(), x.provenance@) is None,
{
    let f = |k: int| provenance_fault(s.levels(), x.provenance@, k);
    let n = s.levels().len() as int;
    assert forall|k: int| 0 <= k < n implies (#[trigger] f(k)) is None by {
        assert(s.levels()[k].axis < x.provenance@.len());
    }
    lemma_first_fault(f, 0, n, n);
}

/// What a tree holds after a course of splits.
pub open spec fn grown(
    x: BinnedMatrix,
    rows: Seq<u32>,
    n_rows: nat,
    course: Seq<Candidate>,
) -> Growth
    decreases course.len(),
{
    if course.len() == 0 {
        seedling(n_rows)
    } else {
        after_split(grown(x, rows, n_rows, course.drop_last()), x, rows, course.last())
    }
}

/// Whether every split of a course is on an axis that growth offers, and can be
/// applied.
pub open spec fn course_admissible(
    x: BinnedMatrix,
    rows: Seq<u32>,
    n_rows: nat,
    axes: Seq<u32>,
    groups: Option<Seq<FeatureSet>>,
    max_order: u8,
    course: Seq<Candidate>,
) -> bool
    decreases course.len(),
{
    course.len() == 0 || {
        let g = grown(x, rows, n_rows, course.drop_last());
        &&& course_admissible(x, rows, n_rows, axes, groups, max_order, course.drop_last())
        &&& g.levels.len() < order_cap(max_order)
        &&& admissible_axes(x.provenance@, axes, g.used, groups, axes.len()).contains(
            course.last().axis,
        )
        &&& apply_fault(x, n_rows, rows, course.last().axis) is None
    }
}

/// What holds of every tree under construction: its splits are those of the
/// course, on axes that were asked for and on distinct raw features, all in one
/// group; a listed row stands in the leaf that the splits lead it to, any other
/// in the first.
pub open spec fn is_sound(
    g: Growth,
    x: BinnedMatrix,
    rows: Seq<u32>,
    n_rows: nat,
    axes: Seq<u32>,
    groups: Option<Seq<FeatureSet>>,
    max_order: u8,
    course: Seq<Candidate>,
) -> bool {
    &&& g.levels.len() == course.len() <= order_cap(max_order)
    &&& forall|k: int|
        0 <= k < course.len() ==> #[trigger] g.levels[k] == split_of(course[k])
            && axes.contains(g.levels[k].axis) && g.levels[k].axis < x.provenance@.len()
            && g.levels[k].axis < x.data@.len()
    &&& g.used == raws_of(g.levels, x.provenance@)
    &&& g.used.no_duplicates()
    &&& groups is Some && course.len() > 0 ==> exists|k: int|
        0 <= k < groups->0.len() && #[trigger] holds_all(groups->0[k], g.used)
    &&& g.map.len() == n_rows
    &&& forall|r: int| 0 <= r < n_rows ==> (#[trigger] g.map[r]) < pow2(course.len())
    &&& forall|r: int|
        0 <= r < n_rows && listed(rows, r) ==> (#[trigger] g.map[r]) as nat == leaf_at(
            g.levels,
            row_bins(x.data@, r),
            course.len(),
        )
    &&& forall|r: int| 0 <= r < n_rows && !listed(rows, r) ==> #[trigger] g.map[r] == 0
}

/// Whether a group holds all used features.
pub open spec fn holds_all(group: FeatureSet, used: Seq<u32>) -> bool {
    forall|i: int| 0 <= i < used.len() ==> group.ids@.contains(FeatureId(#[trigger] used[i]))
}

proof fn lemma_offered_axis(
    provenance: Seq<AxisProvenance>,
    axes: Seq<u32>,
    used: Seq<u32>,
    groups: Option<Seq<FeatureSet>>,
    n: nat,
    axis: u32,
)
    requires
        n <= axes.len(),
        admissible_axes(provenance, axes, used, groups, n).contains(axis),
    ensures
        axes.contains(axis),
        admissible(provenance, axis, used, groups),
    decreases n,
{
    if n > 0 {
        let before = admissible_axes(provenance, axes, used, groups, (n - 1) as nat);
        let now = admissible_axes(provenance, axes, used, groups, n);
        let i = choose|i: int| 0 <= i < now.len() && now[i] == axis;
        if i < before.len() {
            assert(before[i] == axis);
            lemma_offered_axis(provenance, axes, used, groups, (n - 1) as nat, axis);
        } else {
            assert(axes[n - 1] == axis);
        }
    }
}

/// Growth is sound after every course of offered splits.
pub proof fn law_growth_is_sound(
    x: BinnedMatrix,
    rows: Seq<u32>,
    n_rows: nat,
    axes: Seq<u32>,
    groups: Option<Seq<FeatureSet>>,
    max_order: u8,
    course: Seq<Candidate>,
)
    requires
        course_admissible(x, rows, n_rows, axes, groups, max_order, course),
    ensures
        is_sound(
            grown(x, rows, n_rows, course),
            x,
            rows,
            n_rows,
            axes,
            groups,
            max_order,
            course,
        ),
    decreases course.len(),
{
    let now = grown(x, rows, n_rows, course);
    lemma2_to64();
    if course.len() == 0 {
        assert(now.used =~= raws_of(now.levels, x.provenance@));
    } else {
        let before = course.drop_last();
        let g = grown(x, rows, n_rows, before);
        let cand = course.last();
        let n = before.len();
        law_growth_is_sound(x, rows, n_rows, axes, groups, max_order, before);
        lemma_offered_axis(x.provenance@, axes, g.used, groups, axes.len(), cand.axis);
        law_admissible_splits_keep_budget(g.used, x.provenance@, cand.axis, groups);
        if groups is Some {
            let k = law_admissible_splits_stay_in_a_group(
                g.used,
                x.provenance@,
                cand.axis,
                groups->0,
            );
            assert(holds_all(groups->0[k], now.used));
        }
        lemma_pow2_unfold(n + 1);
        if n < 2 {
            lemma_pow2_strictly_increases(n, 2);
        }
        assert(pow2(n) <= 4);
        assert(now.used =~= raws_of(now.levels, x.provenance@));
        assert forall|k: int| 0 <= k < course.len() implies #[trigger] now.levels[k] == split_of(
            course[k],
        ) && axes.contains(now.levels[k].axis) && now.levels[k].axis < x.provenance@.len()
            && now.levels[k].axis < x.data@.len() by {
            if k < n {
                assert(now.levels[k] == g.levels[k]);
                assert(before[k] == course[k]);
            }
        }
        assert forall|r: int| 0 <= r < n_rows implies (#[trigger] now.map[r]) < pow2(
            course.len(),
        ) && (listed(rows, r) ==> now.map[r] as nat == leaf_at(
            now.levels,
            row_bins(x.data@, r),
            course.len(),
        )) && (!listed(rows, r) ==> now.map[r] == 0) by {
            assert(g.map[r] < pow2(n));
            let b = row_bins(x.data@, r);
            lemma_leaf_at_prefix(g.levels, split_of(cand), b, n);
            assert(b[cand.axis as int] == x.data@[cand.axis as int]@[r]);
        }
    }
}

/// A grown tree keeps every promise at once: it has one to three levels, no more
/// than the order allows, on offered axes and on distinct raw features; the map of
/// leaves is what walking the tree gives for the rows that it was grown on, so
/// that looking a row up gives the value of its mapped leaf, and it is zero for
/// the others; and construction does not refuse it.
pub proof fn law_grown_tree_keeps_its_promises(
    x: BinnedMatrix,
    rows: Seq<u32>,
    n_rows: nat,
    axes: Seq<u32>,
    groups: Option<Seq<FeatureSet>>,
    max_order: u8,
    course: Seq<Candidate>,
    tree: ObliviousTree,
    map: Seq<u8>,
)
    requires
        course.len() > 0,
        course_admissible(x, rows, n_rows, axes, groups, max_order, course),
        tree.wf(),
        tree.splits@ == grown(x, rows, n_rows, course).levels,
        map == grown(x, rows, n_rows, course).map,
    ensures
        tree_fault(tree.splits@, x.provenance@) is None,
        1 <= tree.depth as int == tree.splits@.len() <= order_cap(max_order) <= 3,
        forall|k: int|
            0 <= k < tree.splits@.len() ==> axes.contains((#[trigger] tree.splits@[k]).axis),
        raws_of(tree.splits@, x.provenance@).no_duplicates(),
        map.len() == n_rows,
        forall|r: int|
            0 <= r < n_rows && listed(rows, r) ==> {
                let bins = row_bins(x.data@, r);
                &&& (#[trigger] map[r]) as nat == leaf_at(tree.splits@, bins, tree.splits@.len())
                &&& lookup_fault(tree.splits@, bins) is None
                &&& tree.leaves@[leaf_at(tree.splits@, bins, tree.splits@.len()) as int]
                    == tree.leaves@[map[r] as int]
            },
        forall|r: int| 0 <= r < n_rows && !listed(rows, r) ==> #[trigger] map[r] == 0,
{
    let g = grown(x, rows, n_rows, course);
    law_growth_is_sound(x, rows, n_rows, axes, groups, max_order, course);
    let f = |k: int| provenance_fault(g.levels, x.provenance@, k);
    let n = g.levels.len() as int;
    assert forall|k: int| 0 <= k < n implies (#[trigger] f(k)) is None by {
        assert(g.levels[k].axis < x.provenance@.len());
    }
    lemma_first_fault(f, 0, n, n);
    assert forall|r: int| 0 <= r < n_rows && listed(rows, r) implies lookup_fault(
        tree.splits@,
        row_bins(x.data@, r),
    ) is None && (#[trigger] map[r]) as nat == leaf_at(
        tree.splits@,
        row_bins(x.data@, r),
        tree.splits@.len(),
    ) by {
        let bins = row_bins(x.data@, r);
        let m = |k: int| lookup_split_fault(g.levels, bins.len(), k);
        assert forall|k: int| 0 <= k < n implies (#[trigger] m(k)) is None by {
            assert(g.levels[k].axis < x.data@.len());
        }
        lemma_first_fault(m, 0, n, n);
        lemma_leaf_at_bound(g.levels, bins, g.levels.len());
        lemma2_to64();
        if n < 3 {
            lemma_pow2_strictly_increases(n as nat, 3);
        }
    }
}

/// The number of data bins of an axis.
pub open spec fn data_bins_at(grids: Seq<BorderGrid>, axis: u32) -> usize {
    if axis < grids.len() && grids[axis as int].n_bins > 0 {
        (grids[axis as int].n_bins - 1) as usize
    } else {
        0
    }
}

/// The number of data bins of each axis.
pub open spec fn data_bins_of(grids: Seq<BorderGrid>, axes: Seq<u32>) -> Seq<usize> {
    Seq::new(axes.len(), |i: int| data_bins_at(grids, axes[i]))
}

/// The number of data bins of each axis.
pub fn data_bins(x: &BinnedMatrix, axes: &Vec<u32>) -> (v: Vec<usize>)
    ensures
        v@ == data_bins_of(x.grids@, axes@),
{
    let mut v: Vec<usize> = Vec::with_capacity(axes.len());
    let mut i: usize = 0;
    while i < axes.len()
        invariant
            i <= axes.len(),
            v@.len() == i,
            forall|j: int| 0 <= j < i ==> #[trigger] v@[j] == data_bins_at(x.grids@, axes@[j]),
        decreases axes.len() - i,
    {
        let a: usize = axes[i] as usize;
        let n: usize = if a < x.grids.len() && x.grids[a].n_bins > 0 {
            (x.grids[a].n_bins - 1) as usize
        } else {
            0
        };
        v.push(n);
        i = i + 1;
    }
    assert(v@ =~= data_bins_of(x.grids@, axes@));
    v
}

/// Why a row has no membership.
pub open spec fn gather_fault(map: Seq<u8>, rows: Seq<u32>, n_leaves: nat, i: int) -> Option<Fault> {
    if rows[i] >= map.len() {
        Some(Fault::Internal("leaf refinement precomputed membership row escaped"@))
    } else if map[rows[i] as int] >= n_leaves {
        Some(Fault::Internal("leaf refinement precomputed membership escaped depth"@))
    } else {
        None
    }
}

/// The leaf of each listed row, read from the leaf map of growth.
pub fn gather_memberships(leaf_of_row: &Vec<u8>, rows: &Vec<u32>, n_leaves: usize) -> (r: Result<
    Vec<u8>,
    PbError,
>)
    ensures
        answers(
            r,
            first_fault(
                |i: int| gather_fault(leaf_of_row@, rows@, n_leaves as nat, i),
                0,
                rows@.len() as int,
            ),
        ),
        r is Ok ==> r->Ok_0@.len() == rows@.len() && forall|i: int|
            0 <= i < rows@.len() ==> #[trigger] r->Ok_0@[i] == leaf_of_row@[rows@[i] as int],
{
    let ghost f = |i: int| gather_fault(leaf_of_row@, rows@, n_leaves as nat, i);
    let mut out: Vec<u8> = Vec::with_capacity(rows.len());
    let mut i: usize = 0;
    while i < rows.len()
        invariant
            i <= rows.len(),
            f == (|i: int| gather_fault(leaf_of_row@, rows@, n_leaves as nat, i)),
            forall|j: int| 0 <= j < i ==> (#[trigger] f(j)) is None,
            out@.len() == i,
            forall|j: int| 0 <= j < i ==> #[trigger] out@[j] == leaf_of_row@[rows@[j] as int],
        decreases rows.len() - i,
    {
        proof {
            lemma_first_fault(f, 0, i as int, rows@.len() as int);
        }
        let row: usize = rows[i] as usize;
        if row >= leaf_of_row.len() {
            assert(f(i as int) is Some);
            return Err(internal("leaf refinement precomputed membership row escaped"));
        }
        let leaf: u8 = leaf_of_row[row];
        if leaf as usize >= n_leaves {
            assert(f(i as int) is Some);
            return Err(internal("leaf refinement precomputed membership escaped depth"));
        }
        assert(f(i as int) is None);
        out.push(leaf);
        i = i + 1;
    }
    proof {
        lemma_first_fault(f, 0, rows@.len() as int, rows@.len() as int);
    }
    Ok(out)
}

/// Why a row cannot be walked down a tree.
pub open spec fn walk_fault(
    splits: Seq<Split>,
    data: Seq<Vec<u8>>,
    rows: Seq<u32>,
    n_leaves: nat,
    i: int,
) -> Option<Fault> {
    if exists|k: int|
        0 <= k < splits.len() && ((#[trigger] splits[k]).axis >= data.len() || rows[i]
            >= data[splits[k].axis as int]@.len()) {
        Some(Fault::Internal("leaf refinement row escaped the split columns"@))
    } else if leaf_at(splits, row_bins(data, rows[i] as int), splits.len()) >= n_leaves {
        Some(Fault::Internal("leaf refinement membership escaped depth"@))
    } else {
        None
    }
}

/// The leaf of one row, by walking its columns.
pub fn walk_row(splits: &Vec<Split>, data: &Vec<Vec<u8>>, row: usize) -> (r: Option<usize>)
    requires
        splits@.len() <= 8,
    ensures
        r is None <==> exists|k: int|
            0 <= k < splits@.len() && ((#[trigger] splits@[k]).axis >= data@.len() || row
                >= data@[splits@[k].axis as int]@.len()),
        r is Some ==> r->0 == leaf_at(splits@, row_bins(data@, row as int), splits@.len()),
        r is Some ==> r->0 < 256,
{
    let ghost bins = row_bins(data@, row as int);
    let mut leaf: usize = 0;
    let mut weight: usize = 1;
    let mut k: usize = 0;
    proof {
        lemma2_to64();
    }
    while k < splits.len()
        invariant
            k <= splits.len(),
            splits@.len() <= 8,
            bins == row_bins(data@, row as int),
            weight == pow2(k as nat),
            leaf == leaf_at(splits@, bins, k as nat),
            weight <= 256,
            leaf < weight,
            forall|j: int|
                0 <= j < k ==> !((#[trigger] splits@[j]).axis >= data@.len() || row
                    >= data@[splits@[j].axis as int]@.len()),
        decreases splits.len() - k,
    {
        let s = splits[k];
        if s.axis as usize >= data.len() {
            assert(splits@[k as int].axis >= data@.len());
            return None;
        }
        if row >= data[s.axis as usize].len() {
            assert(row >= data@[splits@[k as int].axis as int]@.len());
            return None;
        }
        proof {
            lemma_pow2_unfold((k + 1) as nat);
            lemma_leaf_at_bound(splits@, bins, (k + 1) as nat);
            lemma2_to64();
            if k + 1 < 8 {
                lemma_pow2_strictly_increases((k + 1) as nat, 8);
            }
            assert(bins[s.axis as int] == data@[s.axis as int]@[row as int]);
        }
        if low_bit(data[s.axis as usize][row], s.bin_le, s.missing_left) {
            leaf = leaf + weight;
        }
        weight = weight * 2;
        k = k + 1;
    }
    Some(leaf)
}

/// The leaf of each listed row, by walking the tree.
pub fn tree_memberships_for_rows(
    tree: &ObliviousTree,
    x: &BinnedMatrix,
    rows: &Vec<u32>,
    n_leaves: usize,
) -> (r: Result<Vec<u8>, PbError>)
    requires
        tree.splits@.len() <= 8,
    ensures
        answers(
            r,
            first_fault(
                |i: int| walk_fault(tree.splits@, x.data@, rows@, n_leaves as nat, i),
                0,
                rows@.len() as int,
            ),
        ),
        r is Ok ==> r->Ok_0@.len() == rows@.len() && forall|i: int|
            0 <= i < rows@.len() ==> (#[trigger] r->Ok_0@[i]) as nat == leaf_at(
                tree.splits@,
                row_bins(x.data@, rows@[i] as int),
                tree.splits@.len(),
            ),
{
    let ghost f = |i: int| walk_fault(tree.splits@, x.data@, rows@, n_leaves as nat, i);
    let mut out: Vec<u8> = Vec::with_capacity(rows.len());
    let mut i: usize = 0;
    while i < rows.len()
        invariant
            i <= rows.len(),
            tree.splits@.len() <= 8,
            f == (|i: int| walk_fault(tree.splits@, x.data@, rows@, n_leaves as nat, i)),
            forall|j: int| 0 <= j < i ==> (#[trigger] f(j)) is None,
            out@.len() == i,
            forall|j: int|
                0 <= j < i ==> (#[trigger] out@[j]) as nat == leaf_at(
                    tree.splits@,
                    row_bins(x.data@, rows@[j] as int),
                    tree.splits@.len(),
                ),
        decreases rows.len() - i,
    {
        proof {
            lemma_first_fault(f, 0, i as int, rows@.len() as int);
        }
        match walk_row(&tree.splits, &x.data, rows[i] as usize) {
            None => {
                assert(f(i as int) is Some);
                return Err(internal("leaf refinement row escaped the split columns"));
            },
            Some(leaf) => {
                if leaf >= n_leaves {
                    assert(f(i as int) is Some);
                    return Err(internal("leaf refinement membership escaped depth"));
                }
                assert(f(i as int) is None);
                out.push(leaf as u8);
            },
        }
        i = i + 1;
    }
    proof {
        lemma_first_fault(f, 0, rows@.len() as int, rows@.len() as int);
    }
    Ok(out)
}

/// The leaf map of growth and a walk of the grown tree give every row the same
/// leaf.
pub proof fn law_leaf_map_is_tree_walk(s: GrowState, x: BinnedMatrix, rows: Seq<u32>, i: int)
    requires
        s.maps(x, rows),
        0 <= i < rows.len(),
    ensures
        s.map()[rows[i] as int] as nat == leaf_at(
            s.levels(),
            row_bins(x.data@, rows[i] as int),
            s.levels().len(),
        ),
{
    assert(rows[i] < s.map().len());
}

/// The sign of each level of a tree, where its axis has one.
pub open spec fn level_sign(
    splits: Seq<Split>,
    axis_signs: Seq<Option<MonoSign>>,
    level: int,
) -> Option<MonoSign> {
    let a = splits[level].axis as int;
    if a < axis_signs.len() && axis_signs[a] is Some && axis_signs[a]->0 != MonoSign::Free {
        axis_signs[a]
    } else {
        None
    }
}

/// The signs of the levels of a tree.
pub fn level_signs(splits: &Vec<Split>, depth: usize, axis_signs: &Vec<Option<MonoSign>>) -> (v: Vec<
    Option<MonoSign>,
>)
    ensures
        v@.len() == (if depth < 3 {
            if depth < splits@.len() {
                depth as nat
            } else {
                splits@.len()
            }
        } else if splits@.len() < 3 {
            splits@.len()
        } else {
            3
        }),
        forall|l: int|
            0 <= l < v@.len() ==> #[trigger] v@[l] == level_sign(splits@, axis_signs@, l),
{
    let cap: usize = if depth < 3 {
        depth
    } else {
        3
    };
    let mut v: Vec<Option<MonoSign>> = Vec::new();
    let mut l: usize = 0;
    while l < splits.len() && l < cap
        invariant
            l <= splits.len(),
            l <= cap,
            v@.len() == l,
            forall|j: int|
                0 <= j < l ==> #[trigger] v@[j] == level_sign(splits@, axis_signs@, j),
        decreases splits.len() - l,
    {
        let a: usize = splits[l].axis as usize;
        let s: Option<MonoSign> = if a < axis_signs.len() {
            match axis_signs[a] {
                Some(MonoSign::Increasing) => Some(MonoSign::Increasing),
                Some(MonoSign::Decreasing) => Some(MonoSign::Decreasing),
                Some(MonoSign::Free) => None,
                None => None,
            }
        } else {
            None
        };
        v.push(s);
        l = l + 1;
    }
    v
}

/// Whether the pair at step `t` of a pass violates its sign: steps run over the
/// levels, and within a level over the leaves on its high side.
pub open spec fn violated_at(leaves: Seq<F32>, signs: Seq<Option<MonoSign>>, n: int, t: int) -> bool {
    let level = t / n;
    let high = t % n;
    let w = pow2(level as nat) as int;
    &&& signs[level] is Some
    &&& bit_clear(high, w)
    &&& high + w < 8
    &&& match signs[level]->0 {
        MonoSign::Increasing => leaves[high].below(leaves[high + w]),
        MonoSign::Decreasing => leaves[high + w].below(leaves[high]),
        MonoSign::Free => false,
    }
}

/// The next pair of leaves, from step `from` of a pass on, that violates its
/// monotone sign: the step, the leaf of the smaller feature values and that of the
/// larger ones. The caller pools the two and goes on after the step.
pub fn next_violation(
    leaves: &[F32; 8],
    signs: &Vec<Option<MonoSign>>,
    depth: usize,
    from: usize,
) -> (r: Option<(usize, usize, usize)>)
    requires
        1 <= depth <= 3,
        signs@.len() <= depth,
    ensures
        ({
            let n = pow2(depth as nat) as int;
            let end = signs@.len() * n;
            match r {
                None => forall|t: int|
                    from <= t < end ==> !(#[trigger] violated_at(leaves@, signs@, n, t)),
                Some((t, low, high)) => {
                    &&& from <= t < end
                    &&& violated_at(leaves@, signs@, n, t as int)
                    &&& high as int == t as int % n
                    &&& low as int == high + pow2((t as int / n) as nat)
                    &&& low < 8
                    &&& forall|u: int|
                        from <= u < t ==> !(#[trigger] violated_at(leaves@, signs@, n, u))
                },
            }
        }),
{
    let n: usize = leaves_at(depth);
    proof {
        lemma2_to64();
        if depth < 3 {
            lemma_pow2_strictly_increases(depth as nat, 3);
        }
        assert(n <= 8);
        assert(signs@.len() * n <= 24) by (nonlinear_arith)
            requires
                signs@.len() <= 3,
                n <= 8,
        ;
    }
    let end: usize = signs.len() * n;
    let mut t: usize = from;
    while t < end
        invariant
            n == pow2(depth as nat),
            1 <= n <= 8,
            1 <= depth <= 3,
            signs@.len() <= depth,
            end == signs@.len() * n,
            end <= 24,
            t >= from,
            forall|u: int| from <= u < t ==> !(#[trigger] violated_at(leaves@, signs@, n as int, u)),
        decreases end - t,
    {
        let level: usize = t / n;
        let high: usize = t % n;
        proof {
            assert(t as int == level * n + high && 0 <= high < n) by (nonlinear_arith)
                requires
                    n >= 1,
                    level == t / n,
                    high == t % n,
            ;
            assert(level < signs@.len()) by (nonlinear_arith)
                requires
                    t as int == level * n + high,
                    0 <= high,
                    t < signs@.len() * n,
                    n >= 1,
            ;
        }
        let w: usize = leaves_at(level);
        proof {
            lemma2_to64();
            if level < 2 {
                lemma_pow2_strictly_increases(level as nat, 2);
            }
        }
        if (high / w) % 2 == 0 && high + w < 8 {
            let low: usize = high + w;
            let bad: bool = match signs[level] {
                Some(MonoSign::Increasing) => leaves[high].lt(&leaves[low]),
                Some(MonoSign::Decreasing) => leaves[low].lt(&leaves[high]),
                Some(MonoSign::Free) => false,
                None => false,
            };
            if bad {
                assert(violated_at(leaves@, signs@, n as int, t as int));
                return Some((t, low, high));
            }
        }
        assert(!violated_at(leaves@, signs@, n as int, t as int));
        t = t + 1;
    }
    None
}


/// Where no pair violates its sign, every level is monotone: the leaf of the
/// larger feature values is never on the wrong side of the one of the smaller.
pub proof fn law_no_violation_is_monotone(
    leaves: Seq<F32>,
    signs: Seq<Option<MonoSign>>,
    depth: nat,
    level: int,
    high: int,
)
    requires
        1 <= depth <= 3,
        signs.len() <= depth,
        0 <= level < signs.len(),
        0 <= high < pow2(depth),
        (high / pow2(level as nat) as int) % 2 == 0,
        high + pow2(level as nat) < 8,
        forall|t: int|
            0 <= t < signs.len() * pow2(depth) ==> !(#[trigger] violated_at(
                leaves,
                signs,
                pow2(depth) as int,
                t,
            )),
    ensures
        signs[level] == Some(MonoSign::Increasing) ==> !leaves[high].below(
            leaves[high + pow2(level as nat)],
        ),
        signs[level] == Some(MonoSign::Decreasing) ==> !leaves[high + pow2(level as nat)].below(
            leaves[high],
        ),
{
    let n = pow2(depth) as int;
    let t = level * n + high;
    vstd::arithmetic::div_mod::lemma_fundamental_div_mod_converse(t, n, level, high);
    assert(0 <= t < signs.len() * n) by (nonlinear_arith)
        requires
            t == level * n + high,
            0 <= level < signs.len(),
            0 <= high < n,
    ;
    assert(!violated_at(leaves, signs, n, t));
}

/// The axes of a level are those of the list whose raw feature is not used yet
/// and, where groups are given, lies with all used features in one of them.
pub proof fn law_a_level_lists_every_axis_it_may_use(
    provenance: Seq<AxisProvenance>,
    axes: Seq<u32>,
    used: Seq<u32>,
    groups: Option<Seq<FeatureSet>>,
    n: nat,
    a: u32,
)
    requires
        n <= axes.len(),
    ensures
        admissible_axes(provenance, axes, used, groups, n).contains(a) <==> {
            &&& axes.take(n as int).contains(a)
            &&& a < provenance.len()
            &&& forall|i: int| 0 <= i < used.len() ==> #[trigger] used[i] != provenance[a as int].raw.0
            &&& groups is Some ==> exists|g: int|
                {
                    &&& 0 <= g < groups->0.len()
                    &&& (#[trigger] groups->0[g]).ids@.contains(provenance[a as int].raw)
                    &&& forall|i: int|
                        0 <= i < used.len() ==> groups->0[g].ids@.contains(
                            FeatureId(#[trigger] used[i]),
                        )
                }
        },
        admissible_axes(provenance, axes, used, groups, n).len() <= n,
    decreases n,
{
    let list = admissible_axes(provenance, axes, used, groups, n);
    if n > 0 {
        law_a_level_lists_every_axis_it_may_use(provenance, axes, used, groups, (n - 1) as nat, a);
        let before = admissible_axes(provenance, axes, used, groups, (n - 1) as nat);
        let last = axes[n - 1];
        let (front, whole) = (axes.take(n - 1), axes.take(n as int));
        assert(whole =~= front.push(last));
        assert(whole.contains(a) <==> front.contains(a) || a == last) by {
            if front.contains(a) {
                let i = choose|i: int| 0 <= i < front.len() && front[i] == a;
                assert(whole[i] == a);
            }
            if a == last {
                assert(whole[n - 1] == a);
            }
            if whole.contains(a) {
                let i = choose|i: int| 0 <= i < whole.len() && whole[i] == a;
                if i < n - 1 {
                    assert(front[i] == a);
                }
            }
        }
        assert(before.push(last).contains(a) <==> before.contains(a) || a == last) by {
            if before.contains(a) {
                let i = choose|i: int| 0 <= i < before.len() && before[i] == a;
                assert(before.push(last)[i] == a);
            }
            if a == last {
                assert(before.push(last)[before.len() as int] == a);
            }
            if before.push(last).contains(a) {
                let more = before.push(last);
                let i = choose|i: int| 0 <= i < more.len() && more[i] == a;
                if i < before.len() {
                    assert(before[i] == a);
                }
            }
        }
        if a == last {
            let raw = provenance[a as int].raw;
            assert(used.contains(raw.0) <==> !(forall|i: int|
                0 <= i < used.len() ==> #[trigger] used[i] != raw.0));
            if groups is Some {
                assert(group_allows(groups->0, raw, used) <==> exists|g: int|
                    {
                        &&& 0 <= g < groups->0.len()
                        &&& (#[trigger] groups->0[g]).ids@.contains(raw)
                        &&& forall|i: int|
                            0 <= i < used.len() ==> groups->0[g].ids@.contains(
                                FeatureId(#[trigger] used[i]),
                            )
                    }) by {
                    if group_allows(groups->0, raw, used) {
                        let g = choose|g: int|
                            0 <= g < groups->0.len() && #[trigger] group_holds(
                                groups->0[g],
                                raw,
                                used,
                            );
                        assert(groups->0[g].ids@.contains(raw));
                    }
                    if exists|g: int|
                        {
                            &&& 0 <= g < groups->0.len()
                            &&& (#[trigger] groups->0[g]).ids@.contains(raw)
                            &&& forall|i: int|
                                0 <= i < used.len() ==> groups->0[g].ids@.contains(
                                    FeatureId(#[trigger] used[i]),
                                )
                        } {
                        let g = choose|g: int|
                            {
                                &&& 0 <= g < groups->0.len()
                                &&& (#[trigger] groups->0[g]).ids@.contains(raw)
                                &&& forall|i: int|
                                    0 <= i < used.len() ==> groups->0[g].ids@.contains(
                                        FeatureId(#[trigger] used[i]),
                                    )
                            };
                        assert(group_holds(groups->0[g], raw, used));
                    }
                }
            }
        }
    }
}

/// A tree has as many levels as its order allows, and three at the most.
pub proof fn law_the_order_caps_the_levels(max_order: u8)
    ensures
        max_order <= 3 ==> order_cap(max_order) == max_order,
        max_order > 3 ==> order_cap(max_order) == 3,
{
}

/// A level has the sign of its axis, and none where the axis has none or is free.
pub proof fn law_levels_have_the_signs_of_their_axes(
    splits: Seq<Split>,
    axis_signs: Seq<Option<MonoSign>>,
    level: int,
)
    requires
        0 <= level < splits.len(),
    ensures
        ({
            let a = splits[level].axis as int;
            let s = level_sign(splits, axis_signs, level);
            &&& s == Some(MonoSign::Increasing) <==> a < axis_signs.len() && axis_signs[a] == Some(
                MonoSign::Increasing,
            )
            &&& s == Some(MonoSign::Decreasing) <==> a < axis_signs.len() && axis_signs[a] == Some(
                MonoSign::Decreasing,
            )
            &&& s != Some(MonoSign::Free)
        }),
{
}

/// The data bins of an axis are all its bins but the missing one.
pub proof fn law_data_bins_leave_the_missing_one_out(grids: Seq<BorderGrid>, axis: u32)
    ensures
        axis < grids.len() && grids[axis as int].n_bins > 0 ==> data_bins_at(grids, axis) + 1
            == grids[axis as int].n_bins,
        axis >= grids.len() ==> data_bins_at(grids, axis) == 0,
{
}

/// A row's leaf is gathered exactly when the row is in the map and its leaf in the
/// tree; it is walked to exactly when the row has a bin on every axis split on.
pub proof fn law_gathered_leaves_are_in_the_tree(
    map: Seq<u8>,
    splits: Seq<Split>,
    data: Seq<Vec<u8>>,
    rows: Seq<u32>,
    n_leaves: nat,
    i: int,
)
    ensures
        gather_fault(map, rows, n_leaves, i) is None <==> rows[i] < map.len() && map[rows[i] as int]
            < n_leaves,
        n_leaves >= pow2(splits.len()) ==> (walk_fault(splits, data, rows, n_leaves, i) is None
            <==> forall|k: int|
            0 <= k < splits.len() ==> (#[trigger] splits[k]).axis < data.len() && rows[i]
                < data[splits[k].axis as int]@.len()),
{
    lemma_leaf_at_bound(splits, row_bins(data, rows[i] as int), splits.len());
}

} // verus!
