//! Building the border grid of one feature.
//!
//! [`plan_grid`] does everything that leads up to the borders: it checks the
//! input, sorts the finite values, and decides between midpoints and quantiles
//! and what the quantiles are taken over. The borders themselves are averages of
//! neighbouring values, computed by the caller; [`finish_grid`] takes them, drops
//! duplicates and merges bins that hold too few rows.
use crate::backend::{pb_rng, pcg_numbers_of_seed, seed_of, Stage};
use crate::data::{bin_config_fault, borders_ascend, BinConfig, BorderGrid, FeatureId};
use crate::draw::{draw_positions, is_draw, law_draw_is_unique};
use crate::error::{answers, internal, invalid_input, Fault, PbError};
use crate::float::F32;
use crate::sort::{
    law_sort_ignores_order, lemma_sorted_members, lemma_sorted_pairs, pair_le, sort_pairs, sorted_pairs,
};
use crate::text::{dec, decimal, number_last};
use vstd::prelude::*;

verus! {

/// The weight of a row when no weights are given: the number 1.
pub open spec fn unit_weight() -> F32 {
    F32 { bits: 0x3f80_0000 }
}

/// A value with its weight.
pub type Weighted = (F32, F32);

/// The weight of row `i`.
pub open spec fn weight_at(weight: Option<Seq<F32>>, i: int) -> F32 {
    match weight {
        Some(w) => w[i],
        None => unit_weight(),
    }
}

/// Whether a weight can be used: finite and not below zero.
pub open spec fn usable_weight(w: F32) -> bool {
    w.finite() && w.key() >= 0
}

/// The finite values of the first `n` rows, each with its weight.
pub open spec fn finite_rows(col: Seq<F32>, weight: Option<Seq<F32>>, n: nat) -> Seq<Weighted>
    decreases n,
{
    if n == 0 {
        Seq::empty()
    } else {
        let before = finite_rows(col, weight, (n - 1) as nat);
        if col[n - 1].finite() {
            before.push((col[n - 1], weight_at(weight, n - 1)))
        } else {
            before
        }
    }
}

/// The ranks of a value and of its weight in the total order.
pub open spec fn ranks(p: Weighted) -> (u64, u64) {
    ((p.0.total_key() + 0x8000_0000) as u64, (p.1.total_key() + 0x8000_0000) as u64)
}

/// The number at a rank of the total order.
pub open spec fn at_rank(k: u64) -> F32 {
    if k >= 0x8000_0000 {
        F32 { bits: (k - 0x8000_0000) as u32 }
    } else {
        F32 { bits: (0xffff_ffff - k) as u32 }
    }
}

/// Weighted values in the total order, ties in the order of their weights.
pub open spec fn value_sorted(s: Seq<Weighted>) -> Seq<Weighted> {
    sorted_pairs(s.map_values(|p: Weighted| ranks(p))).map_values(
        |k: (u64, u64)| (at_rank(k.0), at_rank(k.1)),
    )
}

/// The values of a sorted list without repetition: the first of each run of
/// equal numbers.
pub open spec fn distinct_of(s: Seq<F32>) -> Seq<F32>
    decreases s.len(),
{
    if s.len() == 0 {
        Seq::empty()
    } else {
        let before = distinct_of(s.drop_last());
        if before.len() > 0 && before.last().same(s.last()) {
            before
        } else {
            before.push(s.last())
        }
    }
}

/// The values of weighted values.
pub open spec fn values_of(s: Seq<Weighted>) -> Seq<F32> {
    s.map_values(|p: Weighted| p.0)
}

/// What the borders of a feature are computed from.
#[derive(Debug, Clone, PartialEq)]
pub enum GridPlan {
    /// No finite value: one data bin and no border.
    Degenerate,
    /// Few distinct values: a border midway between each two neighbours.
    Midpoints { sorted: Vec<Weighted>, distinct: Vec<F32> },
    /// Many distinct values: equal-count borders over the sample.
    Quantiles { sorted: Vec<Weighted>, sample: Vec<Weighted> },
}

/// Whether `sample` holds the items of `sorted` at the drawn positions `at`.
pub open spec fn sampled_at(
    sample: Seq<Weighted>,
    sorted: Seq<Weighted>,
    at: Seq<usize>,
    k: nat,
    numbers: Map<nat, u64>,
) -> bool {
    &&& is_draw(at, sorted.len(), k, numbers)
    &&& sample.len() == at.len()
    &&& forall|i: int|
        0 <= i < at.len() ==> at[i] < sorted.len() && #[trigger] sample[i] == sorted[at[i] as int]
}

/// Whether `sample` is the part of `sorted` that the feature's random stream
/// draws.
pub open spec fn is_subsample(
    sample: Seq<Weighted>,
    sorted: Seq<Weighted>,
    k: nat,
    seed: u64,
    feat: u32,
) -> bool {
    exists|at: Seq<usize>|
        sampled_at(
            sample,
            sorted,
            at,
            k,
            pcg_numbers_of_seed(seed_of(seed, 0, Stage::Binning.code(), feat)),
        )
}

/// Whether `plan` is the plan for these finite rows.
pub open spec fn is_grid_plan(
    plan: GridPlan,
    rows: Seq<Weighted>,
    cfg: BinConfig,
    seed: u64,
    feat: u32,
) -> bool {
    let s = value_sorted(rows);
    let d = distinct_of(values_of(s));
    if rows.len() == 0 {
        plan is Degenerate
    } else if d.len() <= cfg.max_bin {
        plan is Midpoints && plan->Midpoints_sorted@ == s && plan->distinct@ == d
    } else {
        plan is Quantiles && plan->Quantiles_sorted@ == s && if s.len() <= cfg.subsample_for_binning {
            plan->sample@ == s
        } else {
            is_subsample(plan->sample@, s, cfg.subsample_for_binning as nat, seed, feat)
        }
    }
}

/// Why no quantile can be taken of a sample: none of its weights is above zero.
pub open spec fn sample_fault(sample: Seq<Weighted>) -> Option<Fault> {
    if exists|i: int| 0 <= i < sample.len() && (#[trigger] sample[i]).1.positive() {
        None
    } else {
        Some(Fault::InvalidInput("non-positive total weight in binning subsample"@))
    }
}

/// Checks that a sample has weight to take quantiles of.
pub fn check_sample(sample: &Vec<Weighted>) -> (r: Result<(), PbError>)
    ensures
        answers(r, sample_fault(sample@)),
{
    let mut i: usize = 0;
    while i < sample.len()
        invariant
            i <= sample.len(),
            forall|j: int| 0 <= j < i ==> !(#[trigger] sample@[j]).1.positive(),
        decreases sample.len() - i,
    {
        if sample[i].1.is_positive() {
            assert(sample@[i as int].1.positive());
            return Ok(());
        }
        i = i + 1;
    }
    Err(invalid_input("non-positive total weight in binning subsample"))
}

/// Whether some finite value among the first `n` rows has an unusable weight.
pub open spec fn bad_weight(col: Seq<F32>, weight: Option<Seq<F32>>, n: int) -> bool {
    exists|i: int|
        0 <= i < n && #[trigger] col[i].finite() && !usable_weight(weight_at(weight, i))
}

/// Whether there are rows, but none with a weight above zero.
pub open spec fn weightless(rows: Seq<Weighted>) -> bool {
    rows.len() > 0 && (forall|i: int| 0 <= i < rows.len() ==> !(#[trigger] rows[i]).1.positive())
}

/// Why the binning of a column is refused.
pub open spec fn grid_fault(col: Seq<F32>, weight: Option<Seq<F32>>, cfg: BinConfig) -> Option<Fault> {
    if bin_config_fault(cfg) is Some {
        bin_config_fault(cfg)
    } else if weight is Some && weight->0.len() != col.len() {
        Some(
            Fault::ShapeMismatch(
                "weight len "@ + dec(weight->0.len()) + " != column len "@ + dec(col.len()),
            ),
        )
    } else if bad_weight(col, weight, col.len() as int) {
        Some(Fault::InvalidInput("sample weights must be finite and >= 0"@))
    } else if weightless(finite_rows(col, weight, col.len())) {
        Some(Fault::InvalidInput("non-positive total weight in binning subsample"@))
    } else {
        None
    }
}

/// The view of an optional list.
pub open spec fn opt_view(w: Option<&Vec<F32>>) -> Option<Seq<F32>> {
    match w {
        Some(v) => Some(v@),
        None => None,
    }
}

/// Ranks and numbers determine each other.
pub proof fn lemma_rank_roundtrip(f: F32)
    ensures
        at_rank((f.total_key() + 0x8000_0000) as u64) == f,
        0 <= f.total_key() + 0x8000_0000 <= 0xffff_ffff,
{
}

fn number_at_rank(k: u64) -> (f: F32)
    requires
        k <= 0xffff_ffff,
    ensures
        f == at_rank(k),
{
    if k >= 0x8000_0000 {
        F32 { bits: (k - 0x8000_0000) as u32 }
    } else {
        F32 { bits: (0xffff_ffff - k) as u32 }
    }
}

/// Sorts weighted values in the total order.
fn sort_values(rows: &Vec<Weighted>) -> (s: Vec<Weighted>)
    ensures
        s@ == value_sorted(rows@),
        s@.len() == rows@.len(),
{
    let mut keys: Vec<(u64, u64)> = Vec::with_capacity(rows.len());
    let ghost f = |p: Weighted| ranks(p);
    let mut i: usize = 0;
    while i < rows.len()
        invariant
            i <= rows.len(),
            f == (|p: Weighted| ranks(p)),
            keys@ =~= rows@.take(i as int).map_values(f),
        decreases rows.len() - i,
    {
        let p: Weighted = rows[i];
        keys.push((p.0.total_rank() as u64, p.1.total_rank() as u64));
        i = i + 1;
    }
    proof {
        assert(rows@.take(i as int) =~= rows@);
        lemma_sorted_pairs(keys@);
    }
    let ghost unsorted = keys@;
    let sorted = sort_pairs(keys);
    proof {
        assert forall|j: int| 0 <= j < sorted@.len() implies (#[trigger] sorted@[j]).0 <= 0xffff_ffff
            && sorted@[j].1 <= 0xffff_ffff by {
            lemma_sorted_members(unsorted);
            assert(unsorted.contains(sorted@[j]));
            let w = choose|w: int| 0 <= w < unsorted.len() && unsorted[w] == sorted@[j];
            lemma_rank_roundtrip(rows@[w].0);
            lemma_rank_roundtrip(rows@[w].1);
        }
    }
    let ghost g = |k: (u64, u64)| (at_rank(k.0), at_rank(k.1));
    let mut s: Vec<Weighted> = Vec::with_capacity(sorted.len());
    let mut j: usize = 0;
    while j < sorted.len()
        invariant
            j <= sorted.len(),
            g == (|k: (u64, u64)| (at_rank(k.0), at_rank(k.1))),
            forall|q: int|
                0 <= q < sorted@.len() ==> (#[trigger] sorted@[q]).0 <= 0xffff_ffff && sorted@[q].1
                    <= 0xffff_ffff,
            s@ =~= sorted@.take(j as int).map_values(g),
        decreases sorted.len() - j,
    {
        s.push((number_at_rank(sorted[j].0), number_at_rank(sorted[j].1)));
        j = j + 1;
    }
    assert(sorted@.take(j as int) =~= sorted@);
    s
}

/// The distinct values of a sorted list.
fn distinct_values(s: &Vec<F32>) -> (d: Vec<F32>)
    ensures
        d@ == distinct_of(s@),
{
    let mut d: Vec<F32> = Vec::new();
    let mut i: usize = 0;
    assert(s@.take(0) =~= Seq::<F32>::empty());
    while i < s.len()
        invariant
            i <= s.len(),
            d@ == distinct_of(s@.take(i as int)),
        decreases s.len() - i,
    {
        let v = s[i];
        assert(s@.take(i + 1).drop_last() =~= s@.take(i as int));
        let repeated: bool = d.len() > 0 && d[d.len() - 1].ieee_eq(&v);
        if !repeated {
            d.push(v);
        }
        i = i + 1;
    }
    assert(s@.take(i as int) =~= s@);
    d
}

/// The values of weighted values.
fn plain_values(s: &Vec<Weighted>) -> (v: Vec<F32>)
    ensures
        v@ == values_of(s@),
{
    let mut v: Vec<F32> = Vec::with_capacity(s.len());
    let mut i: usize = 0;
    while i < s.len()
        invariant
            i <= s.len(),
            v@.len() == i,
            forall|j: int| 0 <= j < i ==> #[trigger] v@[j] == s@[j].0,
        decreases s.len() - i,
    {
        v.push(s[i].0);
        i = i + 1;
    }
    assert(v@ =~= values_of(s@));
    v
}

/// A copy of weighted values.
fn copy_weighted(s: &Vec<Weighted>) -> (v: Vec<Weighted>)
    ensures
        v@ == s@,
{
    let mut v: Vec<Weighted> = Vec::with_capacity(s.len());
    let mut i: usize = 0;
    while i < s.len()
        invariant
            i <= s.len(),
            v@ =~= s@.take(i as int),
        decreases s.len() - i,
    {
        v.push(s[i]);
        i = i + 1;
    }
    assert(s@.take(i as int) =~= s@);
    v
}

/// Draws `k` of the sorted values with the random stream of the feature. The
/// draw is over positions of the sorted list, so that the order of the input
/// rows has no influence.
fn subsample_sorted(sorted: &Vec<Weighted>, k: u32, seed: u64, feat: FeatureId) -> (sample: Vec<
    Weighted,
>)
    requires
        k <= sorted@.len(),
    ensures
        is_subsample(sample@, sorted@, k as nat, seed, feat.0),
{
    let rng = pb_rng(seed, 0, Stage::Binning, feat.0);
    let at = draw_positions(sorted.len(), k as usize, rng);
    let mut sample: Vec<Weighted> = Vec::with_capacity(at.len());
    let mut i: usize = 0;
    while i < at.len()
        invariant
            i <= at.len(),
            sample@.len() == i,
            forall|j: int| 0 <= j < at@.len() ==> #[trigger] at@[j] < sorted@.len(),
            forall|j: int| 0 <= j < i ==> #[trigger] sample@[j] == sorted@[at@[j] as int],
        decreases at.len() - i,
    {
        sample.push(sorted[at[i]]);
        i = i + 1;
    }
    assert(sampled_at(
        sample@,
        sorted@,
        at@,
        k as nat,
        pcg_numbers_of_seed(seed_of(seed, 0, Stage::Binning.code(), feat.0)),
    ));
    sample
}

/// Checks a column and gives its finite values with their weights.
fn checked_rows(col: &Vec<F32>, weight: Option<&Vec<F32>>, cfg: &BinConfig) -> (r: Result<
    Vec<Weighted>,
    PbError,
>)
    ensures
        answers(r, grid_fault(col@, opt_view(weight), *cfg)),
        r is Ok ==> r->Ok_0@ == finite_rows(col@, opt_view(weight), col@.len()),
{
    match cfg.validate() {
        Err(e) => return Err(e),
        Ok(()) => {},
    }
    let ghost w = opt_view(weight);
    match weight {
        Some(ws) => {
            if ws.len() != col.len() {
                let mut what = number_last("weight len ", ws.len() as u64);
                what.append(" != column len ");
                what.append(decimal(col.len() as u64).as_str());
                return Err(PbError::ShapeMismatch { what });
            }
        },
        None => {},
    }
    let mut rows: Vec<Weighted> = Vec::new();
    let mut i: usize = 0;
    while i < col.len()
        invariant
            i <= col.len(),
            w == opt_view(weight),
            w is Some ==> w->0.len() == col@.len(),
            bin_config_fault(*cfg) is None,
            rows@ == finite_rows(col@, w, i as nat),
            !bad_weight(col@, w, i as int),
        decreases col.len() - i,
    {
        let v = col[i];
        if v.is_finite() {
            let wt: F32 = match weight {
                Some(ws) => {
                    let raw = ws[i];
                    if !raw.is_finite() || raw.order_key() < 0 {
                        assert(bad_weight(col@, w, col@.len() as int)) by {
                            assert(col@[i as int].finite() && !usable_weight(weight_at(w, i as int)));
                        }
                        return Err(invalid_input("sample weights must be finite and >= 0"));
                    }
                    raw
                },
                None => F32 { bits: 0x3f80_0000 },
            };
            rows.push((v, wt));
        }
        i = i + 1;
    }
    let mut k: usize = 0;
    while k < rows.len()
        invariant
            k <= rows.len(),
            w == opt_view(weight),
            w is Some ==> w->0.len() == col@.len(),
            bin_config_fault(*cfg) is None,
            !bad_weight(col@, w, col@.len() as int),
            rows@ == finite_rows(col@, w, col@.len()),
            forall|j: int| 0 <= j < k ==> !(#[trigger] rows@[j]).1.positive(),
        decreases rows.len() - k,
    {
        if rows[k].1.is_positive() {
            assert(rows@[k as int].1.positive());
            return Ok(rows);
        }
        k = k + 1;
    }
    if rows.len() > 0 {
        return Err(invalid_input("non-positive total weight in binning subsample"));
    }
    Ok(rows)
}

/// Checks a column before its borders are computed.
pub fn check_grid(col: &Vec<F32>, weight: Option<&Vec<F32>>, cfg: &BinConfig) -> (r: Result<
    (),
    PbError,
>)
    ensures
        answers(r, grid_fault(col@, opt_view(weight), *cfg)),
{
    match checked_rows(col, weight, cfg) {
        Ok(_) => Ok(()),
        Err(e) => Err(e),
    }
}

/// Checks a column and works out what its borders are computed from: the result
/// depends only on which finite values occur with which weights, on the
/// configuration, the seed and the feature.
pub fn plan_grid(
    col: &Vec<F32>,
    weight: Option<&Vec<F32>>,
    cfg: &BinConfig,
    seed: u64,
    feat: FeatureId,
) -> (r: Result<GridPlan, PbError>)
    ensures
        answers(r, grid_fault(col@, opt_view(weight), *cfg)),
        r is Ok ==> is_grid_plan(
            r->Ok_0,
            finite_rows(col@, opt_view(weight), col@.len()),
            *cfg,
            seed,
            feat.0,
        ),
{
    let rows = match checked_rows(col, weight, cfg) {
        Ok(rows) => rows,
        Err(e) => return Err(e),
    };
    if rows.len() == 0 {
        return Ok(GridPlan::Degenerate);
    }
    let sorted = sort_values(&rows);
    let distinct = distinct_values(&plain_values(&sorted));
    if distinct.len() <= cfg.max_bin as usize {
        Ok(GridPlan::Midpoints { sorted, distinct })
    } else if sorted.len() as u64 <= cfg.subsample_for_binning as u64 {
        let sample = copy_weighted(&sorted);
        Ok(GridPlan::Quantiles { sorted, sample })
    } else {
        let sample = subsample_sorted(&sorted, cfg.subsample_for_binning, seed, feat);
        Ok(GridPlan::Quantiles { sorted, sample })
    }
}

/// The number of leading borders below `v`.
pub open spec fn borders_below(borders: Seq<F32>, v: F32) -> nat
    decreases borders.len(),
{
    if borders.len() == 0 {
        0
    } else if borders.last().below(v) {
        borders.len()
    } else {
        borders_below(borders.drop_last(), v)
    }
}

/// On ascending borders the count splits them: those before it lie below `v`,
/// the others do not.
pub proof fn lemma_borders_below(borders: Seq<F32>, v: F32)
    requires
        borders_ascend(borders),
    ensures
        borders_below(borders, v) <= borders.len(),
        forall|i: int| 0 <= i < borders_below(borders, v) ==> (#[trigger] borders[i]).below(v),
        forall|i: int|
            borders_below(borders, v) <= i < borders.len() ==> !(#[trigger] borders[i]).below(v),
    decreases borders.len(),
{
    if borders.len() > 0 {
        let last = borders.len() - 1;
        if borders.last().below(v) {
            assert forall|i: int| 0 <= i < borders.len() implies (#[trigger] borders[i]).below(v) by {
                if i < last {
                    assert(borders[i].key() < borders[last].key());
                }
            }
        } else {
            let rest = borders.drop_last();
            lemma_borders_below(rest, v);
            let n = borders_below(rest, v);
            assert forall|i: int| 0 <= i < n implies (#[trigger] borders[i]).below(v) by {
                assert(rest[i] == borders[i]);
            }
            assert forall|i: int| n <= i < borders.len() implies !(#[trigger] borders[i]).below(
                v,
            ) by {
                if i < last {
                    assert(rest[i] == borders[i]);
                }
            }
        }
    }
}

/// The split is unique.
pub proof fn lemma_borders_below_is(borders: Seq<F32>, v: F32, n: nat)
    requires
        borders_ascend(borders),
        n <= borders.len(),
        n > 0 ==> borders[n - 1].below(v),
        n < borders.len() ==> !borders[n as int].below(v),
    ensures
        borders_below(borders, v) == n,
{
    lemma_borders_below(borders, v);
}

/// The number of borders below `v`, by binary search.
pub fn count_below(borders: &Vec<F32>, v: F32) -> (n: usize)
    requires
        borders_ascend(borders@),
    ensures
        n == borders_below(borders@, v),
        n <= borders@.len(),
{
    let mut lo: usize = 0;
    let mut hi: usize = borders.len();
    while lo < hi
        invariant
            lo <= hi <= borders@.len(),
            borders_ascend(borders@),
            lo > 0 ==> borders@[lo - 1].below(v),
            hi < borders@.len() ==> !borders@[hi as int].below(v),
        decreases hi - lo,
    {
        let mid: usize = lo + (hi - lo) / 2;
        if borders[mid].lt(&v) {
            lo = mid + 1;
        } else {
            hi = mid;
        }
    }
    proof {
        lemma_borders_below_is(borders@, v, lo as nat);
    }
    lo
}

/// Numbers in the total order.
pub open spec fn total_sorted(s: Seq<F32>) -> Seq<F32> {
    values_of(value_sorted(s.map_values(|v: F32| (v, unit_weight()))))
}

/// Whether the numbers are in the total order.
pub open spec fn total_ascending(s: Seq<F32>) -> bool {
    forall|i: int, j: int|
        0 <= i < j < s.len() ==> (#[trigger] s[i]).total_key() <= (#[trigger] s[j]).total_key()
}

/// Sorting puts the values in the total order and keeps which ones there are.
pub proof fn lemma_value_sorted(s: Seq<Weighted>)
    ensures
        value_sorted(s).len() == s.len(),
        total_ascending(values_of(value_sorted(s))),
        forall|j: int|
            0 <= j < s.len() ==> s.contains(#[trigger] value_sorted(s)[j]),
        forall|p: Weighted| s.contains(p) ==> #[trigger] value_sorted(s).contains(p),
{
    let keys = s.map_values(|p: Weighted| ranks(p));
    let t = sorted_pairs(keys);
    lemma_sorted_pairs(keys);
    lemma_sorted_members(keys);
    let r = value_sorted(s);
    assert forall|j: int| 0 <= j < s.len() implies s.contains(#[trigger] r[j]) && ranks(r[j]) == t[j] by {
        assert(keys.contains(t[j]));
        let w = choose|w: int| 0 <= w < keys.len() && keys[w] == t[j];
        lemma_rank_roundtrip(s[w].0);
        lemma_rank_roundtrip(s[w].1);
        assert(r[j] == s[w]);
    }
    assert forall|i: int, j: int| 0 <= i < j < r.len() implies (#[trigger] values_of(r)[i]).total_key()
        <= (#[trigger] values_of(r)[j]).total_key() by {
        assert(pair_le(t[i], t[j]));
        assert(ranks(r[i]) == t[i] && ranks(r[j]) == t[j]);
    }
    assert forall|p: Weighted| s.contains(p) implies #[trigger] r.contains(p) by {
        let w = choose|w: int| 0 <= w < s.len() && s[w] == p;
        assert(keys[w] == ranks(p));
        assert(keys.contains(ranks(p)));
        assert(t.contains(ranks(p)));
        let j = choose|j: int| 0 <= j < t.len() && t[j] == ranks(p);
        lemma_rank_roundtrip(p.0);
        lemma_rank_roundtrip(p.1);
        assert(r[j] == p);
    }
}

/// Of finite numbers in the total order, the distinct ones ascend strictly.
pub proof fn lemma_distinct_ascends(s: Seq<F32>)
    requires
        total_ascending(s),
        forall|i: int| 0 <= i < s.len() ==> (#[trigger] s[i]).finite(),
    ensures
        borders_ascend(distinct_of(s)),
        forall|i: int| 0 <= i < distinct_of(s).len() ==> s.contains(#[trigger] distinct_of(s)[i]),
        s.len() > 0 ==> distinct_of(s).len() > 0 && distinct_of(s).last().same(s.last()),
        distinct_of(s).len() <= s.len(),
    decreases s.len(),
{
    if s.len() > 0 {
        let rest = s.drop_last();
        let before = distinct_of(rest);
        assert forall|i: int| 0 <= i < rest.len() implies (#[trigger] rest[i]).finite() by {
            assert(rest[i] == s[i]);
        }
        assert(total_ascending(rest));
        lemma_distinct_ascends(rest);
        let d = distinct_of(s);
        assert forall|i: int| 0 <= i < d.len() implies s.contains(#[trigger] d[i]) by {
            if i < before.len() {
                assert(rest.contains(before[i]));
                let w = choose|w: int| 0 <= w < rest.len() && rest[w] == before[i];
                assert(s[w] == d[i]);
            } else {
                assert(s[s.len() - 1] == d[i]);
            }
        }
        if rest.len() > 0 {
            assert(rest.last() == s[s.len() - 2]);
            assert(rest.last().total_key() <= s.last().total_key());
            assert(s[s.len() - 2].finite());
            assert(s[s.len() - 1].finite());
            assert(rest.last().key() <= s.last().key());
        }
        assert(borders_ascend(d)) by {
            assert forall|i: int, j: int| 0 <= i < j < d.len() implies (#[trigger] d[i]).key() < (
            #[trigger] d[j]).key() by {
                if j < before.len() {
                    assert(before[i].key() < before[j].key());
                } else {
                    assert(before.last().key() < s.last().key());
                    if i < before.len() - 1 {
                        assert(before[i].key() < before[before.len() - 1].key());
                    }
                }
            }
            assert forall|i: int| 0 <= i < d.len() implies !(#[trigger] d[i]).nan() by {
                assert(s.contains(d[i]));
            }
        }
    }
}

/// Sorts borders and drops duplicates.
pub fn dedup_ascending(borders: &Vec<F32>) -> (d: Vec<F32>)
    requires
        forall|i: int| 0 <= i < borders@.len() ==> (#[trigger] borders@[i]).finite(),
    ensures
        d@ == distinct_of(total_sorted(borders@)),
        borders_ascend(d@),
        d@.len() <= borders@.len(),
{
    let mut rows: Vec<Weighted> = Vec::with_capacity(borders.len());
    let mut i: usize = 0;
    while i < borders.len()
        invariant
            i <= borders.len(),
            rows@.len() == i,
            forall|j: int| 0 <= j < i ==> #[trigger] rows@[j] == (borders@[j], unit_weight()),
        decreases borders.len() - i,
    {
        rows.push((borders[i], F32 { bits: 0x3f80_0000 }));
        i = i + 1;
    }
    assert(rows@ =~= borders@.map_values(|v: F32| (v, unit_weight())));
    let sorted = sort_values(&rows);
    let values = plain_values(&sorted);
    proof {
        lemma_value_sorted(rows@);
        assert forall|j: int| 0 <= j < values@.len() implies (#[trigger] values@[j]).finite() by {
            assert(rows@.contains(sorted@[j]));
        }
        lemma_distinct_ascends(values@);
    }
    distinct_values(&values)
}

/// How many values do not exceed `x`.
pub open spec fn rows_up_to(vals: Seq<F32>, x: F32) -> nat
    decreases vals.len(),
{
    if vals.len() == 0 {
        0
    } else {
        rows_up_to(vals.drop_last(), x) + if x.below(vals.last()) {
            0nat
        } else {
            1nat
        }
    }
}

/// How many values fall into the bin after the first `k` borders.
pub open spec fn rows_in_bin(vals: Seq<F32>, borders: Seq<F32>, k: nat) -> nat
    decreases vals.len(),
{
    if vals.len() == 0 {
        0
    } else {
        rows_in_bin(vals.drop_last(), borders, k) + if borders_below(borders, vals.last()) == k {
            1nat
        } else {
            0nat
        }
    }
}

/// How many values fall into the bins up to and including the one after the
/// first `k` borders.
pub open spec fn rows_in_bins(vals: Seq<F32>, borders: Seq<F32>, k: int) -> nat
    decreases vals.len(),
{
    if vals.len() == 0 {
        0
    } else {
        rows_in_bins(vals.drop_last(), borders, k) + if borders_below(borders, vals.last()) <= k {
            1nat
        } else {
            0nat
        }
    }
}

/// The borders kept of the first `k`: going up, a border is kept when the rows
/// since the last kept border, and the rows still to come, are each at least
/// `min`.
pub open spec fn kept_borders(vals: Seq<F32>, borders: Seq<F32>, min: nat, k: nat) -> Seq<F32>
    decreases k,
{
    if k == 0 {
        Seq::empty()
    } else {
        let kept = kept_borders(vals, borders, min, (k - 1) as nat);
        let here = rows_up_to(vals, borders[k - 1]);
        let since = if kept.len() == 0 {
            0
        } else {
            rows_up_to(vals, kept.last())
        };
        if here - since >= min && vals.len() - here >= min {
            kept.push(borders[k - 1])
        } else {
            kept
        }
    }
}

proof fn lemma_bins_add_up(vals: Seq<F32>, borders: Seq<F32>, k: nat)
    ensures
        rows_in_bins(vals, borders, k as int) == rows_in_bins(vals, borders, k - 1) + rows_in_bin(
            vals,
            borders,
            k,
        ),
        rows_in_bins(vals, borders, -1) == 0,
        rows_in_bin(vals, borders, k) <= vals.len(),
        rows_in_bins(vals, borders, k as int) <= vals.len(),
    decreases vals.len(),
{
    if vals.len() > 0 {
        lemma_bins_add_up(vals.drop_last(), borders, k);
    }
}

proof fn lemma_bins_up_to_border(vals: Seq<F32>, borders: Seq<F32>, k: int)
    requires
        borders_ascend(borders),
        0 <= k <= borders.len(),
    ensures
        k < borders.len() ==> rows_in_bins(vals, borders, k) == rows_up_to(vals, borders[k]),
        k == borders.len() ==> rows_in_bins(vals, borders, k) == vals.len(),
    decreases vals.len(),
{
    if vals.len() > 0 {
        lemma_bins_up_to_border(vals.drop_last(), borders, k);
        lemma_borders_below(borders, vals.last());
        if k < borders.len() {
            let n = borders_below(borders, vals.last());
            if n <= k {
                assert(!borders[k].below(vals.last()));
            } else {
                assert(borders[k].below(vals.last()));
            }
        }
    }
}

proof fn lemma_rows_up_to_bound(vals: Seq<F32>, x: F32)
    ensures
        rows_up_to(vals, x) <= vals.len(),
    decreases vals.len(),
{
    if vals.len() > 0 {
        lemma_rows_up_to_bound(vals.drop_last(), x);
    }
}

/// What is kept is a part of the borders, in order.
pub proof fn lemma_kept_borders(vals: Seq<F32>, borders: Seq<F32>, min: nat, k: nat)
    requires
        borders_ascend(borders),
        k <= borders.len(),
    ensures
        borders_ascend(kept_borders(vals, borders, min, k)),
        kept_borders(vals, borders, min, k).len() <= k,
        forall|i: int|
            0 <= i < kept_borders(vals, borders, min, k).len() ==> borders.contains(
                #[trigger] kept_borders(vals, borders, min, k)[i],
            ),
        forall|i: int|
            0 <= i < kept_borders(vals, borders, min, k).len() && k > 0 ==> (#[trigger] kept_borders(
                vals,
                borders,
                min,
                k,
            )[i]).key() <= borders[k - 1].key(),
    decreases k,
{
    if k > 0 {
        lemma_kept_borders(vals, borders, min, (k - 1) as nat);
        let before = kept_borders(vals, borders, min, (k - 1) as nat);
        let kept = kept_borders(vals, borders, min, k);
        assert(borders.contains(borders[k - 1]));
        assert forall|i: int| 0 <= i < before.len() implies (#[trigger] before[i]).key()
            < borders[k - 1].key() by {
            assert(k - 1 > 0);
            assert(borders[k - 2].key() < borders[k - 1].key());
        }
        assert forall|i: int| 0 <= i < kept.len() implies borders.contains(#[trigger] kept[i])
            && kept[i].key() <= borders[k - 1].key() by {
            if i < before.len() {
                assert(kept[i] == before[i]);
            }
        }
        assert forall|i: int, j: int| 0 <= i < j < kept.len() implies (#[trigger] kept[i]).key() < (
        #[trigger] kept[j]).key() by {
            assert(kept[i] == before[i]);
            if j < before.len() {
                assert(kept[j] == before[j]);
            }
        }
        assert forall|i: int| 0 <= i < kept.len() implies !(#[trigger] kept[i]).nan() by {
            assert(borders.contains(kept[i]));
        }
    }
}

/// Whether the rows up to the `i`-th kept border, counted from the one before
/// it, and the rows after it are each at least `min`.
spec fn gap_filled(vals: Seq<F32>, kept: Seq<F32>, min: nat, i: int) -> bool {
    let since = if i == 0 {
        0
    } else {
        rows_up_to(vals, kept[i - 1])
    };
    rows_up_to(vals, kept[i]) - since >= min && vals.len() - rows_up_to(vals, kept[i]) >= min
}

proof fn lemma_kept_gaps(vals: Seq<F32>, borders: Seq<F32>, min: nat, k: nat)
    requires
        k <= borders.len(),
    ensures
        forall|i: int|
            0 <= i < kept_borders(vals, borders, min, k).len() ==> #[trigger] gap_filled(
                vals,
                kept_borders(vals, borders, min, k),
                min,
                i,
            ),
    decreases k,
{
    if k > 0 {
        lemma_kept_gaps(vals, borders, min, (k - 1) as nat);
        let before = kept_borders(vals, borders, min, (k - 1) as nat);
        let kept = kept_borders(vals, borders, min, k);
        assert forall|i: int| 0 <= i < kept.len() implies #[trigger] gap_filled(vals, kept, min, i) by {
            if i < before.len() {
                assert(gap_filled(vals, before, min, i));
                assert(kept[i] == before[i]);
                if i > 0 {
                    assert(kept[i - 1] == before[i - 1]);
                }
            } else if i > 0 {
                assert(kept[i - 1] == before.last());
            }
        }
    }
}

/// Merging rare bins leaves every bin with at least `min` rows, unless all rows
/// end up in the only bin.
pub proof fn law_kept_bins_are_filled(vals: Seq<F32>, borders: Seq<F32>, min: nat, j: nat)
    requires
        borders_ascend(borders),
        kept_borders(vals, borders, min, borders.len()).len() > 0,
        j <= kept_borders(vals, borders, min, borders.len()).len(),
    ensures
        rows_in_bin(vals, kept_borders(vals, borders, min, borders.len()), j) >= min,
{
    let kept = kept_borders(vals, borders, min, borders.len());
    lemma_kept_borders(vals, borders, min, borders.len());
    lemma_kept_gaps(vals, borders, min, borders.len());
    lemma_bins_add_up(vals, kept, j);
    lemma_bins_up_to_border(vals, kept, j as int);
    if j > 0 {
        lemma_bins_up_to_border(vals, kept, j - 1);
        assert(gap_filled(vals, kept, min, j - 1));
    }
    if j < kept.len() {
        assert(gap_filled(vals, kept, min, j as int));
    }
}

/// Counting the values up to a border, and those between two borders.
proof fn lemma_rows_between(vals: Seq<F32>, low: F32, b: F32)
    requires
        low.below(b),
    ensures
        vals.filter(|v: F32| !b.below(v)).len() == rows_up_to(vals, b),
        vals.filter(|v: F32| b.below(v)).len() == vals.len() - rows_up_to(vals, b),
        vals.filter(|v: F32| low.below(v) && !b.below(v)).len() == rows_up_to(vals, b) - rows_up_to(
            vals,
            low,
        ),
    decreases vals.len(),
{
    reveal(Seq::filter);
    if vals.len() > 0 {
        lemma_rows_between(vals.drop_last(), low, b);
    }
}

/// Counting the values up to a border, and those after it.
proof fn lemma_rows_up_to(vals: Seq<F32>, b: F32)
    ensures
        vals.filter(|v: F32| !b.below(v)).len() == rows_up_to(vals, b),
        vals.filter(|v: F32| b.below(v)).len() == vals.len() - rows_up_to(vals, b),
    decreases vals.len(),
{
    reveal(Seq::filter);
    if vals.len() > 0 {
        lemma_rows_up_to(vals.drop_last(), b);
    }
}

/// Going on keeps what was kept, and adds borders from further up only.
proof fn lemma_kept_grow(vals: Seq<F32>, borders: Seq<F32>, min: nat, k: nat, n: nat)
    requires
        k <= n <= borders.len(),
    ensures
        kept_borders(vals, borders, min, k).len() <= kept_borders(vals, borders, min, n).len(),
        kept_borders(vals, borders, min, n).take(
            kept_borders(vals, borders, min, k).len() as int,
        ) == kept_borders(vals, borders, min, k),
        forall|j: int|
            kept_borders(vals, borders, min, k).len() <= j < kept_borders(
                vals,
                borders,
                min,
                n,
            ).len() ==> exists|i: int|
                k <= i < n && #[trigger] borders[i] == #[trigger] kept_borders(
                    vals,
                    borders,
                    min,
                    n,
                )[j],
    decreases n,
{
    let (a, b) = (kept_borders(vals, borders, min, k), kept_borders(vals, borders, min, n));
    if k == n {
        assert(b.take(a.len() as int) =~= a);
    } else {
        lemma_kept_grow(vals, borders, min, k, (n - 1) as nat);
        let c = kept_borders(vals, borders, min, (n - 1) as nat);
        assert(b.take(a.len() as int) =~= c.take(a.len() as int));
        assert forall|j: int| a.len() <= j < b.len() implies exists|i: int|
            k <= i < n && #[trigger] borders[i] == #[trigger] b[j] by {
            if j < c.len() {
                assert(b[j] == c[j]);
                let i = choose|i: int| k <= i < n - 1 && #[trigger] borders[i] == c[j];
                assert(borders[i] == b[j]);
            } else {
                assert(borders[n - 1] == b[j]);
            }
        }
    }
}

/// Merging is no coarser than needed. A border is dropped only where fewer than
/// `min` rows lie between the kept border before it (the `j` kept ones below it)
/// and itself, or fewer than `min` rows lie after it.
pub proof fn law_merging_is_no_coarser_than_needed(
    vals: Seq<F32>,
    borders: Seq<F32>,
    min: nat,
    k: int,
    j: int,
)
    requires
        borders_ascend(borders),
        0 <= k < borders.len(),
        !kept_borders(vals, borders, min, borders.len()).contains(borders[k]),
        0 <= j <= kept_borders(vals, borders, min, borders.len()).len(),
        j > 0 ==> kept_borders(vals, borders, min, borders.len())[j - 1].below(borders[k]),
        j < kept_borders(vals, borders, min, borders.len()).len() ==> borders[k].below(
            kept_borders(vals, borders, min, borders.len())[j],
        ),
    ensures
        ({
            let kept = kept_borders(vals, borders, min, borders.len());
            let b = borders[k];
            let since = if j > 0 {
                vals.filter(|v: F32| kept[j - 1].below(v) && !b.below(v)).len()
            } else {
                vals.filter(|v: F32| !b.below(v)).len()
            };
            since < min || vals.filter(|v: F32| b.below(v)).len() < min
        }),
{
    let n = borders.len();
    let kept = kept_borders(vals, borders, min, n);
    let before = kept_borders(vals, borders, min, k as nat);
    let here = kept_borders(vals, borders, min, (k + 1) as nat);
    let b = borders[k];
    lemma_kept_grow(vals, borders, min, k as nat, n);
    lemma_kept_grow(vals, borders, min, (k + 1) as nat, n);
    lemma_kept_grow(vals, borders, min, 0, k as nat);
    lemma_rows_up_to(vals, b);
    if here.len() > before.len() {
        assert(kept.take(here.len() as int)[before.len() as int] == b);
        assert(kept[before.len() as int] == b);
    }
    assert(here == before);
    let m = before.len() as int;
    if j < m {
        assert(kept.take(m)[j] == before[j]);
        let i = choose|i: int| 0 <= i < k && #[trigger] borders[i] == before[j];
        assert(borders[i].below(borders[k]));
    }
    if j > m {
        let i = choose|i: int| k <= i < n && #[trigger] borders[i] == kept[j - 1];
        assert(i == k || borders[k].below(borders[i]));
    }
    assert(j == m);
    if j > 0 {
        assert(kept.take(m)[j - 1] == before[j - 1]);
        lemma_rows_between(vals, kept[j - 1], b);
    }
}

/// What is kept are borders of before, and each bin between two of them, the first
/// and the last one included, holds at least `min` rows.
pub proof fn law_kept_borders_have_rows_on_both_sides(
    vals: Seq<F32>,
    borders: Seq<F32>,
    min: nat,
    j: int,
)
    requires
        borders_ascend(borders),
        0 <= j < kept_borders(vals, borders, min, borders.len()).len(),
    ensures
        ({
            let kept = kept_borders(vals, borders, min, borders.len());
            &&& borders.contains(kept[j])
            &&& vals.filter(|v: F32| kept[j].below(v)).len() >= min
            &&& j == 0 ==> vals.filter(|v: F32| !kept[j].below(v)).len() >= min
            &&& j > 0 ==> kept[j - 1].below(kept[j]) && vals.filter(
                |v: F32| kept[j - 1].below(v) && !kept[j].below(v),
            ).len() >= min
        }),
{
    let n = borders.len();
    let kept = kept_borders(vals, borders, min, n);
    lemma_kept_grow(vals, borders, min, 0, n);
    let k = choose|i: int| 0 <= i < n && #[trigger] borders[i] == kept[j];
    let before = kept_borders(vals, borders, min, k as nat);
    let here = kept_borders(vals, borders, min, (k + 1) as nat);
    lemma_kept_grow(vals, borders, min, k as nat, n);
    lemma_kept_grow(vals, borders, min, (k + 1) as nat, n);
    lemma_kept_grow(vals, borders, min, 0, k as nat);
    lemma_rows_up_to(vals, kept[j]);
    let m = before.len() as int;
    if j < m {
        assert(kept.take(m)[j] == before[j]);
        let i = choose|i: int| 0 <= i < k && #[trigger] borders[i] == before[j];
        assert(borders[i].below(borders[k]));
    }
    if j >= here.len() {
        let i = choose|i: int| k + 1 <= i < n && #[trigger] borders[i] == kept[j];
        assert(borders[k].below(borders[i]));
    }
    assert(j == m && here.len() == m + 1);
    if j > 0 {
        assert(kept.take(m)[j - 1] == before[j - 1]);
        let i = choose|i: int| 0 <= i < k && #[trigger] borders[i] == before[j - 1];
        assert(borders[i].below(borders[k]));
        lemma_rows_between(vals, kept[j - 1], kept[j]);
    }
}

/// Merges bins with fewer than `min` rows into their neighbours.
pub fn collapse_rare_bins(vals: &Vec<F32>, borders: &Vec<F32>, min: u32) -> (kept: Vec<F32>)
    requires
        borders_ascend(borders@),
        borders@.len() < usize::MAX,
    ensures
        kept@ == kept_borders(vals@, borders@, min as nat, borders@.len()),
{
    let n_data: usize = borders.len() + 1;
    let mut counts: Vec<u64> = Vec::with_capacity(n_data);
    let mut z: usize = 0;
    while z < n_data
        invariant
            z <= n_data,
            counts@.len() == z,
            forall|k: int| 0 <= k < z ==> counts@[k] == 0,
        decreases n_data - z,
    {
        counts.push(0);
        z = z + 1;
    }
    let mut i: usize = 0;
    assert(vals@.take(0) =~= Seq::<F32>::empty());
    while i < vals.len()
        invariant
            i <= vals.len(),
            n_data == borders@.len() + 1,
            borders_ascend(borders@),
            counts@.len() == n_data,
            forall|k: int|
                0 <= k < n_data ==> #[trigger] counts@[k] == rows_in_bin(
                    vals@.take(i as int),
                    borders@,
                    k as nat,
                ),
        decreases vals.len() - i,
    {
        let b: usize = count_below(borders, vals[i]);
        let ghost before = counts@;
        proof {
            lemma_bins_add_up(vals@.take(i as int), borders@, b as nat);
            assert(before[b as int] <= i);
        }
        let c: u64 = counts[b];
        counts.set(b, c + 1);
        proof {
            assert(vals@.take(i + 1).drop_last() =~= vals@.take(i as int));
            assert forall|k: int| 0 <= k < n_data implies #[trigger] counts@[k] == rows_in_bin(
                vals@.take(i + 1),
                borders@,
                k as nat,
            ) by {
                assert(before[k] == rows_in_bin(vals@.take(i as int), borders@, k as nat));
            }
        }
        i = i + 1;
    }
    assert(vals@.take(i as int) =~= vals@);
    let total: u64 = vals.len() as u64;
    let mut kept: Vec<F32> = Vec::new();
    let mut acc: u64 = 0;
    let mut seen: u64 = 0;
    let mut k: usize = 0;
    proof {
        lemma_bins_add_up(vals@, borders@, 0);
    }
    while k < borders.len()
        invariant
            k <= borders.len(),
            borders_ascend(borders@),
            n_data == borders@.len() + 1,
            counts@.len() == n_data,
            total == vals@.len(),
            forall|q: int|
                0 <= q < n_data ==> #[trigger] counts@[q] == rows_in_bin(vals@, borders@, q as nat),
            kept@ == kept_borders(vals@, borders@, min as nat, k as nat),
            seen == rows_in_bins(vals@, borders@, k - 1),
            acc == seen - (if kept@.len() == 0 {
                0
            } else {
                rows_up_to(vals@, kept@.last()) as int
            }),
        decreases borders.len() - k,
    {
        let c: u64 = counts[k];
        proof {
            lemma_bins_add_up(vals@, borders@, k as nat);
            lemma_bins_up_to_border(vals@, borders@, k as int);
        }
        acc = acc + c;
        seen = seen + c;
        let remaining: u64 = total - seen;
        if acc >= min as u64 && remaining >= min as u64 {
            kept.push(borders[k]);
            acc = 0;
        }
        k = k + 1;
    }
    kept
}

/// The borders of the finished grid.
pub open spec fn final_borders(vals: Seq<F32>, raw: Seq<F32>, min: nat) -> Seq<F32> {
    let d = distinct_of(total_sorted(raw));
    if min > 0 && d.len() > 0 {
        kept_borders(vals, d, min, d.len())
    } else {
        d
    }
}

/// Why a grid cannot be finished.
pub open spec fn finish_fault(n_borders: nat) -> Option<Fault> {
    if n_borders + 2 > u16::MAX {
        Some(Fault::Internal("n_bins exceeded u16"@))
    } else {
        None
    }
}

/// Turns raw borders into the frozen grid of the feature: sorted, free of
/// duplicates, with rare bins merged. `sorted` are the finite values of the
/// column, as in the plan.
pub fn finish_grid(sorted: &Vec<Weighted>, raw: &Vec<F32>, cfg: &BinConfig) -> (r: Result<
    BorderGrid,
    PbError,
>)
    requires
        forall|i: int| 0 <= i < raw@.len() ==> (#[trigger] raw@[i]).finite(),
        raw@.len() < usize::MAX - 2,
    ensures
        answers(
            r,
            finish_fault(
                final_borders(values_of(sorted@), raw@, cfg.min_data_per_bin as nat).len(),
            ),
        ),
        raw@.len() + 2 <= u16::MAX ==> r is Ok,
        r is Ok ==> r->Ok_0.wf() && r->Ok_0.borders@ == final_borders(
            values_of(sorted@),
            raw@,
            cfg.min_data_per_bin as nat,
        ) && r->Ok_0.n_bins <= raw@.len() + 2,
{
    let mut borders = dedup_ascending(raw);
    if cfg.min_data_per_bin > 0 && borders.len() > 0 {
        let vals = plain_values(sorted);
        let ghost d = borders@;
        borders = collapse_rare_bins(&vals, &borders, cfg.min_data_per_bin);
        proof {
            lemma_kept_borders(vals@, d, cfg.min_data_per_bin as nat, d.len());
        }
    }
    if borders.len() + 2 > 65535 {
        return Err(internal("n_bins exceeded u16"));
    }
    let n_bins: u16 = (borders.len() + 2) as u16;
    Ok(BorderGrid { borders, n_bins, missing_bin: 0 })
}

/// The grid of a feature without finite values: one data bin.
pub fn degenerate_grid() -> (g: BorderGrid)
    ensures
        g.wf(),
        g.borders@.len() == 0,
        g.n_bins == 2,
{
    BorderGrid { borders: Vec::new(), n_bins: 2, missing_bin: 0 }
}

/// How many raw borders a plan asks for: one between each two distinct values, or
/// one per inner cut of the quantiles.
pub open spec fn borders_asked(plan: GridPlan, cfg: BinConfig) -> int {
    match plan {
        GridPlan::Degenerate => 0,
        GridPlan::Midpoints { distinct, .. } => if distinct@.len() == 0 {
            0
        } else {
            distinct@.len() - 1
        },
        GridPlan::Quantiles { .. } => if cfg.max_bin == 0 {
            0
        } else {
            cfg.max_bin - 1
        },
    }
}

/// The sorted values of a plan.
pub open spec fn sorted_of(plan: GridPlan) -> Seq<Weighted> {
    match plan {
        GridPlan::Degenerate => Seq::empty(),
        GridPlan::Midpoints { sorted, .. } => sorted@,
        GridPlan::Quantiles { sorted, .. } => sorted@,
    }
}

/// The inner cuts of the quantiles, in parts of `max_bin`: one less than there
/// are parts.
pub fn quantile_cuts(cfg: &BinConfig) -> (cuts: Vec<u8>)
    requires
        cfg.max_bin > 0,
    ensures
        cuts@.len() == cfg.max_bin - 1,
        forall|i: int| 0 <= i < cuts@.len() ==> (#[trigger] cuts@[i]) == i + 1,
{
    let mut cuts: Vec<u8> = Vec::new();
    let mut k: u8 = 1;
    while k < cfg.max_bin
        invariant
            1 <= k <= cfg.max_bin,
            cuts@.len() == k - 1,
            forall|i: int| 0 <= i < cuts@.len() ==> (#[trigger] cuts@[i]) == i + 1,
        decreases cfg.max_bin - k,
    {
        cuts.push(k);
        k = k + 1;
    }
    cuts
}

/// The grid of a plan, from the raw borders that it asks for.
pub fn planned_grid(plan: &GridPlan, raw: &Vec<F32>, cfg: &BinConfig) -> (r: Result<
    BorderGrid,
    PbError,
>)
    requires
        raw@.len() == borders_asked(*plan, *cfg),
        forall|i: int| 0 <= i < raw@.len() ==> (#[trigger] raw@[i]).finite(),
        raw@.len() < usize::MAX - 2,
    ensures
        answers(
            r,
            finish_fault(
                final_borders(values_of(sorted_of(*plan)), raw@, cfg.min_data_per_bin as nat).len(),
            ),
        ),
        raw@.len() + 2 <= u16::MAX ==> r is Ok,
        r is Ok ==> r->Ok_0.wf() && r->Ok_0.borders@ == final_borders(
            values_of(sorted_of(*plan)),
            raw@,
            cfg.min_data_per_bin as nat,
        ) && r->Ok_0.n_bins <= borders_asked(*plan, *cfg) + 2,
{
    match plan {
        GridPlan::Degenerate => {
            let g = degenerate_grid();
            proof {
                lemma_value_sorted(raw@.map_values(|v: F32| (v, unit_weight())));
                assert(total_sorted(raw@).len() == 0);
            }
            assert(g.borders@ =~= final_borders(
                values_of(sorted_of(*plan)),
                raw@,
                cfg.min_data_per_bin as nat,
            ));
            Ok(g)
        },
        GridPlan::Midpoints { sorted, .. } => finish_grid(sorted, raw, cfg),
        GridPlan::Quantiles { sorted, .. } => finish_grid(sorted, raw, cfg),
    }
}

/// A planned grid keeps the limit on bins: `max_bin` data bins and the missing
/// one, and so it is never too wide to be finished.
pub proof fn law_planned_grids_keep_max_bin(
    plan: GridPlan,
    rows: Seq<Weighted>,
    cfg: BinConfig,
    seed: u64,
    feat: u32,
    g: BorderGrid,
)
    requires
        bin_config_fault(cfg) is None,
        is_grid_plan(plan, rows, cfg, seed, feat),
    ensures
        borders_asked(plan, cfg) + 2 <= cfg.max_bin + 1,
        borders_asked(plan, cfg) + 2 <= u16::MAX,
        g.n_bins <= borders_asked(plan, cfg) + 2 ==> g.n_bins <= cfg.max_bin + 1,
{
}

/// All rows of a column, with their weights.
pub open spec fn all_rows(col: Seq<F32>, weight: Option<Seq<F32>>) -> Seq<Weighted> {
    Seq::new(col.len(), |i: int| (col[i], weight_at(weight, i)))
}

proof fn lemma_finite_rows_count(col: Seq<F32>, weight: Option<Seq<F32>>, n: nat, x: Weighted)
    requires
        n <= col.len(),
    ensures
        finite_rows(col, weight, n).to_multiset().count(x) == if x.0.finite() {
            all_rows(col, weight).take(n as int).to_multiset().count(x)
        } else {
            0
        },
    decreases n,
{
    broadcast use vstd::seq_lib::group_to_multiset_ensures;

    let all = all_rows(col, weight);
    if n > 0 {
        lemma_finite_rows_count(col, weight, (n - 1) as nat, x);
        assert(all.take(n as int) =~= all.take(n - 1).push(all[n - 1]));
    } else {
        assert(all.take(0) =~= Seq::<Weighted>::empty());
    }
}

proof fn lemma_ranks_count(s: Seq<Weighted>, k: (u64, u64))
    ensures
        s.map_values(|p: Weighted| ranks(p)).to_multiset().count(k) == if ranks(
            (at_rank(k.0), at_rank(k.1)),
        ) == k {
            s.to_multiset().count((at_rank(k.0), at_rank(k.1)))
        } else {
            0
        },
    decreases s.len(),
{
    broadcast use vstd::seq_lib::group_to_multiset_ensures;

    let f = |p: Weighted| ranks(p);
    if s.len() == 0 {
        assert(s =~= Seq::<Weighted>::empty());
        assert(s.map_values(f) =~= Seq::<(u64, u64)>::empty());
    } else {
        let rest = s.drop_last();
        lemma_ranks_count(rest, k);
        assert(s =~= rest.push(s.last()));
        assert(s.map_values(f) =~= rest.map_values(f).push(ranks(s.last())));
        lemma_rank_roundtrip(s.last().0);
        lemma_rank_roundtrip(s.last().1);
    }
}

/// The sorted values, and with them the whole plan, depend only on which rows
/// there are, not on their order.
pub proof fn law_plan_ignores_row_order(
    col1: Seq<F32>,
    weight1: Option<Seq<F32>>,
    col2: Seq<F32>,
    weight2: Option<Seq<F32>>,
)
    requires
        all_rows(col1, weight1).to_multiset() == all_rows(col2, weight2).to_multiset(),
    ensures
        value_sorted(finite_rows(col1, weight1, col1.len())) == value_sorted(
            finite_rows(col2, weight2, col2.len()),
        ),
        finite_rows(col1, weight1, col1.len()).len() == finite_rows(col2, weight2, col2.len()).len(),
{
    let s = finite_rows(col1, weight1, col1.len());
    let t = finite_rows(col2, weight2, col2.len());
    let f = |p: Weighted| ranks(p);
    assert(all_rows(col1, weight1).take(col1.len() as int) =~= all_rows(col1, weight1));
    assert(all_rows(col2, weight2).take(col2.len() as int) =~= all_rows(col2, weight2));
    assert forall|x: Weighted| s.to_multiset().count(x) == t.to_multiset().count(x) by {
        lemma_finite_rows_count(col1, weight1, col1.len(), x);
        lemma_finite_rows_count(col2, weight2, col2.len(), x);
    }
    assert(s.to_multiset() =~= t.to_multiset());
    s.to_multiset_ensures();
    t.to_multiset_ensures();
    let ks = s.map_values(f);
    let kt = t.map_values(f);
    assert forall|k: (u64, u64)| ks.to_multiset().count(k) == kt.to_multiset().count(k) by {
        lemma_ranks_count(s, k);
        lemma_ranks_count(t, k);
    }
    assert(ks.to_multiset() =~= kt.to_multiset());
    law_sort_ignores_order(ks, kt);
}

/// Two subsamples of one feature are the same list.
pub proof fn law_subsample_is_unique(
    a: Seq<Weighted>,
    b: Seq<Weighted>,
    sorted: Seq<Weighted>,
    k: nat,
    seed: u64,
    feat: u32,
)
    requires
        is_subsample(a, sorted, k, seed, feat),
        is_subsample(b, sorted, k, seed, feat),
    ensures
        a == b,
{
    let numbers = pcg_numbers_of_seed(seed_of(seed, 0, Stage::Binning.code(), feat));
    let p = choose|at: Seq<usize>| sampled_at(a, sorted, at, k, numbers);
    let q = choose|at: Seq<usize>| sampled_at(b, sorted, at, k, numbers);
    law_draw_is_unique(p, q, sorted.len(), k, numbers);
    assert(a =~= b);
}

/// The rows of a grid are the finite values of the column with their weights, in
/// their order.
pub proof fn law_grids_read_the_finite_values(col: Seq<F32>, weight: Option<Seq<F32>>, n: nat)
    requires
        n <= col.len(),
    ensures
        finite_rows(col, weight, n) == all_rows(col, weight).take(n as int).filter(
            |p: Weighted| p.0.finite(),
        ),
    decreases n,
{
    reveal(Seq::filter);
    let all = all_rows(col, weight);
    if n > 0 {
        law_grids_read_the_finite_values(col, weight, (n - 1) as nat);
        assert(all.take(n as int).drop_last() =~= all.take(n - 1));
        assert(all.take(n as int).last() == (col[n - 1], weight_at(weight, n - 1)));
    } else {
        assert(all.take(0) =~= Seq::<Weighted>::empty());
    }
}

/// Every value has its equal among the distinct ones, which ascend.
proof fn lemma_distinct_has_all(s: Seq<F32>, v: F32)
    requires
        total_ascending(s),
        forall|i: int| 0 <= i < s.len() ==> (#[trigger] s[i]).finite(),
        s.contains(v),
    ensures
        exists|k: int| 0 <= k < distinct_of(s).len() && (#[trigger] distinct_of(s)[k]).same(v),
    decreases s.len(),
{
    let rest = s.drop_last();
    assert forall|i: int| 0 <= i < rest.len() implies (#[trigger] rest[i]).finite() by {
        assert(rest[i] == s[i]);
    }
    let before = distinct_of(rest);
    let d = distinct_of(s);
    if v == s.last() {
        lemma_distinct_ascends(s);
        assert(d[d.len() - 1].same(v));
    } else {
        let i = choose|i: int| 0 <= i < s.len() && s[i] == v;
        assert(rest[i] == v);
        assert(rest.contains(v));
        lemma_distinct_has_all(rest, v);
        let k = choose|k: int| 0 <= k < before.len() && (#[trigger] before[k]).same(v);
        assert(d[k] == before[k]);
    }
}

/// The plan of a grid: none without finite values; one border between each two
/// distinct values while these are no more than the bins; and otherwise quantiles
/// of all values, or of as many as the sample may hold.
pub proof fn law_plans_follow_the_distinct_values(
    plan: GridPlan,
    rows: Seq<Weighted>,
    cfg: BinConfig,
    seed: u64,
    feat: u32,
    v: Weighted,
)
    requires
        is_grid_plan(plan, rows, cfg, seed, feat),
        forall|i: int| 0 <= i < rows.len() ==> (#[trigger] rows[i]).0.finite(),
        rows.contains(v),
    ensures
        plan !is Degenerate,
        plan matches GridPlan::Midpoints { sorted, distinct } ==> {
            &&& distinct@.len() <= cfg.max_bin
            &&& exists|k: int| 0 <= k < distinct@.len() && (#[trigger] distinct@[k]).same(v.0)
            &&& forall|i: int, j: int|
                0 <= i < j < distinct@.len() ==> distinct@[i].key() < distinct@[j].key()
            &&& forall|i: int|
                0 <= i < distinct@.len() ==> exists|r: int|
                    0 <= r < rows.len() && (#[trigger] rows[r]).0 == #[trigger] distinct@[i]
            &&& sorted@.len() == rows.len()
            &&& sorted@.contains(v)
        },
        plan matches GridPlan::Quantiles { sorted, sample } ==> {
            &&& distinct_of(values_of(sorted@)).len() > cfg.max_bin
            &&& sorted@.len() == rows.len()
            &&& sorted@.contains(v)
            &&& forall|i: int, j: int|
                0 <= i < j < sorted@.len() ==> sorted@[i].0.total_key() <= sorted@[j].0.total_key()
            &&& rows.len() <= cfg.subsample_for_binning ==> sample@ == sorted@
            &&& rows.len() > cfg.subsample_for_binning ==> sample@.len() == cfg.subsample_for_binning
            &&& forall|i: int|
                0 <= i < sample@.len() ==> rows.contains(#[trigger] sample@[i])
        },
{
    lemma_value_sorted(rows);
    let s = value_sorted(rows);
    let vals = values_of(s);
    assert forall|i: int| 0 <= i < vals.len() implies (#[trigger] vals[i]).finite() by {
        assert(rows.contains(s[i]));
        let r = choose|r: int| 0 <= r < rows.len() && rows[r] == s[i];
        assert(rows[r].0.finite());
    }
    lemma_distinct_ascends(vals);
    assert(s.contains(v));
    let j = choose|j: int| 0 <= j < s.len() && s[j] == v;
    assert(vals[j] == v.0);
    assert(vals.contains(v.0));
    lemma_distinct_has_all(vals, v.0);
    if plan is Midpoints {
        let d = plan->distinct@;
        assert forall|i: int| 0 <= i < d.len() implies exists|r: int|
            0 <= r < rows.len() && (#[trigger] rows[r]).0 == #[trigger] d[i] by {
            assert(vals.contains(d[i]));
            let m = choose|m: int| 0 <= m < vals.len() && vals[m] == d[i];
            assert(rows.contains(s[m]));
            let r = choose|r: int| 0 <= r < rows.len() && rows[r] == s[m];
            assert(rows[r].0 == d[i]);
        }
    }
    if plan is Quantiles {
        assert forall|i: int, j: int| 0 <= i < j < s.len() implies s[i].0.total_key()
            <= s[j].0.total_key() by {
            assert(vals[i].total_key() <= vals[j].total_key());
        }
        let sample = plan->sample@;
        if rows.len() > cfg.subsample_for_binning {
            let numbers = pcg_numbers_of_seed(seed_of(seed, 0, Stage::Binning.code(), feat));
            let at = choose|at: Seq<usize>|
                sampled_at(sample, s, at, cfg.subsample_for_binning as nat, numbers);
            assert forall|i: int| 0 <= i < sample.len() implies rows.contains(#[trigger] sample[i]) by {
                assert(sample[i] == s[at[i] as int]);
            }
        } else {
            assert forall|i: int| 0 <= i < sample.len() implies rows.contains(#[trigger] sample[i]) by {
                assert(sample[i] == s[i]);
            }
        }
    }
}

/// A column is accepted for binning exactly when the configuration is, weights are
/// as many as values, the weight of every finite value is finite and not negative,
/// and some finite value weighs more than nothing, where there are any.
pub proof fn law_accepted_columns_are_sound(col: Seq<F32>, weight: Option<Seq<F32>>, cfg: BinConfig)
    ensures
        grid_fault(col, weight, cfg) is None <==> {
            &&& bin_config_fault(cfg) is None
            &&& weight is Some ==> weight->0.len() == col.len()
            &&& weight is Some ==> forall|i: int|
                0 <= i < col.len() && (#[trigger] col[i]).finite() ==> weight->0[i].finite()
                    && weight->0[i].key() >= 0
            &&& weight is Some && (exists|i: int| 0 <= i < col.len() && (#[trigger] col[i]).finite())
                ==> exists|i: int|
                0 <= i < col.len() && (#[trigger] col[i]).finite() && !weight->0[i].nan()
                    && weight->0[i].key() > 0
        },
{
    let rows = finite_rows(col, weight, col.len());
    lemma_finite_rows(col, weight, col.len());
    if weight is None {
        assert(forall|i: int|
            #![trigger col[i]]
            usable_weight(weight_at(weight, i)) && weight_at(weight, i).positive());
        if weightless(rows) {
            assert(!rows[0].1.positive());
            let i = lemma_finite_row(col, weight, col.len(), 0);
            assert(col[i] == col[i]);
            assert(false);
        }
    } else {
        if weightless(rows) {
            assert(!rows[0].1.positive());
            let i = lemma_finite_row(col, weight, col.len(), 0);
            assert(col[i].finite());
            assert forall|j: int| 0 <= j < col.len() && (#[trigger] col[j]).finite() implies !(
            !weight->0[j].nan() && weight->0[j].key() > 0) by {
                assert(rows.contains((col[j], weight_at(weight, j))));
                let k = choose|k: int|
                    0 <= k < rows.len() && rows[k] == (col[j], weight_at(weight, j));
                assert(!rows[k].1.positive());
            }
        } else if rows.len() > 0 {
            let k = choose|k: int| 0 <= k < rows.len() && (#[trigger] rows[k]).1.positive();
            let i = lemma_finite_row(col, weight, col.len(), k);
            assert(col[i].finite() && weight->0[i].key() > 0);
        } else {
            assert forall|j: int| 0 <= j < col.len() implies !(#[trigger] col[j]).finite() by {
                if col[j].finite() {
                    assert(rows.contains((col[j], weight_at(weight, j))));
                }
            }
        }
    }
}

/// The row of the column that a finite row comes from.
proof fn lemma_finite_row(col: Seq<F32>, weight: Option<Seq<F32>>, n: nat, k: int) -> (i: int)
    requires
        n <= col.len(),
        0 <= k < finite_rows(col, weight, n).len(),
    ensures
        0 <= i < n,
        col[i].finite(),
        finite_rows(col, weight, n)[k] == (col[i], weight_at(weight, i)),
    decreases n,
{
    let before = finite_rows(col, weight, (n - 1) as nat);
    if k < before.len() {
        lemma_finite_row(col, weight, (n - 1) as nat, k)
    } else {
        n - 1
    }
}

proof fn lemma_finite_rows(col: Seq<F32>, weight: Option<Seq<F32>>, n: nat)
    requires
        n <= col.len(),
    ensures
        forall|i: int|
            0 <= i < n && (#[trigger] col[i]).finite() ==> finite_rows(col, weight, n).contains(
                (col[i], weight_at(weight, i)),
            ),
    decreases n,
{
    if n > 0 {
        lemma_finite_rows(col, weight, (n - 1) as nat);
        let before = finite_rows(col, weight, (n - 1) as nat);
        let rows = finite_rows(col, weight, n);
        assert forall|i: int| 0 <= i < n && (#[trigger] col[i]).finite() implies rows.contains(
            (col[i], weight_at(weight, i)),
        ) by {
            if i < n - 1 {
                assert(before.contains((col[i], weight_at(weight, i))));
                let k = choose|k: int|
                    0 <= k < before.len() && before[k] == (col[i], weight_at(weight, i));
                assert(rows[k] == before[k]);
            } else {
                assert(rows[rows.len() - 1] == (col[i], weight_at(weight, i)));
            }
        }
    }
}

/// Without a minimum every raw border has its equal in the finished grid, whose
/// borders ascend and are raw borders.
pub proof fn law_finished_grids_keep_every_border(vals: Seq<F32>, raw: Seq<F32>, b: F32)
    requires
        forall|i: int| 0 <= i < raw.len() ==> (#[trigger] raw[i]).finite(),
        raw.contains(b),
    ensures
        exists|k: int|
            0 <= k < final_borders(vals, raw, 0).len() && (#[trigger] final_borders(
                vals,
                raw,
                0,
            )[k]).same(b),
        forall|i: int, j: int|
            0 <= i < j < final_borders(vals, raw, 0).len() ==> final_borders(vals, raw, 0)[i].key()
                < final_borders(vals, raw, 0)[j].key(),
{
    let pairs = raw.map_values(|v: F32| (v, unit_weight()));
    lemma_value_sorted(pairs);
    let s = value_sorted(pairs);
    let vs = total_sorted(raw);
    assert forall|i: int| 0 <= i < vs.len() implies (#[trigger] vs[i]).finite() by {
        assert(pairs.contains(s[i]));
        let r = choose|r: int| 0 <= r < pairs.len() && pairs[r] == s[i];
        assert(raw[r].finite());
    }
    let r = choose|r: int| 0 <= r < raw.len() && raw[r] == b;
    assert(pairs[r] == (b, unit_weight()));
    assert(pairs.contains((b, unit_weight())));
    assert(s.contains((b, unit_weight())));
    let k = choose|k: int| 0 <= k < s.len() && s[k] == (b, unit_weight());
    assert(vs[k] == b);
    assert(vs.contains(b));
    lemma_distinct_has_all(vs, b);
    lemma_distinct_ascends(vs);
    let f = final_borders(vals, raw, 0);
    assert(f == distinct_of(vs));
    let m = choose|m: int| 0 <= m < distinct_of(vs).len() && (#[trigger] distinct_of(vs)[m]).same(b);
    assert(f[m].same(b));
}

/// A sample is accepted exactly when something in it weighs more than nothing.
pub proof fn law_accepted_samples_weigh_something(sample: Seq<Weighted>)
    ensures
        sample_fault(sample) is None <==> exists|i: int|
            0 <= i < sample.len() && !(#[trigger] sample[i]).1.nan() && sample[i].1.key() > 0,
{
    if sample_fault(sample) is None {
        let i = choose|i: int| 0 <= i < sample.len() && (#[trigger] sample[i]).1.positive();
        assert(sample[i].1.key() > 0);
    }
}

/// A grid is finished exactly when 16 bits count its bins.
pub proof fn law_finished_grids_fit(n_borders: nat)
    ensures
        finish_fault(n_borders) is None <==> n_borders <= 65533,
{
}

/// A plan asks for one border between each two neighbouring values that differ, or
/// for those that part the rows into as many shares as bins are allowed.
pub proof fn law_asked_borders_part_the_values(plan: GridPlan, cfg: BinConfig)
    requires
        cfg.max_bin >= 1,
    ensures
        plan matches GridPlan::Midpoints { distinct, .. } && distinct@.len() > 0 ==> borders_asked(
            plan,
            cfg,
        ) + 1 == plan->Midpoints_distinct@.len(),
        plan is Quantiles ==> borders_asked(plan, cfg) + 1 == cfg.max_bin,
        plan is Degenerate ==> borders_asked(plan, cfg) == 0,
{
}

} // verus!
