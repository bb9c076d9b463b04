//! Which rows, columns and trees a fit looks at.
//!
//! Every choice here is a function of the seed and the sizes alone, so that a
//! fit does not depend on threads or on what ran before.
use crate::backend::{pb_rng, pb_seed, pcg_numbers_of_seed, seed_of, Stage};
use crate::data::grid::opt_view;
use crate::data::{
    copy_grids, copy_provenance, grid_views, BinnedMatrix,
};
use crate::draw::{draw_positions, is_draw, is_seeded_order, seeded_order};
use crate::error::{
    answers, first_fault, internal, invalid_config, invalid_input, lemma_first_fault, lemma_no_fault, Fault,
    PbError,
};
use crate::float::{F32, F64};
use crate::sort::{
    law_sort_ignores_order, lemma_sorted_members, lemma_sorted_pairs, pair_le, sort_pairs, sorted_pairs,
};
use vstd::prelude::*;

verus! {

/// Why a listed row cannot be read.
pub open spec fn gather_row_fault(len: nat, rows: Seq<u32>, what: Seq<char>, i: int) -> Option<
    Fault,
> {
    if rows[i] >= len {
        Some(Fault::Internal(what))
    } else {
        None
    }
}

/// Why listed rows cannot be read.
pub open spec fn gather_fault(len: nat, rows: Seq<u32>, what: Seq<char>) -> Option<Fault> {
    first_fault(|i: int| gather_row_fault(len, rows, what, i), 0, rows.len() as int)
}

/// Whether `out` holds the listed entries.
pub open spec fn is_gathered<T>(out: Seq<T>, values: Seq<T>, rows: Seq<u32>) -> bool {
    &&& out.len() == rows.len()
    &&& forall|i: int| 0 <= i < rows.len() ==> #[trigger] out[i] == values[rows[i] as int]
}

/// The listed entries, in the order of the list.
fn gather<T: Copy>(values: &Vec<T>, rows: &Vec<u32>, what: &str) -> (r: Result<Vec<T>, PbError>)
    ensures
        answers(r, gather_fault(values@.len(), rows@, what@)),
        r is Ok ==> is_gathered(r->Ok_0@, values@, rows@),
{
    let ghost f = |i: int| gather_row_fault(values@.len(), rows@, what@, i);
    let mut out: Vec<T> = Vec::with_capacity(rows.len());
    let mut i: usize = 0;
    while i < rows.len()
        invariant
            i <= rows.len(),
            f == (|i: int| gather_row_fault(values@.len(), rows@, what@, i)),
            forall|j: int| 0 <= j < i ==> (#[trigger] f(j)) is None,
            out@.len() == i,
            forall|j: int| 0 <= j < i ==> #[trigger] out@[j] == values@[rows@[j] as int],
        decreases rows.len() - i,
    {
        proof {
            lemma_first_fault(f, 0, i as int, rows@.len() as int);
        }
        let row: usize = rows[i] as usize;
        if row >= values.len() {
            assert(f(i as int) is Some);
            return Err(internal(what));
        }
        assert(f(i as int) is None);
        out.push(values[row]);
        i = i + 1;
    }
    proof {
        lemma_first_fault(f, 0, rows@.len() as int, rows@.len() as int);
    }
    Ok(out)
}

/// The listed entries of a per-row array; `label` names it in messages.
pub fn gather_f32(label: &str, values: &Vec<F32>, rows: &Vec<u32>) -> (r: Result<Vec<F32>, PbError>)
    ensures
        answers(
            r,
            gather_fault(values@.len(), rows@, label@ + " subset escaped source rows"@),
        ),
        r is Ok ==> is_gathered(r->Ok_0@, values@, rows@),
{
    let mut what = String::from_str(label);
    what.append(" subset escaped source rows");
    gather(values, rows, what.as_str())
}

/// The listed entries, for leaf refinement.
pub fn gather_rows(values: &Vec<F32>, rows: &Vec<u32>) -> (r: Result<Vec<F32>, PbError>)
    ensures
        answers(
            r,
            gather_fault(
                values@.len(),
                rows@,
                "leaf refinement subset gather row escaped"@,
            ),
        ),
        r is Ok ==> is_gathered(r->Ok_0@, values@, rows@),
{
    gather(values, rows, "leaf refinement subset gather row escaped")
}

/// The data of a fit over some of the rows.
#[derive(Debug, Clone, PartialEq)]
pub struct OwnedFitData {
    pub x: BinnedMatrix,
    pub y: Vec<F32>,
    pub weight: Option<Vec<F32>>,
    pub exposure: Option<Vec<F32>>,
}

/// Why there is no data over the listed rows.
pub open spec fn subset_fault(
    x: BinnedMatrix,
    y: Seq<F32>,
    weight: Option<Seq<F32>>,
    exposure: Option<Seq<F32>>,
    rows: Seq<u32>,
) -> Option<Fault> {
    let columns = first_fault(
        |a: int| gather_fault(x.data@[a]@.len(), rows, "row subset escaped binned column"@),
        0,
        x.data@.len() as int,
    );
    let y_fault = gather_fault(y.len(), rows, "y"@ + " subset escaped source rows"@);
    let w_fault = gather_fault(weight->0.len(), rows, "weight"@ + " subset escaped source rows"@);
    let e_fault = gather_fault(exposure->0.len(), rows, "exposure"@ + " subset escaped source rows"@);
    if rows.len() > u32::MAX {
        Some(Fault::InvalidInput("row subset has more than u32::MAX rows"@))
    } else if columns is Some {
        columns
    } else if y_fault is Some {
        y_fault
    } else if weight is Some && w_fault is Some {
        w_fault
    } else if exposure is Some && e_fault is Some {
        e_fault
    } else {
        None
    }
}

/// Whether data holds the listed rows of other data.
pub open spec fn is_subset(
    d: OwnedFitData,
    x: BinnedMatrix,
    y: Seq<F32>,
    weight: Option<Seq<F32>>,
    exposure: Option<Seq<F32>>,
    rows: Seq<u32>,
) -> bool {
    &&& d.x.n_rows == rows.len()
    &&& d.x.data@.len() == x.data@.len()
    &&& forall|a: int|
        0 <= a < x.data@.len() ==> is_gathered((#[trigger] d.x.data@[a])@, x.data@[a]@, rows)
    &&& grid_views(d.x.grids@) == grid_views(x.grids@)
    &&& d.x.provenance@ == x.provenance@
    &&& is_gathered(d.y@, y, rows)
    &&& d.weight is Some <==> weight is Some
    &&& weight is Some ==> is_gathered(d.weight->0@, weight->0, rows)
    &&& d.exposure is Some <==> exposure is Some
    &&& exposure is Some ==> is_gathered(d.exposure->0@, exposure->0, rows)
}

/// The data of a fit over the listed rows.
pub fn row_subset(
    x: &BinnedMatrix,
    y: &Vec<F32>,
    weight: Option<&Vec<F32>>,
    exposure: Option<&Vec<F32>>,
    rows: &Vec<u32>,
) -> (r: Result<OwnedFitData, PbError>)
    ensures
        answers(r, subset_fault(*x, y@, opt_view(weight), opt_view(exposure), rows@)),
        r is Ok ==> is_subset(r->Ok_0, *x, y@, opt_view(weight), opt_view(exposure), rows@),
{
    if rows.len() as u64 > 0xffff_ffff {
        return Err(invalid_input("row subset has more than u32::MAX rows"));
    }
    let ghost f = |a: int|
        gather_fault(x.data@[a]@.len(), rows@, "row subset escaped binned column"@);
    let mut data: Vec<Vec<u8>> = Vec::with_capacity(x.data.len());
    let mut a: usize = 0;
    while a < x.data.len()
        invariant
            a <= x.data.len(),
            rows@.len() <= u32::MAX,
            f == (|a: int|
                gather_fault(x.data@[a]@.len(), rows@, "row subset escaped binned column"@)),
            forall|j: int| 0 <= j < a ==> (#[trigger] f(j)) is None,
            data@.len() == a,
            forall|j: int| 0 <= j < a ==> is_gathered((#[trigger] data@[j])@, x.data@[j]@, rows@),
        decreases x.data.len() - a,
    {
        proof {
            lemma_first_fault(f, 0, a as int, x.data@.len() as int);
        }
        match gather(&x.data[a], rows, "row subset escaped binned column") {
            Err(e) => {
                assert(f(a as int) is Some);
                return Err(e);
            },
            Ok(col) => {
                assert(f(a as int) is None);
                data.push(col);
            },
        }
        a = a + 1;
    }
    proof {
        lemma_first_fault(f, 0, x.data@.len() as int, x.data@.len() as int);
    }
    let y_out = match gather_f32("y", y, rows) {
        Err(e) => return Err(e),
        Ok(v) => v,
    };
    let w_out: Option<Vec<F32>> = match weight {
        None => None,
        Some(w) => match gather_f32("weight", w, rows) {
            Err(e) => return Err(e),
            Ok(v) => Some(v),
        },
    };
    let e_out: Option<Vec<F32>> = match exposure {
        None => None,
        Some(e) => match gather_f32("exposure", e, rows) {
            Err(e) => return Err(e),
            Ok(v) => Some(v),
        },
    };
    let sub = BinnedMatrix {
        data,
        n_rows: rows.len() as u32,
        grids: copy_grids(&x.grids),
        provenance: copy_provenance(&x.provenance),
    };
    Ok(OwnedFitData { x: sub, y: y_out, weight: w_out, exposure: e_out })
}

/// Why a position of a bootstrap sample cannot be drawn.
pub open spec fn bootstrap_fault(seed: u64, round: u32, n_rows: nat, i: int) -> Option<Fault> {
    if i > u32::MAX {
        Some(Fault::InvalidInput("bootstrap supports at most u32::MAX sampled rows"@))
    } else if bootstrap_row(seed, round, n_rows, i) > u32::MAX {
        Some(Fault::Internal("bootstrap row exceeded u32"@))
    } else {
        None
    }
}

/// The row at a position of a bootstrap sample.
pub open spec fn bootstrap_row(seed: u64, round: u32, n_rows: nat, i: int) -> nat {
    seed_of(seed, round, Stage::Sample.code(), i as u32) as nat % n_rows
}

/// A sample of rows with replacement.
pub fn bootstrap_rows(seed: u64, round: u32, n_rows: usize, sample_len: usize) -> (r: Result<
    Vec<u32>,
    PbError,
>)
    ensures
        n_rows == 0 ==> r is Ok && r->Ok_0@.len() == 0,
        n_rows > 0 ==> answers(
            r,
            first_fault(
                |i: int| bootstrap_fault(seed, round, n_rows as nat, i),
                0,
                sample_len as int,
            ),
        ),
        n_rows > 0 && r is Ok ==> r->Ok_0@.len() == sample_len && forall|i: int|
            0 <= i < sample_len ==> (#[trigger] r->Ok_0@[i]) as nat == bootstrap_row(
                seed,
                round,
                n_rows as nat,
                i,
            ) && r->Ok_0@[i] < n_rows,
{
    if n_rows == 0 {
        return Ok(Vec::new());
    }
    let ghost f = |i: int| bootstrap_fault(seed, round, n_rows as nat, i);
    let n: u64 = n_rows as u64;
    let code: u32 = Stage::Sample.number();
    let mut rows: Vec<u32> = Vec::new();
    let mut i: usize = 0;
    while i < sample_len
        invariant
            i <= sample_len,
            n == n_rows,
            n > 0,
            code == Stage::Sample.code(),
            f == (|i: int| bootstrap_fault(seed, round, n_rows as nat, i)),
            forall|j: int| 0 <= j < i ==> (#[trigger] f(j)) is None,
            rows@.len() == i,
            forall|j: int|
                0 <= j < i ==> (#[trigger] rows@[j]) as nat == bootstrap_row(
                    seed,
                    round,
                    n_rows as nat,
                    j,
                ) && rows@[j] < n_rows,
        decreases sample_len - i,
    {
        proof {
            lemma_first_fault(f, 0, i as int, sample_len as int);
        }
        if i as u64 > 0xffff_ffff {
            assert(f(i as int) is Some);
            return Err(invalid_input("bootstrap supports at most u32::MAX sampled rows"));
        }
        let row: u64 = pb_seed(seed, round, code, i as u32) % n;
        if row > 0xffff_ffff {
            assert(f(i as int) is Some);
            return Err(internal("bootstrap row exceeded u32"));
        }
        assert(f(i as int) is None);
        rows.push(row as u32);
        i = i + 1;
    }
    proof {
        lemma_first_fault(f, 0, sample_len as int, sample_len as int);
    }
    Ok(rows)
}

/// The positions that a list of rows means.
pub open spec fn positions(rows: Seq<u32>) -> Seq<usize> {
    rows.map_values(|r: u32| r as usize)
}

/// Why rows cannot be drawn without replacement.
pub open spec fn subagging_fault(n_rows: nat) -> Option<Fault> {
    if n_rows > u32::MAX {
        Some(Fault::InvalidInput("subagging supports at most u32::MAX rows"@))
    } else {
        None
    }
}

/// A sample of `k` rows (or of all, where there are fewer) without replacement,
/// in ascending order.
pub fn subagging_rows(seed: u64, round: u32, n_rows: usize, k: usize) -> (r: Result<
    Vec<u32>,
    PbError,
>)
    ensures
        answers(r, subagging_fault(n_rows as nat)),
        r is Ok ==> is_draw(
            positions(r->Ok_0@),
            n_rows as nat,
            (if k < n_rows {
                k
            } else {
                n_rows
            }) as nat,
            pcg_numbers_of_seed(seed_of(seed, round, Stage::Sample.code(), 0)),
        ),
        r is Ok ==> forall|i: int| 0 <= i < r->Ok_0@.len() ==> (#[trigger] r->Ok_0@[i]) < n_rows,
{
    if n_rows as u64 > 0xffff_ffff {
        return Err(invalid_input("subagging supports at most u32::MAX rows"));
    }
    let take: usize = if k < n_rows {
        k
    } else {
        n_rows
    };
    let picked = draw_positions(n_rows, take, pb_rng(seed, round, Stage::Sample, 0));
    let mut rows: Vec<u32> = Vec::with_capacity(picked.len());
    let mut i: usize = 0;
    while i < picked.len()
        invariant
            i <= picked.len(),
            n_rows <= u32::MAX,
            forall|j: int| 0 <= j < picked@.len() ==> (#[trigger] picked@[j]) < n_rows,
            rows@.len() == i,
            forall|j: int| 0 <= j < i ==> (#[trigger] rows@[j]) as usize == picked@[j],
        decreases picked.len() - i,
    {
        rows.push(picked[i] as u32);
        i = i + 1;
    }
    assert(positions(rows@) =~= picked@);
    Ok(rows)
}

/// Whether a list strictly ascends.
pub open spec fn rows_ascend(rows: Seq<u32>) -> bool {
    forall|i: int, j: int| 0 <= i < j < rows.len() ==> rows[i] < rows[j]
}

/// Whether two ascending lists split an order of the rows at `h`.
pub open spec fn is_split(rest: Seq<u32>, head: Seq<u32>, order: Seq<u32>, h: int) -> bool {
    &&& rows_ascend(rest)
    &&& rows_ascend(head)
    &&& head.len() == h
    &&& rest.len() == order.len() - h
    &&& forall|b: u32| #[trigger] head.contains(b) <==> order.take(h).contains(b)
    &&& forall|b: u32| #[trigger] rest.contains(b) <==> order.skip(h).contains(b)
}

/// A split partitions: every row of the order is in exactly one of the parts.
pub proof fn law_split_is_a_partition(
    rest: Seq<u32>,
    head: Seq<u32>,
    order: Seq<u32>,
    h: int,
    b: u32,
)
    requires
        is_split(rest, head, order, h),
        0 <= h <= order.len(),
        order.no_duplicates(),
    ensures
        order.contains(b) <==> head.contains(b) || rest.contains(b),
        !(head.contains(b) && rest.contains(b)),
{
    if order.contains(b) {
        let i = choose|i: int| 0 <= i < order.len() && order[i] == b;
        if i < h {
            assert(order.take(h)[i] == b);
        } else {
            assert(order.skip(h)[i - h] == b);
        }
    }
    if head.contains(b) {
        assert(order.take(h).contains(b));
        let i = choose|i: int| 0 <= i < h && order.take(h)[i] == b;
        assert(order[i] == b);
    }
    if rest.contains(b) {
        assert(order.skip(h).contains(b));
        let i = choose|i: int| 0 <= i < order.len() - h && order.skip(h)[i] == b;
        assert(order[h + i] == b);
    }
    if head.contains(b) && rest.contains(b) {
        let i = choose|i: int| 0 <= i < h && order.take(h)[i] == b;
        let j = choose|j: int| 0 <= j < order.len() - h && order.skip(h)[j] == b;
        assert(order[i] == order[h + j]);
    }
}

/// The rows whose mark is `want`, in ascending order.
fn rows_marked(mask: &Vec<bool>, want: bool) -> (rows: Vec<u32>)
    requires
        mask@.len() <= 0x1_0000_0000,
    ensures
        rows_ascend(rows@),
        forall|b: u32| #[trigger] rows@.contains(b) <==> b < mask@.len() && mask@[b as int] == want,
{
    let mut rows: Vec<u32> = Vec::new();
    let mut i: usize = 0;
    while i < mask.len()
        invariant
            i <= mask.len(),
            mask@.len() <= 0x1_0000_0000,
            rows_ascend(rows@),
            forall|j: int| 0 <= j < rows@.len() ==> (#[trigger] rows@[j]) < i,
            forall|b: u32| #[trigger] rows@.contains(b) <==> b < i && mask@[b as int] == want,
        decreases mask.len() - i,
    {
        if mask[i] == want {
            let ghost before = rows@;
            rows.push(i as u32);
            proof {
                assert forall|b: u32| #[trigger] rows@.contains(b) <==> b < i + 1 && mask@[b as int]
                    == want by {
                    if rows@.contains(b) {
                        let k = choose|k: int| 0 <= k < rows@.len() && rows@[k] == b;
                        if k < before.len() {
                            assert(before[k] == b);
                            assert(before.contains(b));
                        }
                    }
                    if b < i && mask@[b as int] == want {
                        assert(before.contains(b));
                        let k = choose|k: int| 0 <= k < before.len() && before[k] == b;
                        assert(rows@[k] == b);
                    }
                    if b == i {
                        assert(rows@[rows@.len() - 1] == b);
                    }
                }
            }
        }
        i = i + 1;
    }
    rows
}

/// Two lists without repetition that hold the same rows are as long.
proof fn lemma_same_len(a: Seq<u32>, b: Seq<u32>)
    requires
        a.no_duplicates(),
        b.no_duplicates(),
        forall|x: u32| #[trigger] a.contains(x) <==> b.contains(x),
    ensures
        a.len() == b.len(),
{
    a.unique_seq_to_set();
    b.unique_seq_to_set();
    assert(a.to_set() =~= b.to_set()) by {
        assert forall|x: u32| a.to_set().contains(x) <==> b.to_set().contains(x) by {
            assert(a.contains(x) <==> b.contains(x));
        }
    }
}

/// Splits an order of the rows `0..n` after its first `h`.
fn split_order(order: &Vec<u32>, h: usize) -> (parts: (Vec<u32>, Vec<u32>))
    requires
        h <= order@.len() <= 0x1_0000_0000,
        order@.no_duplicates(),
        forall|i: int| 0 <= i < order@.len() ==> (#[trigger] order@[i]) < order@.len(),
        forall|b: u32| b < order@.len() ==> #[trigger] order@.contains(b),
    ensures
        is_split(parts.0@, parts.1@, order@, h as int),
{
    let n: usize = order.len();
    let mut mask: Vec<bool> = Vec::with_capacity(n);
    let mut k: usize = 0;
    while k < n
        invariant
            k <= n,
            mask@.len() == k,
            forall|j: int| 0 <= j < k ==> !(#[trigger] mask@[j]),
        decreases n - k,
    {
        mask.push(false);
        k = k + 1;
    }
    let ghost head_rows = order@.take(h as int);
    let ghost tail_rows = order@.skip(h as int);
    let mut i: usize = 0;
    while i < h
        invariant
            i <= h <= n,
            n == order@.len(),
            mask@.len() == n,
            head_rows == order@.take(h as int),
            forall|j: int| 0 <= j < n ==> (#[trigger] order@[j]) < n,
            forall|b: u32|
                b < n ==> (#[trigger] mask@[b as int] <==> order@.take(i as int).contains(b)),
        decreases h - i,
    {
        let row: u32 = order[i];
        assert(order@[i as int] < n);
        let ghost before = mask@;
        mask.set(row as usize, true);
        proof {
            assert forall|b: u32| b < n implies (#[trigger] mask@[b as int] <==> order@.take(
                i + 1,
            ).contains(b)) by {
                assert(before[b as int] <==> order@.take(i as int).contains(b));
                let now = order@.take(i + 1);
                if order@.take(i as int).contains(b) {
                    let q = choose|q: int| 0 <= q < i && order@.take(i as int)[q] == b;
                    assert(now[q] == b);
                }
                if b == row {
                    assert(now[i as int] == b);
                }
                if now.contains(b) && b != row {
                    let q = choose|q: int| 0 <= q < now.len() && now[q] == b;
                    assert(q < i);
                    assert(order@.take(i as int)[q] == b);
                }
            }
        }
        i = i + 1;
    }
    let rest = rows_marked(&mask, false);
    let head = rows_marked(&mask, true);
    proof {
        assert forall|b: u32| #[trigger] head@.contains(b) <==> head_rows.contains(b) by {
            if head_rows.contains(b) {
                let q = choose|q: int| 0 <= q < head_rows.len() && head_rows[q] == b;
                assert(order@[q] == b);
                assert(order@[q] < n);
            }
            if b < n {
                assert(mask@[b as int] <==> head_rows.contains(b));
            }
        }
        assert forall|b: u32| #[trigger] rest@.contains(b) <==> tail_rows.contains(b) by {
            if tail_rows.contains(b) {
                let q = choose|q: int| 0 <= q < tail_rows.len() && tail_rows[q] == b;
                assert(order@[h + q] == b);
                assert(order@[h + q] < n);
                if head_rows.contains(b) {
                    let p = choose|p: int| 0 <= p < head_rows.len() && head_rows[p] == b;
                    assert(order@[p] == order@[h + q]);
                }
            }
            if b < n {
                assert(mask@[b as int] <==> head_rows.contains(b));
                assert(order@.contains(b));
                let q = choose|q: int| 0 <= q < order@.len() && order@[q] == b;
                if q < h {
                    assert(head_rows[q] == b);
                } else {
                    assert(tail_rows[q - h] == b);
                }
            }
        }
        assert(head@.no_duplicates() && rest@.no_duplicates());
        assert(head_rows.no_duplicates() && tail_rows.no_duplicates());
        lemma_same_len(head@, head_rows);
        lemma_same_len(rest@, tail_rows);
    }
    (rest, head)
}

/// Why there is no held-out split.
pub open spec fn holdout_fault(n_rows: nat) -> Option<Fault> {
    if n_rows < 2 {
        Some(
            Fault::InvalidInput(
                "GreedySelect requires at least two rows for a held-out deviance split"@,
            ),
        )
    } else if n_rows > 0x1_0000_0000 {
        Some(Fault::InvalidInput("GreedySelect supports at most u32::MAX rows"@))
    } else {
        None
    }
}

/// How many rows are held out: a fifth, but at least one, and never all.
pub open spec fn holdout_len(n_rows: nat) -> nat {
    if n_rows / 5 < 1 {
        1
    } else {
        n_rows / 5
    }
}

/// Whether two lists are the training and the held-out rows under a seed: the
/// held-out ones have the smallest seeds.
pub open spec fn is_holdout(
    train: Seq<u32>,
    holdout: Seq<u32>,
    seed: u64,
    stage: u32,
    n: nat,
    h: int,
) -> bool {
    exists|order: Seq<u32>| #[trigger]
        is_seeded_order(order, seed, 0, stage, n) && is_split(train, holdout, order, h)
}

/// Splits the rows into a training and a held-out part.
pub fn holdout_split(seed: u64, n_rows: usize) -> (r: Result<(Vec<u32>, Vec<u32>), PbError>)
    ensures
        answers(r, holdout_fault(n_rows as nat)),
        r is Ok ==> is_holdout(
            (r->Ok_0).0@,
            (r->Ok_0).1@,
            seed,
            Stage::Sample.code(),
            n_rows as nat,
            holdout_len(n_rows as nat) as int,
        ),
{
    if n_rows < 2 {
        return Err(
            invalid_input("GreedySelect requires at least two rows for a held-out deviance split"),
        );
    }
    if n_rows as u64 > 0x1_0000_0000 {
        return Err(invalid_input("GreedySelect supports at most u32::MAX rows"));
    }
    let order = seeded_order(seed, 0, Stage::Sample, n_rows);
    let h: usize = if n_rows / 5 < 1 {
        1
    } else {
        n_rows / 5
    };
    let parts = split_order(&order, h);
    assert(is_seeded_order(order@, seed, 0, Stage::Sample.code(), n_rows as nat));
    Ok(parts)
}

/// Why validation rows cannot be carved out.
pub open spec fn carve_fault(n_rows: u32, holdout: Option<usize>) -> Option<Fault> {
    if holdout is Some && n_rows < 2 {
        Some(Fault::InvalidConfig("validation_fraction requires at least two rows"@))
    } else {
        None
    }
}

/// The number of validation rows: what is asked for, but at least one and not
/// all.
pub open spec fn carve_len(n_rows: u32, asked: usize) -> int {
    if asked < 1 {
        1
    } else if asked > n_rows - 1 {
        n_rows - 1
    } else {
        asked as int
    }
}

/// Carves validation rows out of all rows, where some are asked for: the
/// training rows, and the validation rows.
pub fn carve_validation_rows(n_rows: u32, holdout: Option<usize>, seed: u64) -> (r: Result<
    (Vec<u32>, Option<Vec<u32>>),
    PbError,
>)
    ensures
        answers(r, carve_fault(n_rows, holdout)),
        r is Ok && holdout is None ==> (r->Ok_0).1 is None && (r->Ok_0).0@ == Seq::new(
            n_rows as nat,
            |i: int| i as u32,
        ),
        r is Ok && holdout is Some ==> (r->Ok_0).1 is Some && is_holdout(
            (r->Ok_0).0@,
            (r->Ok_0).1->0@,
            seed,
            Stage::Holdout.code(),
            n_rows as nat,
            carve_len(n_rows, holdout->0),
        ),
{
    match holdout {
        None => {
            let mut all: Vec<u32> = Vec::with_capacity(n_rows as usize);
            let mut i: u32 = 0;
            while i < n_rows
                invariant
                    i <= n_rows,
                    all@.len() == i,
                    forall|j: int| 0 <= j < i ==> #[trigger] all@[j] == j as u32,
                decreases n_rows - i,
            {
                all.push(i);
                i = i + 1;
            }
            assert(all@ =~= Seq::new(n_rows as nat, |i: int| i as u32));
            Ok((all, None))
        },
        Some(asked) => {
            if n_rows < 2 {
                return Err(invalid_config("validation_fraction requires at least two rows"));
            }
            let n: usize = n_rows as usize;
            let h: usize = if asked < 1 {
                1
            } else if asked > n - 1 {
                n - 1
            } else {
                asked
            };
            let order = seeded_order(seed, 0, Stage::Holdout, n);
            let parts = split_order(&order, h);
            assert(is_seeded_order(order@, seed, 0, Stage::Holdout.code(), n_rows as nat));
            Ok((parts.0, Some(parts.1)))
        },
    }
}

/// A list in ascending order.
pub open spec fn in_order(s: Seq<u64>) -> Seq<u64> {
    sorted_pairs(s.map_values(|v: u64| (v, 0u64))).map_values(|p: (u64, u64)| p.0)
}

/// The items with the `k` smallest keys, in ascending order.
pub open spec fn smallest(keyed: Seq<(u64, u64)>, k: int) -> Seq<u64> {
    in_order(sorted_pairs(keyed).take(k).map_values(|p: (u64, u64)| p.1))
}

/// Which items have the smallest keys does not depend on the order in which they
/// come.
pub proof fn law_smallest_ignores_order(a: Seq<(u64, u64)>, b: Seq<(u64, u64)>, k: int)
    requires
        a.to_multiset() == b.to_multiset(),
    ensures
        smallest(a, k) == smallest(b, k),
{
    law_sort_ignores_order(a, b);
}

/// The items with the `k` smallest keys, in ascending order.
pub fn smallest_items(keyed: Vec<(u64, u64)>, k: usize) -> (out: Vec<u64>)
    requires
        k <= keyed@.len(),
    ensures
        out@ == smallest(keyed@, k as int),
        out@.len() == k,
        forall|j: int| 0 <= j < k ==> is_item(keyed@, #[trigger] out@[j]),
{
    let ghost all = keyed@;
    let sorted = sort_pairs(keyed);
    let mut head: Vec<(u64, u64)> = Vec::with_capacity(k);
    let ghost picked = sorted@.take(k as int).map_values(|p: (u64, u64)| p.1);
    let mut i: usize = 0;
    while i < k
        invariant
            i <= k <= sorted@.len(),
            picked == sorted@.take(k as int).map_values(|p: (u64, u64)| p.1),
            head@.len() == i,
            forall|j: int| 0 <= j < i ==> #[trigger] head@[j] == (picked[j], 0u64),
        decreases k - i,
    {
        head.push((sorted[i].1, 0));
        i = i + 1;
    }
    assert(head@ =~= picked.map_values(|v: u64| (v, 0u64)));
    let ghost rows = head@;
    let ordered = sort_pairs(head);
    proof {
        lemma_sorted_members(all);
        lemma_sorted_members(rows);
        assert forall|j: int| 0 <= j < k implies is_item(all, (#[trigger] ordered@[j]).0) by {
            assert(rows.contains(ordered@[j]));
            let w = choose|w: int| 0 <= w < rows.len() && rows[w] == ordered@[j];
            assert(picked[w] == sorted@[w].1);
            assert(all.contains(sorted@[w]));
            let q = choose|q: int| 0 <= q < all.len() && all[q] == sorted@[w];
            assert(all[q].1 == ordered@[j].0);
        }
    }
    let mut out: Vec<u64> = Vec::with_capacity(k);
    let mut j: usize = 0;
    while j < k
        invariant
            j <= k,
            ordered@.len() == k,
            out@.len() == j,
            forall|q: int| 0 <= q < j ==> #[trigger] out@[q] == ordered@[q].0,
        decreases k - j,
    {
        out.push(ordered[j].0);
        j = j + 1;
    }
    assert(out@ =~= smallest(all, k as int));
    out
}

/// Whether an item occurs among keyed items.
pub open spec fn is_item(keyed: Seq<(u64, u64)>, v: u64) -> bool {
    exists|q: int| 0 <= q < keyed.len() && (#[trigger] keyed[q]).1 == v
}

/// The items with the `k` smallest keys, in ascending order.
fn smallest_by_key(keyed: Vec<(u64, u64)>, k: usize) -> (out: Vec<u32>)
    requires
        k <= keyed@.len(),
        forall|i: int| 0 <= i < keyed@.len() ==> (#[trigger] keyed@[i]).1 <= u32::MAX,
    ensures
        out@.map_values(|v: u32| v as u64) == smallest(keyed@, k as int),
        out@.len() == k,
{
    let ghost all = keyed@;
    let items = smallest_items(keyed, k);
    let mut out: Vec<u32> = Vec::with_capacity(k);
    let mut j: usize = 0;
    while j < k
        invariant
            j <= k,
            items@.len() == k,
            forall|i: int| 0 <= i < all.len() ==> (#[trigger] all[i]).1 <= u32::MAX,
            forall|q: int| 0 <= q < k ==> is_item(all, #[trigger] items@[q]),
            out@.len() == j,
            forall|q: int| 0 <= q < j ==> (#[trigger] out@[q]) as u64 == items@[q],
        decreases k - j,
    {
        assert(is_item(all, items@[j as int]));
        out.push(items[j] as u32);
        j = j + 1;
    }
    assert(out@.map_values(|v: u32| v as u64) =~= items@);
    out
}

/// The axes with their seeds.
pub open spec fn axis_keys(axes: Seq<u32>, seed: u64, round: u32) -> Seq<(u64, u64)> {
    axes.map_values(|a: u32| (seed_of(seed, round, Stage::Cols.code(), a), a as u64))
}

/// The number of sampled axes: what is asked for, but at least one and at most
/// all.
pub open spec fn axis_count(n: nat, asked: usize) -> int {
    if asked < 1 {
        1
    } else if asked > n {
        n as int
    } else {
        asked as int
    }
}

/// The axes of a round: all, or those with the smallest seeds where only some
/// are asked for.
pub fn sample_axes(axes: &Vec<u32>, asked: Option<usize>, seed: u64, round: u32) -> (out: Vec<u32>)
    ensures
        axes@.len() == 0 || asked is None ==> out@ == axes@,
        axes@.len() > 0 && asked is Some ==> out@.map_values(|v: u32| v as u64) == smallest(
            axis_keys(axes@, seed, round),
            axis_count(axes@.len(), asked->0),
        ),
{
    let n: usize = axes.len();
    let code: u32 = Stage::Cols.number();
    let k: usize = match asked {
        None => n,
        Some(a) => if a < 1 {
            1
        } else if a > n {
            n
        } else {
            a
        },
    };
    if n == 0 || asked.is_none() {
        let mut out: Vec<u32> = Vec::with_capacity(n);
        let mut i: usize = 0;
        while i < n
            invariant
                i <= n,
                n == axes@.len(),
                out@ =~= axes@.take(i as int),
            decreases n - i,
        {
            out.push(axes[i]);
            i = i + 1;
        }
        assert(axes@.take(i as int) =~= axes@);
        return out;
    }
    let ghost want = axis_keys(axes@, seed, round);
    let mut keyed: Vec<(u64, u64)> = Vec::with_capacity(n);
    let mut i: usize = 0;
    while i < n
        invariant
            i <= n,
            n == axes@.len(),
            code == Stage::Cols.code(),
            want == axis_keys(axes@, seed, round),
            keyed@.len() == i,
            forall|j: int| 0 <= j < i ==> #[trigger] keyed@[j] == want[j],
        decreases n - i,
    {
        keyed.push((pb_seed(seed, round, code, axes[i]), axes[i] as u64));
        i = i + 1;
    }
    assert(keyed@ =~= want);
    smallest_by_key(keyed, k)
}

/// The number of rows that gradient-based sampling keeps: the target or the
/// minimum, but at most all, and at least one.
pub open spec fn mvs_len(n: nat, target: usize, min_rows: u32) -> int {
    let a = if target as int >= min_rows {
        target as int
    } else {
        min_rows as int
    };
    let b = if a <= n {
        a
    } else {
        n as int
    };
    if b >= 1 {
        b
    } else {
        1
    }
}

/// The rows with their ranks: a larger key gives a smaller rank.
pub open spec fn mvs_keys(rows: Seq<u32>, keys: Seq<F64>) -> Seq<(u64, u64)> {
    Seq::new(
        rows.len(),
        |i: int| ((0x7fff_ffff_ffff_ffff - keys[i].total_key()) as u64, rows[i] as u64),
    )
}

/// The number of rows to keep.
pub fn mvs_count(n: usize, target: usize, min_rows: u32) -> (k: usize)
    ensures
        k == mvs_len(n as nat, target, min_rows),
{
    let m: usize = min_rows as usize;
    let a: usize = if target >= m {
        target
    } else {
        m
    };
    let b: usize = if a <= n {
        a
    } else {
        n
    };
    if b >= 1 {
        b
    } else {
        1
    }
}

/// The `k` rows with the largest keys in the total order, the lower row first
/// among equals; in ascending order.
pub fn sample_rows(rows: &Vec<u32>, keys: &Vec<F64>, k: usize) -> (out: Vec<u32>)
    requires
        keys@.len() == rows@.len(),
        k <= rows@.len(),
    ensures
        out@.map_values(|v: u32| v as u64) == smallest(mvs_keys(rows@, keys@), k as int),
        out@.len() == k,
{
    let n: usize = rows.len();
    let ghost want = mvs_keys(rows@, keys@);
    let mut keyed: Vec<(u64, u64)> = Vec::with_capacity(n);
    let mut i: usize = 0;
    while i < n
        invariant
            i <= n,
            n == rows@.len(),
            n == keys@.len(),
            want == mvs_keys(rows@, keys@),
            keyed@.len() == i,
            forall|j: int| 0 <= j < i ==> #[trigger] keyed@[j] == want[j],
        decreases n - i,
    {
        let rank: u64 = keys[i].total_rank();
        keyed.push((0xffff_ffff_ffff_ffff - rank, rows[i] as u64));
        i = i + 1;
    }
    assert(keyed@ =~= want);
    smallest_by_key(keyed, k)
}

/// Why there are no bootstrap indices.
pub open spec fn bootstrap_index_fault(n: nat) -> Option<Fault> {
    if n == 0 {
        Some(Fault::InvalidInput("GreedySelect holdout set must be non-empty"@))
    } else if n > 0x1_0000_0000 {
        Some(Fault::InvalidInput("GreedySelect bootstrap supports at most u32::MAX rows"@))
    } else {
        None
    }
}

/// As many indices as there are rows, drawn with replacement.
pub fn bootstrap_indices(seed: u64, round: u32, n: usize) -> (r: Result<Vec<usize>, PbError>)
    ensures
        answers(r, bootstrap_index_fault(n as nat)),
        r is Ok ==> r->Ok_0@.len() == n && forall|i: int|
            0 <= i < n ==> (#[trigger] r->Ok_0@[i]) as nat == bootstrap_row(seed, round, n as nat, i)
                && r->Ok_0@[i] < n,
{
    if n == 0 {
        return Err(invalid_input("GreedySelect holdout set must be non-empty"));
    }
    if n as u64 > 0x1_0000_0000 {
        return Err(invalid_input("GreedySelect bootstrap supports at most u32::MAX rows"));
    }
    let code: u32 = Stage::Sample.number();
    let mut out: Vec<usize> = Vec::with_capacity(n);
    let mut i: usize = 0;
    while i < n
        invariant
            i <= n,
            0 < n <= 0x1_0000_0000,
            code == Stage::Sample.code(),
            out@.len() == i,
            forall|j: int|
                0 <= j < i ==> (#[trigger] out@[j]) as nat == bootstrap_row(seed, round, n as nat, j)
                    && out@[j] < n,
        decreases n - i,
    {
        let idx: u64 = pb_seed(seed, round, code, i as u32) % (n as u64);
        out.push(idx as usize);
        i = i + 1;
    }
    Ok(out)
}

/// A split by a seeded order deals every row below `n` to exactly one part, with
/// `h` rows in the head and both parts ascending; the head holds the rows of the
/// smallest seeds.
pub proof fn law_every_row_is_held_out_or_trained_on(
    train: Seq<u32>,
    held: Seq<u32>,
    seed: u64,
    stage: u32,
    n: nat,
    h: int,
    a: u32,
    b: u32,
)
    requires
        is_holdout(train, held, seed, stage, n, h),
        0 <= h <= n,
        n <= 0x1_0000_0000,
    ensures
        a < n <==> held.contains(a) || train.contains(a),
        !(held.contains(a) && train.contains(a)),
        held.len() == h,
        train.len() == n - h,
        forall|i: int, j: int| 0 <= i < j < train.len() ==> train[i] < train[j],
        forall|i: int, j: int| 0 <= i < j < held.len() ==> held[i] < held[j],
        held.contains(a) && train.contains(b) ==> seed_of(seed, 0, stage, a) < seed_of(
            seed,
            0,
            stage,
            b,
        ),
{
    let order = choose|order: Seq<u32>| #[trigger]
        is_seeded_order(order, seed, 0, stage, n) && is_split(train, held, order, h);
    law_split_is_a_partition(train, held, order, h, a);
    if order.contains(a) {
        let i = choose|i: int| 0 <= i < order.len() && order[i] == a;
        assert(order[i] < n);
    }
    if held.contains(a) && train.contains(b) {
        assert(order.take(h).contains(a) && order.skip(h).contains(b));
        let i = choose|i: int| 0 <= i < order.take(h).len() && order.take(h)[i] == a;
        let j = choose|j: int| 0 <= j < order.skip(h).len() && order.skip(h)[j] == b;
        assert(order[i] == a && order[j + h] == b);
    }
}

/// A fifth of the rows is held out for selection, and one row at the least.
pub proof fn law_a_fifth_is_held_out(train: Seq<u32>, held: Seq<u32>, seed: u64, n: nat)
    requires
        2 <= n <= 0x1_0000_0000,
        is_holdout(train, held, seed, Stage::Sample.code(), n, holdout_len(n) as int),
    ensures
        1 <= held.len(),
        train.len() + held.len() == n,
        held.len() > 1 ==> 5 * held.len() <= n,
        n < 5 * (held.len() + 1),
        train.len() >= 1,
{
    law_every_row_is_held_out_or_trained_on(
        train,
        held,
        seed,
        Stage::Sample.code(),
        n,
        holdout_len(n) as int,
        0,
        0,
    );
}

/// As many rows are carved out for validation as were asked for, but at least one,
/// and never all.
pub proof fn law_carved_rows_are_as_many_as_asked(
    train: Seq<u32>,
    held: Seq<u32>,
    seed: u64,
    n_rows: u32,
    asked: usize,
)
    requires
        n_rows >= 2,
        is_holdout(
            train,
            held,
            seed,
            Stage::Holdout.code(),
            n_rows as nat,
            carve_len(n_rows, asked),
        ),
    ensures
        1 <= asked < n_rows ==> held.len() == asked,
        asked == 0 ==> held.len() == 1,
        asked >= n_rows ==> train.len() == 1,
        train.len() + held.len() == n_rows,
        train.len() >= 1,
        held.len() >= 1,
{
    law_every_row_is_held_out_or_trained_on(
        train,
        held,
        seed,
        Stage::Holdout.code(),
        n_rows as nat,
        carve_len(n_rows, asked),
        0,
        0,
    );
}

/// Sorting numbers keeps them and puts them in order.
proof fn lemma_in_order(s: Seq<u64>)
    ensures
        in_order(s).len() == s.len(),
        forall|v: u64| #[trigger] in_order(s).contains(v) <==> s.contains(v),
        forall|i: int, j: int| 0 <= i < j < s.len() ==> in_order(s)[i] <= in_order(s)[j],
{
    let pairs = s.map_values(|v: u64| (v, 0u64));
    let t = sorted_pairs(pairs);
    lemma_sorted_pairs(pairs);
    lemma_sorted_members(pairs);
    assert forall|v: u64| #[trigger] in_order(s).contains(v) <==> s.contains(v) by {
        if s.contains(v) {
            let i = choose|i: int| 0 <= i < s.len() && s[i] == v;
            assert(pairs[i] == (v, 0u64));
            assert(t.contains((v, 0u64)));
            let j = choose|j: int| 0 <= j < t.len() && t[j] == (v, 0u64);
            assert(in_order(s)[j] == v);
        }
        if in_order(s).contains(v) {
            let j = choose|j: int| 0 <= j < in_order(s).len() && in_order(s)[j] == v;
            assert(pairs.contains(t[j]));
            let i = choose|i: int| 0 <= i < pairs.len() && pairs[i] == t[j];
            assert(s[i] == v);
        }
    }
    assert forall|i: int, j: int| 0 <= i < j < s.len() implies in_order(s)[i] <= in_order(s)[j] by {
        assert(pair_le(t[i], t[j]));
    }
}

/// Of items that are all different, exactly `k` are taken, they come out in order,
/// and no item that is left has a smaller key than one that is taken.
pub proof fn law_taken_items_have_the_smallest_keys(keyed: Seq<(u64, u64)>, k: int, p: int, q: int)
    requires
        0 <= k <= keyed.len(),
        forall|i: int, j: int| 0 <= i < j < keyed.len() ==> keyed[i].1 != keyed[j].1,
        0 <= p < keyed.len(),
        0 <= q < keyed.len(),
    ensures
        smallest(keyed, k).len() == k,
        smallest(keyed, k).contains(keyed[p].1) && !smallest(keyed, k).contains(keyed[q].1)
            ==> keyed[p].0 <= keyed[q].0,
        forall|v: u64| #[trigger]
            smallest(keyed, k).contains(v) ==> exists|i: int|
                0 <= i < keyed.len() && (#[trigger] keyed[i]).1 == v,
        forall|i: int, j: int| 0 <= i < j < k ==> smallest(keyed, k)[i] <= smallest(keyed, k)[j],
{
    let t = sorted_pairs(keyed);
    lemma_sorted_pairs(keyed);
    lemma_sorted_members(keyed);
    let head = t.take(k).map_values(|p: (u64, u64)| p.1);
    lemma_in_order(head);
    let out = smallest(keyed, k);
    assert forall|v: u64| #[trigger] out.contains(v) implies exists|i: int|
        0 <= i < keyed.len() && (#[trigger] keyed[i]).1 == v by {
        assert(head.contains(v));
        let a = choose|a: int| 0 <= a < head.len() && head[a] == v;
        assert(keyed.contains(t[a]));
        let i = choose|i: int| 0 <= i < keyed.len() && keyed[i] == t[a];
        assert(keyed[i].1 == v);
    }
    if out.contains(keyed[p].1) && !out.contains(keyed[q].1) {
        assert(head.contains(keyed[p].1));
        let a = choose|a: int| 0 <= a < head.len() && head[a] == keyed[p].1;
        assert(keyed.contains(t[a]));
        let i = choose|i: int| 0 <= i < keyed.len() && keyed[i] == t[a];
        assert(i == p);
        assert(keyed.contains(keyed[q]));
        assert(t.contains(keyed[q]));
        let b = choose|b: int| 0 <= b < t.len() && t[b] == keyed[q];
        if b < k {
            assert(head[b] == keyed[q].1);
            assert(head.contains(keyed[q].1));
        }
        assert(pair_le(t[a], t[b]));
    }
}

/// As many axes are sampled as were asked for, but at least one and no more than
/// there are; they are axes of the list, in order, and an axis that is left out
/// has no smaller seed than one that is taken.
pub proof fn law_sampled_axes_have_the_smallest_seeds(
    axes: Seq<u32>,
    out: Seq<u32>,
    asked: usize,
    seed: u64,
    round: u32,
    a: u32,
    b: u32,
)
    requires
        axes.len() > 0,
        axes.no_duplicates(),
        out.map_values(|v: u32| v as u64) == smallest(
            axis_keys(axes, seed, round),
            axis_count(axes.len(), asked),
        ),
    ensures
        1 <= asked <= axes.len() ==> out.len() == asked,
        asked == 0 ==> out.len() == 1,
        asked > axes.len() ==> out.len() == axes.len(),
        out.contains(a) ==> axes.contains(a),
        axes.contains(b) && !out.contains(b) && out.contains(a) ==> seed_of(
            seed,
            round,
            Stage::Cols.code(),
            a,
        ) <= seed_of(seed, round, Stage::Cols.code(), b),
        forall|i: int, j: int| 0 <= i < j < out.len() ==> out[i] <= out[j],
{
    let keyed = axis_keys(axes, seed, round);
    let k = axis_count(axes.len(), asked);
    let wide = out.map_values(|v: u32| v as u64);
    assert forall|i: int, j: int| 0 <= i < j < keyed.len() implies keyed[i].1 != keyed[j].1 by {
        assert(axes[i] != axes[j]);
    }
    law_taken_items_have_the_smallest_keys(keyed, k, 0, 0);
    assert(out.len() == wide.len());
    assert forall|i: int, j: int| 0 <= i < j < out.len() implies out[i] <= out[j] by {
        assert(wide[i] <= wide[j]);
    }
    if out.contains(a) {
        let i = choose|i: int| 0 <= i < out.len() && out[i] == a;
        assert(wide[i] == a as u64);
        assert(wide.contains(a as u64));
        let p = choose|p: int| 0 <= p < keyed.len() && (#[trigger] keyed[p]).1 == a as u64;
        assert(axes[p] == a);
        if axes.contains(b) && !out.contains(b) {
            let q = choose|q: int| 0 <= q < axes.len() && axes[q] == b;
            assert(keyed[q].1 == b as u64);
            if wide.contains(b as u64) {
                let m = choose|m: int| 0 <= m < wide.len() && wide[m] == b as u64;
                assert(out[m] == b);
            }
            law_taken_items_have_the_smallest_keys(keyed, k, p, q);
        }
    }
}

/// Of rows that are all different, the `k` with the largest keys are sampled, in
/// order: no row that is left out has a larger key than one that is taken.
pub proof fn law_sampled_rows_have_the_largest_keys(
    rows: Seq<u32>,
    keys: Seq<F64>,
    out: Seq<u32>,
    k: int,
    p: int,
    q: int,
)
    requires
        keys.len() == rows.len(),
        rows.no_duplicates(),
        0 <= k <= rows.len(),
        0 <= p < rows.len(),
        0 <= q < rows.len(),
        out.map_values(|v: u32| v as u64) == smallest(mvs_keys(rows, keys), k),
    ensures
        out.len() == k,
        forall|v: u32| #[trigger] out.contains(v) ==> rows.contains(v),
        out.contains(rows[p]) && !out.contains(rows[q]) ==> keys[q].total_key()
            <= keys[p].total_key(),
        forall|i: int, j: int| 0 <= i < j < out.len() ==> out[i] <= out[j],
{
    let keyed = mvs_keys(rows, keys);
    let wide = out.map_values(|v: u32| v as u64);
    assert forall|i: int, j: int| 0 <= i < j < keyed.len() implies keyed[i].1 != keyed[j].1 by {
        assert(rows[i] != rows[j]);
    }
    law_taken_items_have_the_smallest_keys(keyed, k, p, q);
    assert(out.len() == wide.len());
    assert forall|i: int, j: int| 0 <= i < j < out.len() implies out[i] <= out[j] by {
        assert(wide[i] <= wide[j]);
    }
    assert forall|v: u32| #[trigger] out.contains(v) implies rows.contains(v) by {
        let i = choose|i: int| 0 <= i < out.len() && out[i] == v;
        assert(wide[i] == v as u64);
        assert(wide.contains(v as u64));
        let m = choose|m: int| 0 <= m < keyed.len() && (#[trigger] keyed[m]).1 == v as u64;
        assert(rows[m] == v);
    }
    assert forall|m: int| 0 <= m < rows.len() implies (out.contains(#[trigger] rows[m])
        <==> wide.contains(keyed[m].1)) by {
        if out.contains(rows[m]) {
            let i = choose|i: int| 0 <= i < out.len() && out[i] == rows[m];
            assert(wide[i] == keyed[m].1);
        }
        if wide.contains(keyed[m].1) {
            let i = choose|i: int| 0 <= i < wide.len() && wide[i] == keyed[m].1;
            assert(out[i] == rows[m]);
        }
    }
}

/// The share that is asked for is sampled, lifted to the planned minimum, and
/// never more rows than there are.
pub proof fn law_sampled_rows_keep_their_minimum(n: nat, target: usize, min_rows: u32)
    requires
        n > 0,
    ensures
        1 <= mvs_len(n, target, min_rows) <= n,
        mvs_len(n, target, min_rows) < n ==> mvs_len(n, target, min_rows) >= target && mvs_len(
            n,
            target,
            min_rows,
        ) >= min_rows,
        mvs_len(n, target, min_rows) > 1 ==> mvs_len(n, target, min_rows) <= target || mvs_len(
            n,
            target,
            min_rows,
        ) <= min_rows,
{
}

/// A row of a bootstrap is the seed of its position, modulo the number of rows.
pub proof fn law_bootstrap_rows_follow_their_seeds(seed: u64, round: u32, n: nat, i: int)
    requires
        0 < n <= u64::MAX,
        0 <= i <= u32::MAX,
    ensures
        bootstrap_row(seed, round, n, i) < n,
        exists|m: nat|
            seed_of(seed, round, Stage::Sample.code(), i as u32) as nat == #[trigger] (m * n)
                + bootstrap_row(seed, round, n, i),
{
    let s = seed_of(seed, round, Stage::Sample.code(), i as u32) as int;
    let d = n as int;
    vstd::arithmetic::div_mod::lemma_fundamental_div_mod(s, d);
    let m = (s / d) as nat;
    assert(m * n == d * (s / d)) by (nonlinear_arith)
        requires
            m == s / d,
            n == d,
            s >= 0,
            d > 0,
    ;
}

/// Rows are read exactly when every one of them is there.
pub proof fn law_listed_rows_are_there(len: nat, rows: Seq<u32>, what: Seq<char>)
    ensures
        gather_fault(len, rows, what) is None <==> forall|i: int|
            0 <= i < rows.len() ==> (#[trigger] rows[i]) < len,
{
    let f = |i: int| gather_row_fault(len, rows, what, i);
    lemma_no_fault(f, rows.len() as int);
    if forall|i: int| 0 <= i < rows.len() ==> (#[trigger] f(i)) is None {
        assert forall|i: int| 0 <= i < rows.len() implies (#[trigger] rows[i]) < len by {
            assert(f(i) is None);
        }
    } else {
        let i = choose|i: int| 0 <= i < rows.len() && !((#[trigger] f(i)) is None);
        assert(rows[i] >= len);
    }
}

/// A subset is taken exactly when its rows can be counted in 32 bits and every one
/// of them is in every column, in the target, and in the weights and exposures that
/// there are.
pub proof fn law_subsets_take_known_rows(
    x: BinnedMatrix,
    y: Seq<F32>,
    weight: Option<Seq<F32>>,
    exposure: Option<Seq<F32>>,
    rows: Seq<u32>,
)
    ensures
        subset_fault(x, y, weight, exposure, rows) is None <==> {
            &&& rows.len() <= 0xffff_ffff
            &&& forall|a: int, i: int|
                0 <= a < x.data@.len() && 0 <= i < rows.len() ==> (#[trigger] rows[i]) < (
                #[trigger] x.data@[a])@.len()
            &&& forall|i: int| 0 <= i < rows.len() ==> (#[trigger] rows[i]) < y.len()
            &&& weight is Some ==> forall|i: int|
                0 <= i < rows.len() ==> (#[trigger] rows[i]) < weight->0.len()
            &&& exposure is Some ==> forall|i: int|
                0 <= i < rows.len() ==> (#[trigger] rows[i]) < exposure->0.len()
        },
{
    let what = "row subset escaped binned column"@;
    let f = |a: int| gather_fault(x.data@[a]@.len(), rows, what);
    lemma_no_fault(f, x.data@.len() as int);
    law_listed_rows_are_there(y.len(), rows, "y"@ + " subset escaped source rows"@);
    law_listed_rows_are_there(weight->0.len(), rows, "weight"@ + " subset escaped source rows"@);
    law_listed_rows_are_there(exposure->0.len(), rows, "exposure"@ + " subset escaped source rows"@);
    if forall|a: int| 0 <= a < x.data@.len() ==> (#[trigger] f(a)) is None {
        assert forall|a: int, i: int| 0 <= a < x.data@.len() && 0 <= i < rows.len() implies (
        #[trigger] rows[i]) < (#[trigger] x.data@[a])@.len() by {
            assert(f(a) is None);
            law_listed_rows_are_there(x.data@[a]@.len(), rows, what);
        }
    } else {
        let a = choose|a: int| 0 <= a < x.data@.len() && !((#[trigger] f(a)) is None);
        law_listed_rows_are_there(x.data@[a]@.len(), rows, what);
        let i = choose|i: int| 0 <= i < rows.len() && !((#[trigger] rows[i]) < x.data@[a]@.len());
        assert(rows[i] >= x.data@[a]@.len());
    }
}

/// A subset has, in the order of its rows, what the data have there: bins, target,
/// weight and exposure, on the same grids.
pub proof fn law_subsets_read_their_rows(
    d: OwnedFitData,
    x: BinnedMatrix,
    y: Seq<F32>,
    weight: Option<Seq<F32>>,
    exposure: Option<Seq<F32>>,
    rows: Seq<u32>,
    a: int,
    i: int,
)
    requires
        is_subset(d, x, y, weight, exposure, rows),
        0 <= i < rows.len(),
        0 <= a < x.data@.len(),
    ensures
        d.x.n_rows == rows.len() && d.y@.len() == rows.len(),
        d.x.data@.len() == x.data@.len() && d.x.data@[a]@.len() == rows.len(),
        d.x.data@[a]@[i] == x.data@[a]@[rows[i] as int],
        d.y@[i] == y[rows[i] as int],
        d.weight is Some <==> weight is Some,
        d.exposure is Some <==> exposure is Some,
        weight is Some ==> d.weight->0@.len() == rows.len() && d.weight->0@[i]
            == weight->0[rows[i] as int],
        exposure is Some ==> d.exposure->0@.len() == rows.len() && d.exposure->0@[i]
            == exposure->0[rows[i] as int],
        grid_views(d.x.grids@) == grid_views(x.grids@) && d.x.provenance@ == x.provenance@,
{
    assert(is_gathered(d.x.data@[a]@, x.data@[a]@, rows));
}

/// Samples are drawn exactly from as many rows as their kind allows: bagging from
/// what 32 bits count, a held-out split from two rows on, a bootstrap of the held
/// out from one row on.
pub proof fn law_samples_are_drawn_within_their_limits(n: nat, m: u32, holdout: Option<usize>)
    ensures
        subagging_fault(n) is None <==> n <= 0xffff_ffff,
        holdout_fault(n) is None <==> 2 <= n <= 0x1_0000_0000,
        bootstrap_index_fault(n) is None <==> 1 <= n <= 0x1_0000_0000,
        carve_fault(m, holdout) is None <==> holdout is None || m >= 2,
{
}

/// A bootstrap of as many rows as there are is drawn exactly when its rows have
/// numbers of 32 bits.
pub proof fn law_bootstraps_number_their_rows(seed: u64, round: u32, n_rows: nat, i: int)
    requires
        0 < n_rows,
        0 <= i,
    ensures
        i <= 0xffff_ffff && n_rows <= 0x1_0000_0000 ==> bootstrap_fault(seed, round, n_rows, i) is None,
        i > 0xffff_ffff ==> bootstrap_fault(seed, round, n_rows, i) is Some,
{
    vstd::arithmetic::div_mod::lemma_mod_bound(
        seed_of(seed, round, Stage::Sample.code(), i as u32) as int,
        n_rows as int,
    );
}

} // verus!
