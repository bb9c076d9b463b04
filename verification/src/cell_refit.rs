//! The cell basis of a correction: coarse cells, the design over them, and the
//! rows that the fit uses.
use crate::backend::{mix, mix64};
use crate::boosters::shape::{
    cells, coord_of, flat_of, in_range, ints, law_coord_inverts_flat, law_flat_is_bounded, next_coord,
};
use crate::engine::rows::{law_taken_items_have_the_smallest_keys, smallest, smallest_items};
use crate::error::{
    answers, first_fault, internal, lemma_first_fault, lemma_no_fault, shape_mismatch, Fault, PbError,
};
use crate::float::F64;
use crate::seed_laws::law_mix_injective;
use crate::text::{dec, decimal, number_last, with_number};
use vstd::prelude::*;

verus! {

/// The settings of a cell correction.
#[derive(Debug, Clone, Copy, PartialEq, Eq, Structural)]
pub struct CellRefitSpec {
    /// The ridge penalty.
    pub base: F64,
    /// How strongly the penalty adapts to the signal of a term.
    pub gamma: F64,
    /// At most this many coarse cells per axis of a pair.
    pub pair_cell_cap: u32,
    /// Sweeps of the rough first solution.
    pub flat_cg_iters: usize,
    /// Sweeps of the final solution.
    pub cg_iters: usize,
    /// The relative change at which a solution is done.
    pub cg_tol: F64,
    /// Fit on at most this many rows.
    pub max_fit_rows: usize,
}

impl Default for CellRefitSpec {
    fn default() -> (s: CellRefitSpec)
        ensures
            s == (CellRefitSpec {
                base: F64 { bits: 0x40af_4000_0000_0000 },
                gamma: F64 { bits: 0x4000_0000_0000_0000 },
                pair_cell_cap: 24,
                flat_cg_iters: 30,
                cg_iters: 100,
                cg_tol: F64 { bits: 0x3f1a_36e2_eb1c_432d },
                max_fit_rows: 1_000_000,
            }),
    {
        CellRefitSpec {
            base: F64 { bits: 0x40af_4000_0000_0000 },
            gamma: F64 { bits: 0x4000_0000_0000_0000 },
            pair_cell_cap: 24,
            flat_cg_iters: 30,
            cg_iters: 100,
            cg_tol: F64 { bits: 0x3f1a_36e2_eb1c_432d },
            max_fit_rows: 1_000_000,
        }
    }
}

/// A scramble of the 64-bit integers.
pub open spec fn scrambled(x: u64) -> u64 {
    mix64(x.wrapping_add(0x9E37_79B9_7F4A_7C15))
}

/// A scramble of the 64-bit integers, unrelated to their order.
pub fn splitmix64(x: u64) -> (r: u64)
    ensures
        r == scrambled(x),
{
    mix(x.wrapping_add(0x9E37_79B9_7F4A_7C15))
}

/// The scramble has no ties.
pub proof fn law_scramble_is_injective(a: u64, b: u64)
    requires
        scrambled(a) == scrambled(b),
    ensures
        a == b,
{
    law_mix_injective(
        a.wrapping_add(0x9E37_79B9_7F4A_7C15),
        b.wrapping_add(0x9E37_79B9_7F4A_7C15),
    );
}

/// How many coarse groups `m` merged cells make under a cap.
pub open spec fn group_count(m: nat, cap: nat) -> nat {
    let c = if cap < 1 {
        1
    } else {
        cap
    };
    let k = if m < c {
        m
    } else {
        c
    };
    if k < 1 {
        1
    } else {
        k
    }
}

/// The coarse group of a merged cell: groups are contiguous and about equal.
pub open spec fn group_of(c: nat, m: nat, k: nat) -> nat {
    c * k / m
}

/// The coarse group of each merged cell, and the number of groups.
pub fn coarse_groups(merged: u32, cap: u32) -> (r: (Vec<u32>, u32))
    ensures
        r.1 == group_count(merged as nat, cap as nat),
        r.0@.len() == merged,
        forall|c: int|
            0 <= c < merged ==> (#[trigger] r.0@[c]) as nat == group_of(
                c as nat,
                merged as nat,
                r.1 as nat,
            ) && r.0@[c] < r.1,
{
    let c: u32 = if cap < 1 {
        1
    } else {
        cap
    };
    let low: u32 = if merged < c {
        merged
    } else {
        c
    };
    let k: u32 = if low < 1 {
        1
    } else {
        low
    };
    let mut groups: Vec<u32> = Vec::with_capacity(merged as usize);
    let mut i: u32 = 0;
    while i < merged
        invariant
            i <= merged,
            k == group_count(merged as nat, cap as nat),
            groups@.len() == i,
            forall|c: int|
                0 <= c < i ==> (#[trigger] groups@[c]) as nat == group_of(
                    c as nat,
                    merged as nat,
                    k as nat,
                ) && groups@[c] < k,
        decreases merged - i,
    {
        proof {
            lemma_group_bound(i as nat, merged as nat, k as nat);
            assert(i * k <= u64::MAX) by (nonlinear_arith)
                requires
                    i <= 0xffff_ffff,
                    k <= 0xffff_ffff,
            ;
        }
        let g: u64 = (i as u64 * k as u64) / (merged as u64);
        groups.push(g as u32);
        i = i + 1;
    }
    (groups, k)
}

proof fn lemma_group_bound(c: nat, m: nat, k: nat)
    requires
        c < m,
        k > 0,
    ensures
        group_of(c, m, k) < k,
{
    assert(c * k / m < k) by (nonlinear_arith)
        requires
            c < m,
            k > 0,
    ;
}

/// Groups keep the order of the cells.
pub proof fn law_groups_are_monotone(a: nat, b: nat, m: nat, k: nat)
    requires
        a <= b < m,
    ensures
        group_of(a, m, k) <= group_of(b, m, k),
{
    assert(a * k <= b * k) by (nonlinear_arith)
        requires
            a <= b,
    ;
    vstd::arithmetic::div_mod::lemma_div_is_ordered(
        (a * k) as int,
        (b * k) as int,
        m as int,
    );
}

/// No group is empty.
pub proof fn law_groups_are_filled(g: nat, m: nat, cap: nat) -> (c: nat)
    requires
        m > 0,
        g < group_count(m, cap),
    ensures
        c < m,
        group_of(c, m, group_count(m, cap)) == g,
{
    let k = group_count(m, cap);
    let c = ((g * m + k - 1) / (k as int)) as nat;
    assert(c * k >= g * m && c * k <= g * m + k - 1) by (nonlinear_arith)
        requires
            k > 0,
            c == (g * m + k - 1) / (k as int),
    ;
    assert(c < m) by (nonlinear_arith)
        requires
            c * k <= g * m + k - 1,
            g <= k - 1,
            k <= m,
            k > 0,
    ;
    assert(c * k / m == g) by {
        vstd::arithmetic::div_mod::lemma_fundamental_div_mod_converse(
            (c * k) as int,
            m as int,
            g as int,
            c * k - g * m,
        );
    }
    c
}

/// One table of a correction: its axes, the merged cells of each, and the merged
/// cell of each bin.
#[derive(Debug, Clone, PartialEq)]
pub struct CorrectionTable {
    pub axes: Vec<u32>,
    /// The number of merged cells of each axis.
    pub shape: Vec<u32>,
    /// The merged cell of each bin of each axis.
    pub bin_to_cell: Vec<Vec<u32>>,
    /// One value per merged cell, row-major.
    pub values: Vec<F64>,
}

impl CorrectionTable {
    /// One extent and one bin map per axis.
    pub open spec fn wf(&self) -> bool {
        self.shape@.len() == self.axes@.len() && self.bin_to_cell@.len() == self.axes@.len()
    }
}

/// The cap on the groups of an axis: a main keeps its merged cells.
pub open spec fn axis_cap(t: CorrectionTable, k: int, cap: u32) -> nat {
    if t.axes@.len() <= 1 {
        t.shape@[k] as nat
    } else {
        cap as nat
    }
}

/// The number of coarse groups of each axis.
pub open spec fn coarse_shape(t: CorrectionTable, cap: u32) -> Seq<usize> {
    Seq::new(
        t.axes@.len(),
        |k: int| group_count(t.shape@[k] as nat, axis_cap(t, k, cap)) as usize,
    )
}

/// The number of coarse cells of a table.
pub open spec fn width(t: CorrectionTable, cap: u32) -> nat {
    cells(coarse_shape(t, cap), t.axes@.len())
}

/// The first column of a table.
pub open spec fn offset_of(tables: Seq<CorrectionTable>, cap: u32, n: nat) -> nat
    decreases n,
{
    if n == 0 {
        0
    } else {
        offset_of(tables, cap, (n - 1) as nat) + width(tables[n - 1], cap)
    }
}

/// Why the columns of a table cannot be laid out.
pub open spec fn layout_fault(tables: Seq<CorrectionTable>, cap: u32, t: int) -> Option<Fault> {
    let w = width(tables[t], cap);
    if w > usize::MAX {
        Some(Fault::Internal("cell-refit coarse term column count overflow"@))
    } else if w > u16::MAX {
        Some(
            Fault::Internal("cell-refit support coarse width "@ + dec(w) + " exceeds u16"@),
        )
    } else if offset_of(tables, cap, t as nat) > u32::MAX {
        Some(Fault::Internal("cell-refit column offset exceeded u32"@))
    } else if offset_of(tables, cap, (t + 1) as nat) > usize::MAX {
        Some(Fault::Internal("cell-refit column count overflow"@))
    } else {
        None
    }
}

/// The merged cell of a row on an axis of a table.
pub open spec fn merged_cell(t: CorrectionTable, data: Seq<Vec<u8>>, k: int, row: int) -> u32 {
    t.bin_to_cell@[k]@[data[t.axes@[k] as int]@[row] as int]
}

/// Why a row has no cell on an axis of a table.
pub open spec fn cell_fault(t: CorrectionTable, data: Seq<Vec<u8>>, k: int, row: int) -> Option<
    Fault,
> {
    let axis = t.axes@[k];
    let col = data[axis as int]@;
    if row >= col.len() {
        Some(
            Fault::ShapeMismatch(
                "cell-refit: axis "@ + dec(axis as nat) + " column shorter than rows"@,
            ),
        )
    } else if col[row] as int >= t.bin_to_cell@[k]@.len() {
        Some(
            Fault::InvalidInput(
                "cell-refit: bin "@ + dec(col[row] as nat) + " outside bin_to_cell axis "@ + dec(
                    axis as nat,
                ),
            ),
        )
    } else if merged_cell(t, data, k, row) >= t.shape@[k] {
        Some(Fault::Internal("cell-refit: merged cell escaped coarse groups"@))
    } else {
        None
    }
}

/// Why an axis of a table cannot be read.
pub open spec fn axis_fault(t: CorrectionTable, data: Seq<Vec<u8>>, rows: Seq<usize>, k: int) -> Option<
    Fault,
> {
    if t.axes@[k] >= data.len() {
        Some(Fault::ShapeMismatch("cell-refit: data has no axis "@ + dec(t.axes@[k] as nat)))
    } else {
        first_fault(|i: int| cell_fault(t, data, k, rows[i] as int), 0, rows.len() as int)
    }
}

/// Why a table cannot be read.
pub open spec fn read_fault(t: CorrectionTable, data: Seq<Vec<u8>>, rows: Seq<usize>) -> Option<
    Fault,
> {
    first_fault(|k: int| axis_fault(t, data, rows, k), 0, t.axes@.len() as int)
}

/// The coarse coordinate of a row in a table.
pub open spec fn coarse_coord(t: CorrectionTable, data: Seq<Vec<u8>>, cap: u32, row: int) -> Seq<
    int,
> {
    Seq::new(
        t.axes@.len(),
        |k: int|
            group_of(
                merged_cell(t, data, k, row) as nat,
                t.shape@[k] as nat,
                coarse_shape(t, cap)[k] as nat,
            ) as int,
    )
}

/// Why there is no design.
pub open spec fn design_fault(
    tables: Seq<CorrectionTable>,
    data: Seq<Vec<u8>>,
    rows: Seq<usize>,
    cap: u32,
) -> Option<Fault> {
    let layout = first_fault(|t: int| layout_fault(tables, cap, t), 0, tables.len() as int);
    if layout is Some {
        layout
    } else {
        first_fault(|t: int| read_fault(tables[t], data, rows), 0, tables.len() as int)
    }
}

/// The sparse design of a correction: every row activates one coarse cell of
/// every table.
#[derive(Debug, Clone, PartialEq)]
pub struct Design {
    /// For each table, the coarse cell of each row.
    pub active: Vec<Vec<u16>>,
    pub n_cols: usize,
    /// The table that owns each column.
    pub col_term: Vec<u32>,
    /// The first column of each table.
    pub col_offset: Vec<u32>,
    /// The number of columns of each table.
    pub term_cols: Vec<u32>,
    /// The number of coarse cells of each axis of each table.
    pub coarse_shape: Vec<Vec<u32>>,
    /// The coarse group of each merged cell of each axis of each table.
    pub groups: Vec<Vec<Vec<u32>>>,
}

/// Whether the groups of an axis are the coarse groups of its merged cells.
pub open spec fn is_grouping(g: Seq<u32>, m: u32, k: usize) -> bool {
    &&& g.len() == m
    &&& forall|c: int|
        0 <= c < m ==> (#[trigger] g[c]) as nat == group_of(c as nat, m as nat, k as nat) && g[c] < k
}

/// The part of a design that belongs to one table.
pub open spec fn term_ok(
    d: Design,
    tables: Seq<CorrectionTable>,
    cap: u32,
    t: int,
) -> bool {
    let shape = coarse_shape(tables[t], cap);
    &&& d.col_offset@[t] as nat == offset_of(tables, cap, t as nat)
    &&& d.term_cols@[t] as nat == width(tables[t], cap)
    &&& d.coarse_shape@[t]@.len() == shape.len()
    &&& forall|k: int|
        0 <= k < shape.len() ==> (#[trigger] d.coarse_shape@[t]@[k]) as usize == shape[k]
    &&& d.groups@[t]@.len() == shape.len()
    &&& forall|k: int|
        0 <= k < shape.len() ==> is_grouping(
            (#[trigger] d.groups@[t]@[k])@,
            tables[t].shape@[k],
            shape[k],
        )
}

/// Whether the coarse cells of a table are those of the rows.
pub open spec fn active_ok(
    a: Seq<u16>,
    t: CorrectionTable,
    data: Seq<Vec<u8>>,
    rows: Seq<usize>,
    cap: u32,
) -> bool {
    &&& a.len() == rows.len()
    &&& forall|i: int|
        0 <= i < rows.len() ==> (#[trigger] a[i]) as int == flat_of(
            coarse_shape(t, cap),
            coarse_coord(t, data, cap, rows[i] as int),
            t.axes@.len(),
        ) && (a[i] as nat) < width(t, cap)
}

/// Whether a design is the one of these tables and rows.
pub open spec fn is_design(
    d: Design,
    tables: Seq<CorrectionTable>,
    data: Seq<Vec<u8>>,
    rows: Seq<usize>,
    cap: u32,
) -> bool {
    let n = tables.len();
    &&& d.n_cols as nat == offset_of(tables, cap, n)
    &&& d.col_offset@.len() == n
    &&& d.term_cols@.len() == n
    &&& d.coarse_shape@.len() == n
    &&& d.groups@.len() == n
    &&& d.active@.len() == n
    &&& forall|t: int| 0 <= t < n ==> #[trigger] term_ok(d, tables, cap, t)
    &&& forall|t: int| 0 <= t < n ==> active_ok((#[trigger] d.active@[t])@, tables[t], data, rows, cap)
    &&& d.col_term@.len() == d.n_cols
    &&& forall|c: int|
        0 <= c < d.n_cols ==> owns(tables, cap, (#[trigger] d.col_term@[c]) as int, c)
}

/// Whether a table owns a column.
pub open spec fn owns(tables: Seq<CorrectionTable>, cap: u32, t: int, c: int) -> bool {
    &&& 0 <= t < tables.len()
    &&& offset_of(tables, cap, t as nat) <= c < offset_of(tables, cap, (t + 1) as nat)
}

/// Columns belong to one table each.
pub proof fn law_columns_have_one_owner(
    tables: Seq<CorrectionTable>,
    cap: u32,
    t: int,
    u: int,
    c: int,
)
    requires
        owns(tables, cap, t, c),
        owns(tables, cap, u, c),
    ensures
        t == u,
{
    if t < u {
        lemma_offsets_grow(tables, cap, (t + 1) as nat, u as nat);
    } else if u < t {
        lemma_offsets_grow(tables, cap, (u + 1) as nat, t as nat);
    }
}

proof fn lemma_offsets_grow(tables: Seq<CorrectionTable>, cap: u32, a: nat, b: nat)
    requires
        a <= b,
    ensures
        offset_of(tables, cap, a) <= offset_of(tables, cap, b),
    decreases b,
{
    if a < b {
        lemma_offsets_grow(tables, cap, a, (b - 1) as nat);
    }
}


/// Where every axis has a cell, more axes never make fewer cells.
proof fn lemma_cells_grow(shape: Seq<usize>, a: nat, b: nat)
    requires
        a <= b <= shape.len(),
        forall|k: int| 0 <= k < shape.len() ==> (#[trigger] shape[k]) >= 1,
    ensures
        1 <= cells(shape, a) <= cells(shape, b),
    decreases b,
{
    if b > 0 {
        if a < b {
            lemma_cells_grow(shape, a, (b - 1) as nat);
        } else {
            lemma_cells_grow(shape, (b - 1) as nat, (b - 1) as nat);
        }
        assert(shape[b - 1] >= 1);
        let c = cells(shape, (b - 1) as nat);
        let e = shape[b - 1] as nat;
        assert(c * e >= c) by (nonlinear_arith)
            requires
                e >= 1,
                c >= 0,
        ;
    }
}

/// The layout of one table: coarse cells per axis, groups per axis, and the
/// number of coarse cells where the machine can hold it.
fn table_layout(t: &CorrectionTable, cap: u32) -> (r: (Vec<u32>, Vec<Vec<u32>>, Option<usize>))
    requires
        t.wf(),
    ensures
        r.0@.len() == t.axes@.len(),
        forall|k: int|
            0 <= k < t.axes@.len() ==> (#[trigger] r.0@[k]) as usize == coarse_shape(*t, cap)[k],
        r.1@.len() == t.axes@.len(),
        forall|k: int|
            0 <= k < t.axes@.len() ==> is_grouping(
                (#[trigger] r.1@[k])@,
                t.shape@[k],
                coarse_shape(*t, cap)[k],
            ),
        match r.2 {
            Some(w) => w as nat == width(*t, cap),
            None => width(*t, cap) > usize::MAX,
        },
{
    let order: usize = t.axes.len();
    let ghost shape = coarse_shape(*t, cap);
    let mut ks: Vec<u32> = Vec::with_capacity(order);
    let mut grps: Vec<Vec<u32>> = Vec::with_capacity(order);
    let mut cols: Option<usize> = Some(1);
    proof {
        assert forall|k: int| 0 <= k < shape.len() implies (#[trigger] shape[k]) >= 1 by {}
    }
    let mut k: usize = 0;
    while k < order
        invariant
            k <= order,
            order == t.axes@.len(),
            t.wf(),
            shape == coarse_shape(*t, cap),
            forall|j: int| 0 <= j < shape.len() ==> (#[trigger] shape[j]) >= 1,
            ks@.len() == k,
            grps@.len() == k,
            forall|j: int| 0 <= j < k ==> (#[trigger] ks@[j]) as usize == shape[j],
            forall|j: int| 0 <= j < k ==> is_grouping((#[trigger] grps@[j])@, t.shape@[j], shape[j]),
            match cols {
                Some(w) => w as nat == cells(shape, k as nat),
                None => cells(shape, k as nat) > usize::MAX,
            },
        decreases order - k,
    {
        let merged: u32 = t.shape[k];
        let axis_cap: u32 = if order <= 1 {
            merged
        } else {
            cap
        };
        let g = coarse_groups(merged, axis_cap);
        proof {
            assert(g.1 as usize == shape[k as int]);
            lemma_cells_grow(shape, k as nat, (k + 1) as nat);
        }
        cols = match cols {
            None => None,
            Some(w) => w.checked_mul(g.1 as usize),
        };
        ks.push(g.1);
        grps.push(g.0);
        k = k + 1;
    }
    (ks, grps, cols)
}

/// The coarse cell of every row in one table.
fn table_cells(
    t: &CorrectionTable,
    ks: &Vec<u32>,
    grps: &Vec<Vec<u32>>,
    data: &Vec<Vec<u8>>,
    rows: &Vec<usize>,
    cap: u32,
) -> (r: Result<Vec<u16>, PbError>)
    requires
        t.wf(),
        width(*t, cap) <= u16::MAX,
        ks@.len() == t.axes@.len(),
        forall|k: int|
            0 <= k < t.axes@.len() ==> (#[trigger] ks@[k]) as usize == coarse_shape(*t, cap)[k],
        grps@.len() == t.axes@.len(),
        forall|k: int|
            0 <= k < t.axes@.len() ==> is_grouping(
                (#[trigger] grps@[k])@,
                t.shape@[k],
                coarse_shape(*t, cap)[k],
            ),
    ensures
        answers(r, read_fault(*t, data@, rows@)),
        r is Ok ==> active_ok(r->Ok_0@, *t, data@, rows@, cap),
{
    let n: usize = rows.len();
    let order: usize = t.axes.len();
    let ghost shape = coarse_shape(*t, cap);
    let ghost f = |k: int| axis_fault(*t, data@, rows@, k);
    let mut col: Vec<u16> = Vec::with_capacity(n);
    let mut z: usize = 0;
    while z < n
        invariant
            z <= n,
            col@.len() == z,
            forall|i: int| 0 <= i < z ==> #[trigger] col@[i] == 0,
        decreases n - z,
    {
        col.push(0);
        z = z + 1;
    }
    proof {
        assert forall|k: int| 0 <= k < shape.len() implies (#[trigger] shape[k]) >= 1 by {}
        lemma_cells_grow(shape, 0, 0);
    }
    let mut k: usize = 0;
    while k < order
        invariant
            k <= order,
            order == t.axes@.len(),
            n == rows@.len(),
            t.wf(),
            shape == coarse_shape(*t, cap),
            forall|j: int| 0 <= j < shape.len() ==> (#[trigger] shape[j]) >= 1,
            width(*t, cap) <= u16::MAX,
            ks@.len() == order,
            grps@.len() == order,
            forall|j: int| 0 <= j < order ==> (#[trigger] ks@[j]) as usize == shape[j],
            forall|j: int|
                0 <= j < order ==> is_grouping((#[trigger] grps@[j])@, t.shape@[j], shape[j]),
            f == (|k: int| axis_fault(*t, data@, rows@, k)),
            forall|j: int| 0 <= j < k ==> (#[trigger] f(j)) is None,
            col@.len() == n,
            forall|i: int|
                0 <= i < n ==> (#[trigger] col@[i]) as int == flat_of(
                    shape,
                    coarse_coord(*t, data@, cap, rows@[i] as int),
                    k as nat,
                ) && (col@[i] as nat) < cells(shape, k as nat),
        decreases order - k,
    {
        proof {
            lemma_first_fault(f, 0, k as int, order as int);
        }
        let axis: usize = t.axes[k] as usize;
        if axis >= data.len() {
            assert(f(k as int) is Some);
            let what = number_last("cell-refit: data has no axis ", axis as u64);
            return Err(PbError::ShapeMismatch { what });
        }
        let kk: u32 = ks[k];
        let ghost g = |i: int| cell_fault(*t, data@, k as int, rows@[i] as int);
        proof {
            lemma_cells_grow(shape, k as nat, (k + 1) as nat);
            lemma_cells_grow(shape, (k + 1) as nat, order as nat);
            assert(shape[k as int] >= 1);
        }
        let ghost before = col@;
        let mut i: usize = 0;
        while i < n
            invariant
                i <= n,
                k < order,
                axis == t.axes@[k as int],
                axis < data@.len(),
                order == t.axes@.len(),
                n == rows@.len(),
                t.wf(),
                shape == coarse_shape(*t, cap),
                kk as usize == shape[k as int],
                kk >= 1,
                grps@.len() == order,
                is_grouping(grps@[k as int]@, t.shape@[k as int], shape[k as int]),
                width(*t, cap) <= u16::MAX,
                cells(shape, (k + 1) as nat) <= width(*t, cap),
                cells(shape, (k + 1) as nat) == cells(shape, k as nat) * shape[k as int],
                f == (|k: int| axis_fault(*t, data@, rows@, k)),
                first_fault(f, 0, order as int) == first_fault(f, k as int, order as int),
                g == (|i: int| cell_fault(*t, data@, k as int, rows@[i] as int)),
                forall|j: int| 0 <= j < i ==> (#[trigger] g(j)) is None,
                col@.len() == n,
                before.len() == n,
                forall|j: int| i <= j < n ==> #[trigger] col@[j] == before[j],
                forall|j: int|
                    0 <= j < n ==> (#[trigger] before[j]) as int == flat_of(
                        shape,
                        coarse_coord(*t, data@, cap, rows@[j] as int),
                        k as nat,
                    ) && (before[j] as nat) < cells(shape, k as nat),
                forall|j: int|
                    0 <= j < i ==> (#[trigger] col@[j]) as int == flat_of(
                        shape,
                        coarse_coord(*t, data@, cap, rows@[j] as int),
                        (k + 1) as nat,
                    ) && (col@[j] as nat) < cells(shape, (k + 1) as nat),
            decreases n - i,
        {
            proof {
                lemma_first_fault(g, 0, i as int, n as int);
            }
            let row: usize = rows[i];
            if row >= data[axis].len() {
                assert(g(i as int) is Some);
                assert(f(k as int) is Some);
                let what = with_number(
                    "cell-refit: axis ",
                    axis as u64,
                    " column shorter than rows",
                );
                return Err(PbError::ShapeMismatch { what });
            }
            let bin: u8 = data[axis][row];
            if bin as usize >= t.bin_to_cell[k].len() {
                assert(g(i as int) is Some);
                assert(f(k as int) is Some);
                let mut what = with_number(
                    "cell-refit: bin ",
                    bin as u64,
                    " outside bin_to_cell axis ",
                );
                what.append(decimal(axis as u64).as_str());
                return Err(PbError::InvalidInput { what });
            }
            let cell: u32 = t.bin_to_cell[k][bin as usize];
            if cell >= t.shape[k] {
                assert(g(i as int) is Some);
                assert(f(k as int) is Some);
                return Err(internal("cell-refit: merged cell escaped coarse groups"));
            }
            assert(g(i as int) is None);
            let coarse: u32 = grps[k][cell as usize];
            let slot: u16 = col[i];
            proof {
                let coord = coarse_coord(*t, data@, cap, row as int);
                assert(coord[k as int] == coarse);
                assert(coarse < kk);
                let c = cells(shape, k as nat) as int;
                assert(before[i as int] == slot);
                assert(slot * kk + coarse < c * kk) by (nonlinear_arith)
                    requires
                        0 <= slot < c,
                        0 <= coarse < kk,
                ;
                assert(slot * kk <= slot * kk + coarse);
            }
            let id: u32 = slot as u32 * kk + coarse;
            col.set(i, id as u16);
            i = i + 1;
        }
        proof {
            lemma_first_fault(g, 0, n as int, n as int);
            assert(f(k as int) is None);
        }
        k = k + 1;
    }
    proof {
        lemma_first_fault(f, 0, order as int, order as int);
    }
    Ok(col)
}

/// Builds the design of a correction over the given rows.
pub fn build_design(
    tables: &Vec<CorrectionTable>,
    data: &Vec<Vec<u8>>,
    rows: &Vec<usize>,
    pair_cell_cap: u32,
) -> (r: Result<Design, PbError>)
    requires
        forall|t: int| 0 <= t < tables@.len() ==> (#[trigger] tables@[t]).wf(),
        tables@.len() <= u32::MAX,
    ensures
        answers(r, design_fault(tables@, data@, rows@, pair_cell_cap)),
        r is Ok ==> is_design(r->Ok_0, tables@, data@, rows@, pair_cell_cap),
{
    let n: usize = tables.len();
    let ghost cap = pair_cell_cap;
    let ghost f = |t: int| layout_fault(tables@, cap, t);
    let mut d = Design {
        active: Vec::new(),
        n_cols: 0,
        col_term: Vec::new(),
        col_offset: Vec::new(),
        term_cols: Vec::new(),
        coarse_shape: Vec::new(),
        groups: Vec::new(),
    };
    let mut t: usize = 0;
    while t < n
        invariant
            t <= n,
            n == tables@.len(),
            n <= u32::MAX,
            cap == pair_cell_cap,
            forall|t: int| 0 <= t < tables@.len() ==> (#[trigger] tables@[t]).wf(),
            f == (|t: int| layout_fault(tables@, cap, t)),
            forall|j: int| 0 <= j < t ==> (#[trigger] f(j)) is None,
            d.n_cols as nat == offset_of(tables@, cap, t as nat),
            d.active@.len() == 0,
            d.col_offset@.len() == t,
            d.term_cols@.len() == t,
            d.coarse_shape@.len() == t,
            d.groups@.len() == t,
            forall|j: int| 0 <= j < t ==> #[trigger] term_ok(d, tables@, cap, j),
            d.col_term@.len() == d.n_cols,
            forall|c: int|
                0 <= c < d.n_cols ==> owns(tables@, cap, (#[trigger] d.col_term@[c]) as int, c),
        decreases n - t,
    {
        proof {
            lemma_first_fault(f, 0, t as int, n as int);
            assert(f(t as int) == layout_fault(tables@, cap, t as int));
            assert(tables@[t as int].wf());
        }
        let lay = table_layout(&tables[t], pair_cell_cap);
        let cols: usize = match lay.2 {
            None => {
                return Err(internal("cell-refit coarse term column count overflow"));
            },
            Some(w) => w,
        };
        if cols > 65535 {
            let what = with_number(
                "cell-refit support coarse width ",
                cols as u64,
                " exceeds u16",
            );
            return Err(PbError::Internal { what });
        }
        if d.n_cols as u64 > 0xffff_ffff {
            return Err(internal("cell-refit column offset exceeded u32"));
        }
        let end: usize = match d.n_cols.checked_add(cols) {
            None => {
                return Err(internal("cell-refit column count overflow"));
            },
            Some(e) => e,
        };
        assert(f(t as int) is None);
        let ghost before = d;
        let start: usize = d.n_cols;
        let mut c: usize = start;
        while c < end
            invariant
                start <= c <= end,
                t < n,
                n <= u32::MAX,
                n == tables@.len(),
                start as nat == offset_of(tables@, cap, t as nat),
                end as nat == offset_of(tables@, cap, (t + 1) as nat),
                d.col_term@.len() == c,
                d.n_cols == before.n_cols,
                d.active == before.active,
                d.col_offset == before.col_offset,
                d.term_cols == before.term_cols,
                d.coarse_shape == before.coarse_shape,
                d.groups == before.groups,
                forall|q: int| 0 <= q < c ==> owns(tables@, cap, (#[trigger] d.col_term@[q]) as int, q),
            decreases end - c,
        {
            d.col_term.push(t as u32);
            assert(owns(tables@, cap, t as int, c as int));
            c = c + 1;
        }
        d.col_offset.push(start as u32);
        d.term_cols.push(cols as u32);
        d.n_cols = end;
        d.coarse_shape.push(lay.0);
        d.groups.push(lay.1);
        proof {
            assert forall|j: int| 0 <= j < t + 1 implies #[trigger] term_ok(d, tables@, cap, j) by {
                if j < t {
                    assert(term_ok(before, tables@, cap, j));
                    assert(d.col_offset@[j] == before.col_offset@[j]);
                    assert(d.term_cols@[j] == before.term_cols@[j]);
                    assert(d.coarse_shape@[j] == before.coarse_shape@[j]);
                    assert(d.groups@[j] == before.groups@[j]);
                } else {
                    assert(d.coarse_shape@[j] == lay.0);
                    assert(d.groups@[j] == lay.1);
                }
            }
        }
        t = t + 1;
    }
    proof {
        lemma_first_fault(f, 0, n as int, n as int);
    }
    let ghost h = |t: int| read_fault(tables@[t], data@, rows@);
    let mut u: usize = 0;
    while u < n
        invariant
            u <= n,
            n == tables@.len(),
            cap == pair_cell_cap,
            forall|t: int| 0 <= t < tables@.len() ==> (#[trigger] tables@[t]).wf(),
            f == (|t: int| layout_fault(tables@, cap, t)),
            forall|j: int| 0 <= j < n ==> (#[trigger] f(j)) is None,
            first_fault(f, 0, n as int) is None,
            h == (|t: int| read_fault(tables@[t], data@, rows@)),
            forall|j: int| 0 <= j < u ==> (#[trigger] h(j)) is None,
            d.n_cols as nat == offset_of(tables@, cap, n as nat),
            d.col_offset@.len() == n,
            d.term_cols@.len() == n,
            d.coarse_shape@.len() == n,
            d.groups@.len() == n,
            forall|j: int| 0 <= j < n ==> #[trigger] term_ok(d, tables@, cap, j),
            d.col_term@.len() == d.n_cols,
            forall|c: int|
                0 <= c < d.n_cols ==> owns(tables@, cap, (#[trigger] d.col_term@[c]) as int, c),
            d.active@.len() == u,
            forall|j: int|
                0 <= j < u ==> active_ok((#[trigger] d.active@[j])@, tables@[j], data@, rows@, cap),
        decreases n - u,
    {
        proof {
            lemma_first_fault(h, 0, u as int, n as int);
            assert(term_ok(d, tables@, cap, u as int));
            assert(f(u as int) is None);
            assert(tables@[u as int].wf());
        }
        let cells_of = table_cells(
            &tables[u],
            &d.coarse_shape[u],
            &d.groups[u],
            data,
            rows,
            pair_cell_cap,
        );
        match cells_of {
            Err(e) => {
                assert(h(u as int) is Some);
                return Err(e);
            },
            Ok(col) => {
                assert(h(u as int) is None);
                let ghost before = d;
                d.active.push(col);
                proof {
                    assert forall|j: int| 0 <= j < n implies #[trigger] term_ok(
                        d,
                        tables@,
                        cap,
                        j,
                    ) by {
                        assert(term_ok(before, tables@, cap, j));
                    }
                }
            },
        }
        u = u + 1;
    }
    proof {
        lemma_first_fault(h, 0, n as int, n as int);
    }
    Ok(d)
}

/// The merged extents of a table.
pub open spec fn merged_shape(t: CorrectionTable) -> Seq<usize> {
    t.shape@.map_values(|m: u32| m as usize)
}

/// The coarse groups of a merged coordinate.
pub open spec fn grouped(t: CorrectionTable, cap: u32, coord: Seq<int>) -> Seq<int> {
    Seq::new(
        t.axes@.len(),
        |k: int|
            group_of(
                coord[k] as nat,
                t.shape@[k] as nat,
                coarse_shape(t, cap)[k] as nat,
            ) as int,
    )
}

/// The coarse cell of a merged cell.
pub open spec fn coarse_of(t: CorrectionTable, cap: u32, flat: int) -> int {
    flat_of(
        coarse_shape(t, cap),
        grouped(t, cap, coord_of(merged_shape(t), flat, t.axes@.len())),
        t.axes@.len(),
    )
}

/// The coarse cell of every merged cell of a table, by which a solution over
/// coarse cells is written back.
pub fn expand_cells(t: &CorrectionTable, cap: u32) -> (v: Vec<usize>)
    requires
        t.wf(),
        width(*t, cap) <= u16::MAX,
        forall|k: int| 0 <= k < t.shape@.len() ==> (#[trigger] t.shape@[k]) > 0,
    ensures
        v@.len() == cells(merged_shape(*t), t.axes@.len()),
        forall|j: int|
            0 <= j < v@.len() ==> (#[trigger] v@[j]) as int == coarse_of(*t, cap, j) && (v@[j] as nat)
                < width(*t, cap),
{
    let lay = table_layout(t, cap);
    let ks = lay.0;
    let grps = lay.1;
    let order: usize = t.axes.len();
    let ghost n = t.axes@.len();
    let ghost shape = coarse_shape(*t, cap);
    let ghost ext = merged_shape(*t);
    let mut extents: Vec<usize> = Vec::with_capacity(order);
    let mut coord: Vec<usize> = Vec::with_capacity(order);
    let mut k: usize = 0;
    while k < order
        invariant
            k <= order,
            order == t.axes@.len(),
            t.wf(),
            ext == merged_shape(*t),
            extents@.len() == k,
            coord@.len() == k,
            forall|j: int| 0 <= j < k ==> #[trigger] extents@[j] == ext[j],
            forall|j: int| 0 <= j < k ==> #[trigger] coord@[j] == 0,
        decreases order - k,
    {
        extents.push(t.shape[k] as usize);
        coord.push(0);
        k = k + 1;
    }
    assert(extents@ =~= ext);
    let mut out: Vec<usize> = Vec::new();
    let mut more: bool = true;
    proof {
        assert forall|k: int| 0 <= k < ext.len() implies 0 <= #[trigger] ints(coord@)[k] < ext[k] by {
            assert(t.shape@[k] > 0);
        }
        lemma_flat_zero(ext, ints(coord@), n);
        assert forall|k: int| 0 <= k < shape.len() implies (#[trigger] shape[k]) >= 1 by {}
    }
    while more
        invariant
            n == t.axes@.len(),
            order == n,
            t.wf(),
            shape == coarse_shape(*t, cap),
            ext == merged_shape(*t),
            extents@ == ext,
            width(*t, cap) <= u16::MAX,
            forall|j: int| 0 <= j < shape.len() ==> (#[trigger] shape[j]) >= 1,
            ks@.len() == n,
            forall|j: int| 0 <= j < n ==> (#[trigger] ks@[j]) as usize == shape[j],
            grps@.len() == n,
            forall|j: int| 0 <= j < n ==> is_grouping((#[trigger] grps@[j])@, t.shape@[j], shape[j]),
            in_range(ints(coord@), ext),
            more ==> out@.len() == flat_of(ext, ints(coord@), n),
            !more ==> out@.len() == cells(ext, n),
            forall|j: int|
                0 <= j < out@.len() ==> (#[trigger] out@[j]) as int == coarse_of(*t, cap, j) && (
                out@[j] as nat) < width(*t, cap),
        decreases (if more {
            cells(ext, n) - out@.len()
        } else {
            0
        }),
    {
        let ghost at = ints(coord@);
        let ghost want = grouped(*t, cap, at);
        let mut id: usize = 0;
        let mut k: usize = 0;
        proof {
            assert forall|k: int| 0 <= k < n implies 0 <= #[trigger] want[k] < shape[k] by {
                assert(0 <= at[k] < ext[k]);
                lemma_group_bound(at[k] as nat, t.shape@[k] as nat, shape[k] as nat);
            }
            assert(in_range(want, shape));
        }
        while k < order
            invariant
                k <= order,
                n == t.axes@.len(),
                order == n,
                t.wf(),
                shape == coarse_shape(*t, cap),
                ext == merged_shape(*t),
                width(*t, cap) <= u16::MAX,
                forall|j: int| 0 <= j < shape.len() ==> (#[trigger] shape[j]) >= 1,
                ks@.len() == n,
                forall|j: int| 0 <= j < n ==> (#[trigger] ks@[j]) as usize == shape[j],
                grps@.len() == n,
                forall|j: int|
                    0 <= j < n ==> is_grouping((#[trigger] grps@[j])@, t.shape@[j], shape[j]),
                at == ints(coord@),
                in_range(at, ext),
                want == grouped(*t, cap, at),
                in_range(want, shape),
                id as int == flat_of(shape, want, k as nat),
            decreases order - k,
        {
            proof {
                assert(at[k as int] == coord@[k as int]);
                assert(0 <= at[k as int] < ext[k as int]);
                assert(is_grouping(grps@[k as int]@, t.shape@[k as int], shape[k as int]));
            }
            let c: usize = coord[k];
            let g: usize = grps[k][c] as usize;
            proof {
                assert(want[k as int] == g);
                law_flat_is_bounded(shape, want, k as nat);
                law_flat_is_bounded(shape, want, (k + 1) as nat);
                lemma_cells_grow(shape, k as nat, n);
                lemma_cells_grow(shape, (k + 1) as nat, n);
                assert(id * shape[k as int] + g == flat_of(shape, want, (k + 1) as nat));
                assert(0 <= id * shape[k as int]) by (nonlinear_arith)
                    requires
                        id >= 0,
                        shape[k as int] >= 0,
                ;
            }
            id = id * (ks[k] as usize) + g;
            k = k + 1;
        }
        proof {
            law_flat_is_bounded(shape, want, n);
            law_flat_is_bounded(ext, at, n);
            law_coord_inverts_flat(ext, at, n);
            assert(at.take(n as int) =~= at);
        }
        out.push(id);
        more = next_coord(&mut coord, &extents);
        proof {
            law_flat_is_bounded(ext, ints(coord@), n);
        }
    }
    out
}

proof fn lemma_flat_zero(shape: Seq<usize>, coord: Seq<int>, n: nat)
    requires
        forall|k: int| 0 <= k < n ==> #[trigger] coord[k] == 0,
    ensures
        flat_of(shape, coord, n) == 0,
    decreases n,
{
    if n > 0 {
        lemma_flat_zero(shape, coord, (n - 1) as nat);
        assert(coord[n - 1] == 0);
    }
}

/// The merged coordinate of a row in a table.
pub open spec fn merged_coord(t: CorrectionTable, data: Seq<Vec<u8>>, row: int) -> Seq<int> {
    Seq::new(t.axes@.len(), |k: int| merged_cell(t, data, k, row) as int)
}

/// Written back to merged cells, a solution gives every row the coefficient of
/// the coarse cell that it activated: serving and fitting read the same one.
pub proof fn law_expansion_serves_what_was_fitted(
    t: CorrectionTable,
    data: Seq<Vec<u8>>,
    cap: u32,
    row: int,
)
    requires
        t.wf(),
        forall|k: int|
            0 <= k < t.axes@.len() ==> (#[trigger] merged_cell(t, data, k, row)) < t.shape@[k],
    ensures
        coarse_of(
            t,
            cap,
            flat_of(merged_shape(t), merged_coord(t, data, row), t.axes@.len()),
        ) == flat_of(coarse_shape(t, cap), coarse_coord(t, data, cap, row), t.axes@.len()),
{
    let n = t.axes@.len();
    let ext = merged_shape(t);
    let at = merged_coord(t, data, row);
    assert forall|k: int| 0 <= k < ext.len() implies 0 <= #[trigger] at[k] < ext[k] by {
        assert(merged_cell(t, data, k, row) < t.shape@[k]);
    }
    law_coord_inverts_flat(ext, at, n);
    assert(at.take(n as int) =~= at);
    assert(grouped(t, cap, at) =~= coarse_coord(t, data, cap, row));
}

/// The rows with a positive weight, up to `n`.
pub open spec fn weighted_rows(weight: Seq<F64>, n: nat) -> Seq<usize>
    decreases n,
{
    if n == 0 {
        Seq::empty()
    } else {
        let before = weighted_rows(weight, (n - 1) as nat);
        if weight[n - 1].positive() {
            before.push((n - 1) as usize)
        } else {
            before
        }
    }
}

/// Rows with their scrambles.
pub open spec fn row_keys(rows: Seq<usize>) -> Seq<(u64, u64)> {
    rows.map_values(|r: usize| (scrambled(r as u64), r as u64))
}

/// Whether these are the rows that a fit uses: those with a positive weight, or,
/// where these are too many, the ones with the smallest scrambles; in ascending
/// order.
pub open spec fn is_fit_rows(rows: Seq<usize>, weight: Seq<F64>, max: usize) -> bool {
    let all = weighted_rows(weight, weight.len());
    &&& if all.len() <= max {
        rows == all
    } else {
        rows.map_values(|r: usize| r as u64) == smallest(row_keys(all), max as int)
    }
    &&& forall|i: int|
        0 <= i < rows.len() ==> (#[trigger] rows[i]) < weight.len()
            && weight[rows[i] as int].positive()
}

/// The rows that a fit uses.
pub fn fit_rows(weight: &Vec<F64>, max: usize) -> (rows: Vec<usize>)
    ensures
        is_fit_rows(rows@, weight@, max),
{
    let mut all: Vec<usize> = Vec::new();
    let mut i: usize = 0;
    while i < weight.len()
        invariant
            i <= weight.len(),
            all@ == weighted_rows(weight@, i as nat),
            forall|j: int|
                0 <= j < all@.len() ==> (#[trigger] all@[j]) < i
                    && weight@[all@[j] as int].positive(),
        decreases weight.len() - i,
    {
        if weight[i].is_positive() {
            all.push(i);
        }
        i = i + 1;
    }
    if all.len() <= max {
        return all;
    }
    let ghost want = row_keys(all@);
    let mut keyed: Vec<(u64, u64)> = Vec::with_capacity(all.len());
    let mut k: usize = 0;
    while k < all.len()
        invariant
            k <= all.len(),
            want == row_keys(all@),
            keyed@.len() == k,
            forall|j: int| 0 <= j < k ==> #[trigger] keyed@[j] == want[j],
        decreases all.len() - k,
    {
        let r: u64 = all[k] as u64;
        keyed.push((splitmix64(r), r));
        k = k + 1;
    }
    assert(keyed@ =~= want);
    let picked = smallest_items(keyed, max);
    let mut rows: Vec<usize> = Vec::with_capacity(max);
    let mut j: usize = 0;
    while j < max
        invariant
            j <= max,
            picked@.len() == max,
            want == row_keys(all@),
            forall|q: int|
                0 <= q < all@.len() ==> (#[trigger] all@[q]) < weight@.len()
                    && weight@[all@[q] as int].positive(),
            forall|q: int| 0 <= q < max ==> crate::engine::rows::is_item(want, #[trigger] picked@[q]),
            rows@.len() == j,
            forall|q: int|
                0 <= q < j ==> (#[trigger] rows@[q]) as u64 == picked@[q] && rows@[q] < weight@.len()
                    && weight@[rows@[q] as int].positive(),
        decreases max - j,
    {
        proof {
            assert(crate::engine::rows::is_item(want, picked@[j as int]));
            let q = choose|q: int| 0 <= q < want.len() && (#[trigger] want[q]).1 == picked@[j as int];
            assert(all@[q] as u64 == picked@[j as int]);
            assert(all@[q] < weight@.len());
        }
        rows.push(picked[j] as usize);
        j = j + 1;
    }
    assert(rows@.map_values(|r: usize| r as u64) =~= picked@);
    rows
}

/// Why weights do not fit the residuals.
pub open spec fn weight_len_fault(n_weights: nat, n_rows: nat) -> Option<Fault> {
    if n_weights != n_rows {
        Some(
            Fault::ShapeMismatch(
                "cell-refit sample_weight len "@ + dec(n_weights) + " != residual len "@ + dec(n_rows),
            ),
        )
    } else {
        None
    }
}

/// Checks that there is one weight per residual.
pub fn check_weights(n_weights: usize, n_rows: usize) -> (r: Result<(), PbError>)
    ensures
        answers(r, weight_len_fault(n_weights as nat, n_rows as nat)),
{
    if n_weights != n_rows {
        let mut what = with_number(
            "cell-refit sample_weight len ",
            n_weights as u64,
            " != residual len ",
        );
        what.append(decimal(n_rows as u64).as_str());
        return Err(PbError::ShapeMismatch { what });
    }
    Ok(())
}

/// What a cell correction is fitted to.
#[derive(Debug, Clone, PartialEq)]
pub struct FitProblem {
    /// The rows of the fit.
    pub rows: Vec<usize>,
    /// The weight of each of them.
    pub weight: Vec<F64>,
    /// The residual of each of them.
    pub target: Vec<F64>,
}

/// Whether values are those of some rows, in their order.
pub open spec fn is_taken(out: Seq<F64>, values: Seq<F64>, rows: Seq<usize>) -> bool {
    &&& out.len() == rows.len()
    &&& forall|i: int| 0 <= i < rows.len() ==> #[trigger] out[i] == values[rows[i] as int]
}

/// Whether a problem holds the rows of a fit with their weights and residuals.
pub open spec fn is_fit_problem(
    p: FitProblem,
    residual: Seq<F64>,
    weight: Seq<F64>,
    max: usize,
) -> bool {
    &&& is_fit_rows(p.rows@, weight, max)
    &&& is_taken(p.weight@, weight, p.rows@)
    &&& is_taken(p.target@, residual, p.rows@)
}

/// The values of some rows.
fn take_rows(values: &Vec<F64>, rows: &Vec<usize>) -> (out: Vec<F64>)
    requires
        forall|i: int| 0 <= i < rows@.len() ==> (#[trigger] rows@[i]) < values@.len(),
    ensures
        is_taken(out@, values@, rows@),
{
    let mut out: Vec<F64> = Vec::with_capacity(rows.len());
    let mut i: usize = 0;
    while i < rows.len()
        invariant
            i <= rows.len(),
            forall|j: int| 0 <= j < rows@.len() ==> (#[trigger] rows@[j]) < values@.len(),
            out@.len() == i,
            forall|j: int| 0 <= j < i ==> #[trigger] out@[j] == values@[rows@[j] as int],
        decreases rows.len() - i,
    {
        assert(rows@[i as int] < values@.len());
        out.push(values[rows[i]]);
        i = i + 1;
    }
    out
}

/// Gathers what a cell correction is fitted to.
pub fn fit_problem(residual: &Vec<F64>, weight: &Vec<F64>, max: usize) -> (r: Result<
    FitProblem,
    PbError,
>)
    ensures
        answers(r, weight_len_fault(weight@.len(), residual@.len())),
        r is Ok ==> is_fit_problem(r->Ok_0, residual@, weight@, max),
{
    match check_weights(weight.len(), residual.len()) {
        Err(e) => Err(e),
        Ok(()) => {
            let rows = fit_rows(weight, max);
            let w = take_rows(weight, &rows);
            let target = take_rows(residual, &rows);
            Ok(FitProblem { rows, weight: w, target })
        },
    }
}

/// The residuals of rows without weight are not read: two sets of residuals that
/// differ in such rows alone give the same fit.
pub proof fn law_weightless_residuals_are_not_read(
    p: FitProblem,
    q: FitProblem,
    first: Seq<F64>,
    second: Seq<F64>,
    weight: Seq<F64>,
    max: usize,
)
    requires
        is_fit_problem(p, first, weight, max),
        is_fit_problem(q, second, weight, max),
        first.len() == weight.len(),
        second.len() == weight.len(),
        forall|r: int|
            0 <= r < weight.len() && (#[trigger] weight[r]).positive() ==> first[r] == second[r],
    ensures
        p.rows@ == q.rows@,
        p.weight@ == q.weight@,
        p.target@ == q.target@,
{
    let a = p.rows@.map_values(|r: usize| r as u64);
    let b = q.rows@.map_values(|r: usize| r as u64);
    if weighted_rows(weight, weight.len()).len() > max {
        assert(a.len() == b.len());
        assert forall|i: int| 0 <= i < p.rows@.len() implies p.rows@[i] == q.rows@[i] by {
            assert(a[i] == b[i]);
        }
    }
    assert(p.rows@ =~= q.rows@);
    assert(p.weight@ =~= q.weight@);
    assert(p.target@ =~= q.target@);
}

/// The merged coordinate of a row in a table.
pub open spec fn served_coord(t: CorrectionTable, row_bins: Seq<u8>) -> Seq<int> {
    Seq::new(
        t.axes@.len(),
        |k: int| t.bin_to_cell@[k]@[row_bins[t.axes@[k] as int] as int] as int,
    )
}

/// Why a row has no merged cell on an axis of a table.
pub open spec fn served_axis_fault(t: CorrectionTable, row_bins: Seq<u8>, k: int) -> Option<Fault> {
    if t.axes@[k] >= row_bins.len() || row_bins[t.axes@[k] as int]
        >= t.bin_to_cell@[k]@.len() {
        Some(Fault::ShapeMismatch("correction row is outside the table's axes"@))
    } else if served_coord(t, row_bins)[k] >= t.shape@[k] {
        Some(Fault::ShapeMismatch("correction cell is out of range"@))
    } else {
        None
    }
}

/// Why a row has no value in a table.
pub open spec fn served_fault(t: CorrectionTable, row_bins: Seq<u8>) -> Option<Fault> {
    let axes = first_fault(
        |k: int| served_axis_fault(t, row_bins, k),
        0,
        t.axes@.len() as int,
    );
    if axes is Some {
        axes
    } else if flat_of(merged_shape(t), served_coord(t, row_bins), t.axes@.len())
        >= t.values@.len() {
        Some(Fault::ShapeMismatch("correction cell is out of range"@))
    } else {
        None
    }
}

/// A coordinate within the shape does not move down when axes are added.
proof fn lemma_flat_grows(shape: Seq<usize>, coord: Seq<int>, k: nat, n: nat)
    requires
        k <= n <= shape.len(),
        in_range(coord, shape),
    ensures
        0 <= flat_of(shape, coord, k) <= flat_of(shape, coord, n),
    decreases n,
{
    law_flat_is_bounded(shape, coord, k);
    if k < n {
        let m = (n - 1) as nat;
        lemma_flat_grows(shape, coord, k, m);
        assert(0 <= coord[m as int] < shape[m as int]);
        let f = flat_of(shape, coord, m);
        assert(f * (shape[m as int] as int) >= f) by (nonlinear_arith)
            requires
                f >= 0,
                shape[m as int] >= 1,
        ;
    }
}

/// The value of a row in a table: the index of its merged cell.
pub fn correction_cell(t: &CorrectionTable, row_bins: &Vec<u8>) -> (r: Result<usize, PbError>)
    requires
        t.wf(),
    ensures
        answers(r, served_fault(*t, row_bins@)),
        r is Ok ==> r->Ok_0 as int == flat_of(
            merged_shape(*t),
            served_coord(*t, row_bins@),
            t.axes@.len(),
        ) && r->Ok_0 < t.values@.len(),
{
    let ghost f = |k: int| served_axis_fault(*t, row_bins@, k);
    let ghost n = t.axes@.len();
    let ghost shape = merged_shape(*t);
    let ghost coord = served_coord(*t, row_bins@);
    let order: usize = t.axes.len();
    let mut k: usize = 0;
    while k < order
        invariant
            k <= order,
            order == n,
            n == t.axes@.len(),
            t.wf(),
            f == (|k: int| served_axis_fault(*t, row_bins@, k)),
            forall|j: int| 0 <= j < k ==> (#[trigger] f(j)) is None,
        decreases order - k,
    {
        proof {
            lemma_first_fault(f, 0, k as int, n as int);
        }
        let axis: usize = t.axes[k] as usize;
        if axis >= row_bins.len() || row_bins[axis] as usize >= t.bin_to_cell[k].len() {
            assert(f(k as int) is Some);
            return Err(shape_mismatch("correction row is outside the table's axes"));
        }
        if t.bin_to_cell[k][row_bins[axis] as usize] >= t.shape[k] {
            assert(f(k as int) is Some);
            return Err(shape_mismatch("correction cell is out of range"));
        }
        assert(f(k as int) is None);
        k = k + 1;
    }
    proof {
        lemma_first_fault(f, 0, n as int, n as int);
        assert forall|j: int| 0 <= j < shape.len() implies 0 <= #[trigger] coord[j] < shape[j] by {
            assert(f(j) is None);
        }
    }
    let mut flat: usize = 0;
    let mut a: usize = 0;
    while a < order
        invariant
            a <= order,
            order == n,
            n == t.axes@.len(),
            t.wf(),
            shape == merged_shape(*t),
            coord == served_coord(*t, row_bins@),
            in_range(coord, shape),
            f == (|k: int| served_axis_fault(*t, row_bins@, k)),
            forall|j: int| 0 <= j < n ==> (#[trigger] f(j)) is None,
            first_fault(f, 0, n as int) is None,
            flat as int == flat_of(shape, coord, a as nat),
        decreases order - a,
    {
        assert(f(a as int) is None);
        let axis: usize = t.axes[a] as usize;
        let cell: usize = t.bin_to_cell[a][row_bins[axis] as usize] as usize;
        let extent: usize = t.shape[a] as usize;
        assert(flat_of(shape, coord, (a + 1) as nat) == flat * extent + cell);
        proof {
            lemma_flat_grows(shape, coord, (a + 1) as nat, n);
            assert(flat * extent >= 0) by (nonlinear_arith);
        }
        let next: Option<usize> = match flat.checked_mul(extent) {
            Some(m) => m.checked_add(cell),
            None => None,
        };
        match next {
            Some(v) => {
                flat = v;
            },
            None => {
                assert(flat_of(shape, coord, n) > usize::MAX);
                assert(t.values.len() == t.values@.len());
                return Err(shape_mismatch("correction cell is out of range"));
            },
        }
        a = a + 1;
    }
    if flat >= t.values.len() {
        return Err(shape_mismatch("correction cell is out of range"));
    }
    Ok(flat)
}

/// Serving reads the cell that was fitted: a row of the data is served from the
/// merged cell that the design counted it in.
pub proof fn law_serving_reads_the_fitted_cell(
    t: CorrectionTable,
    data: Seq<Vec<u8>>,
    row_bins: Seq<u8>,
    row: int,
)
    requires
        t.wf(),
        forall|k: int|
            0 <= k < t.axes@.len() ==> row_bins[(#[trigger] t.axes@[k]) as int]
                == data[t.axes@[k] as int]@[row],
    ensures
        served_coord(t, row_bins) == merged_coord(t, data, row),
{
    let (a, b) = (served_coord(t, row_bins), merged_coord(t, data, row));
    assert forall|k: int| 0 <= k < t.axes@.len() implies #[trigger] a[k] == b[k] by {
        assert(row_bins[t.axes@[k] as int] == data[t.axes@[k] as int]@[row]);
    }
    assert(a =~= b);
}

/// Cells are merged into as many groups as the cap allows, one for each while
/// they are no more, and one at the least.
pub proof fn law_groups_keep_the_cap(m: nat, cap: nat)
    ensures
        group_count(m, cap) >= 1,
        m >= 1 && cap >= 1 ==> group_count(m, cap) <= m && group_count(m, cap) <= cap,
        1 <= m <= cap ==> group_count(m, cap) == m,
        1 <= cap <= m ==> group_count(m, cap) == cap,
        m == 0 || cap == 0 ==> group_count(m, cap) == 1,
{
}

/// Groups share the cells evenly: a cell goes to the group that holds its share of
/// all cells.
pub proof fn law_groups_share_the_cells_evenly(c: nat, m: nat, k: nat)
    requires
        c < m,
    ensures
        group_of(c, m, k) * m <= c * k,
        c * k < (group_of(c, m, k) + 1) * m,
{
    let x = (c * k) as int;
    let d = m as int;
    vstd::arithmetic::div_mod::lemma_fundamental_div_mod(x, d);
    let q = x / d;
    assert(q * d == d * q && (q + 1) * d == d * q + d) by (nonlinear_arith);
}

/// A main effect keeps all its merged cells; the axes of a pair are merged down to
/// the cap.
pub proof fn law_mains_keep_their_cells(t: CorrectionTable, k: int, cap: u32)
    requires
        t.wf(),
        0 <= k < t.axes@.len(),
        t.shape@[k] >= 1,
        cap >= 1,
    ensures
        t.axes@.len() == 1 ==> coarse_shape(t, cap)[k] == t.shape@[k],
        t.axes@.len() > 1 && t.shape@[k] <= cap ==> coarse_shape(t, cap)[k] == t.shape@[k],
        t.axes@.len() > 1 && t.shape@[k] > cap ==> coarse_shape(t, cap)[k] == cap,
{
}

/// A fit reads the rows that weigh more than nothing: all of them while they are
/// no more than the limit, and otherwise as many as the limit, those with the
/// smallest scrambled numbers.
pub proof fn law_fit_rows_are_the_weighted_ones(
    rows: Seq<usize>,
    weight: Seq<F64>,
    max: usize,
    a: int,
    b: int,
)
    requires
        is_fit_rows(rows, weight, max),
        weight.len() <= usize::MAX,
        0 <= a < weight.len(),
        0 <= b < weight.len(),
    ensures
        ({
            let n = weight.filter(|w: F64| w.positive()).len();
            &&& n <= max ==> rows.len() == n && (rows.contains(a as usize) <==> weight[a].positive())
            &&& n > max ==> rows.len() == max
            &&& rows.contains(a as usize) ==> weight[a].positive()
            &&& rows.contains(a as usize) && weight[b].positive() && !rows.contains(b as usize)
                ==> scrambled(a as u64) <= scrambled(b as u64)
        }),
{
    let all = weighted_rows(weight, weight.len());
    lemma_weighted_rows(weight, weight.len());
    assert(weight.take(weight.len() as int) =~= weight);
    if rows.contains(a as usize) {
        let i = choose|i: int| 0 <= i < rows.len() && rows[i] == a as usize;
        assert(weight[rows[i] as int].positive());
    }
    if all.len() > max {
        let keyed = row_keys(all);
        let wide = rows.map_values(|r: usize| r as u64);
        assert forall|i: int, j: int| 0 <= i < j < keyed.len() implies keyed[i].1 != keyed[j].1 by {
            assert(all[i] < all[j]);
        }
        law_taken_items_have_the_smallest_keys(keyed, max as int, 0, 0);
        assert(wide.len() == rows.len());
        if rows.contains(a as usize) && weight[b].positive() && !rows.contains(b as usize) {
            assert(all.contains(a as usize) && all.contains(b as usize));
            let p = choose|p: int| 0 <= p < all.len() && all[p] == a as usize;
            let q = choose|q: int| 0 <= q < all.len() && all[q] == b as usize;
            let i = choose|i: int| 0 <= i < rows.len() && rows[i] == a as usize;
            assert(wide[i] == keyed[p].1);
            assert(wide.contains(keyed[p].1));
            if wide.contains(keyed[q].1) {
                let j = choose|j: int| 0 <= j < wide.len() && wide[j] == keyed[q].1;
                assert(rows[j] == b as usize);
            }
            law_taken_items_have_the_smallest_keys(keyed, max as int, p, q);
        }
    }
}

proof fn lemma_weighted_rows(weight: Seq<F64>, n: nat)
    requires
        n <= weight.len() <= usize::MAX,
    ensures
        weighted_rows(weight, n).len() == weight.take(n as int).filter(|w: F64| w.positive()).len(),
        forall|r: int|
            0 <= r < weight.len() ==> (#[trigger] weighted_rows(weight, n).contains(r as usize) <==> r
                < n && weight[r].positive()),
        forall|i: int, j: int|
            0 <= i < j < weighted_rows(weight, n).len() ==> weighted_rows(weight, n)[i]
                < weighted_rows(weight, n)[j],
        forall|i: int|
            0 <= i < weighted_rows(weight, n).len() ==> (#[trigger] weighted_rows(weight, n)[i]) < n,
    decreases n,
{
    reveal(Seq::filter);
    let out = weighted_rows(weight, n);
    if n > 0 {
        lemma_weighted_rows(weight, (n - 1) as nat);
        let before = weighted_rows(weight, (n - 1) as nat);
        assert(weight.take(n as int).drop_last() =~= weight.take(n - 1));
        assert forall|r: int| 0 <= r < weight.len() implies (#[trigger] out.contains(r as usize) <==> r
            < n && weight[r].positive()) by {
            if before.contains(r as usize) {
                let i = choose|i: int| 0 <= i < before.len() && before[i] == r as usize;
                assert(out[i] == r as usize);
            }
            if r == n - 1 && weight[r].positive() {
                assert(out[out.len() - 1] == r as usize);
            }
            if out.contains(r as usize) {
                let i = choose|i: int| 0 <= i < out.len() && out[i] == r as usize;
                if i < before.len() {
                    assert(before[i] == r as usize);
                    assert(before.contains(r as usize));
                }
            }
        }
    }
}

/// A row has a cell on an axis exactly when the column has the row, the axis has a
/// cell for its bin, and the table has that cell.
pub proof fn law_read_rows_have_cells(
    t: CorrectionTable,
    data: Seq<Vec<u8>>,
    rows: Seq<usize>,
    k: int,
)
    requires
        0 <= k < t.axes@.len(),
    ensures
        axis_fault(t, data, rows, k) is None <==> t.axes@[k] < data.len() && forall|i: int|
            0 <= i < rows.len() ==> {
                let col = data[t.axes@[k] as int]@;
                &&& (#[trigger] rows[i]) < col.len()
                &&& col[rows[i] as int] < t.bin_to_cell@[k]@.len()
                &&& t.bin_to_cell@[k]@[col[rows[i] as int] as int] < t.shape@[k]
            },
        read_fault(t, data, rows) is None ==> axis_fault(t, data, rows, k) is None,
        (forall|j: int|
            0 <= j < t.axes@.len() ==> #[trigger] axis_fault(t, data, rows, j) is None) ==> read_fault(
            t,
            data,
            rows,
        ) is None,
{
    let f = |i: int| cell_fault(t, data, k, rows[i] as int);
    lemma_no_fault(f, rows.len() as int);
    let col = data[t.axes@[k] as int]@;
    if forall|i: int| 0 <= i < rows.len() ==> (#[trigger] f(i)) is None {
        assert forall|i: int| 0 <= i < rows.len() implies (#[trigger] rows[i]) < col.len()
            && col[rows[i] as int] < t.bin_to_cell@[k]@.len()
            && t.bin_to_cell@[k]@[col[rows[i] as int] as int] < t.shape@[k] by {
            assert(f(i) is None);
        }
    } else {
        let i = choose|i: int| 0 <= i < rows.len() && !((#[trigger] f(i)) is None);
        assert(rows[i] == rows[i]);
    }
    let g = |j: int| axis_fault(t, data, rows, j);
    lemma_no_fault(g, t.axes@.len() as int);
    if read_fault(t, data, rows) is None {
        assert(g(k) is None);
    }
}

/// A design is laid out exactly when no table has more columns than 16 bits count,
/// the columns before each are counted by 32 bits and all of them fit, and every
/// table can be read.
pub proof fn law_laid_out_designs_fit(
    tables: Seq<CorrectionTable>,
    data: Seq<Vec<u8>>,
    rows: Seq<usize>,
    cap: u32,
)
    ensures
        design_fault(tables, data, rows, cap) is None <==> {
            &&& forall|t: int|
                #![trigger tables[t]]
                0 <= t < tables.len() ==> {
                    &&& cells(coarse_shape(tables[t], cap), tables[t].axes@.len()) <= 0xffff
                    &&& offset_of(tables, cap, t as nat) <= 0xffff_ffff
                    &&& offset_of(tables, cap, (t + 1) as nat) <= usize::MAX
                }
            &&& forall|t: int|
                0 <= t < tables.len() ==> read_fault(#[trigger] tables[t], data, rows) is None
        },
{
    let f = |t: int| layout_fault(tables, cap, t);
    let g = |t: int| read_fault(tables[t], data, rows);
    lemma_no_fault(f, tables.len() as int);
    lemma_no_fault(g, tables.len() as int);
    if forall|t: int| 0 <= t < tables.len() ==> (#[trigger] f(t)) is None {
        assert forall|t: int| #![trigger tables[t]] 0 <= t < tables.len() implies cells(
            coarse_shape(tables[t], cap),
            tables[t].axes@.len(),
        ) <= 0xffff && offset_of(tables, cap, t as nat) <= 0xffff_ffff && offset_of(
            tables,
            cap,
            (t + 1) as nat,
        ) <= usize::MAX by {
            assert(f(t) is None);
        }
    } else {
        let t = choose|t: int| 0 <= t < tables.len() && !((#[trigger] f(t)) is None);
        assert(tables[t] == tables[t]);
    }
    if forall|t: int| 0 <= t < tables.len() ==> (#[trigger] g(t)) is None {
        assert forall|t: int| 0 <= t < tables.len() implies read_fault(
            #[trigger] tables[t],
            data,
            rows,
        ) is None by {
            assert(g(t) is None);
        }
    } else {
        let t = choose|t: int| 0 <= t < tables.len() && !((#[trigger] g(t)) is None);
        assert(!(read_fault(tables[t], data, rows) is None));
    }
}

/// In a design every row has one column of each table, within those of the table,
/// and tables follow one another without a gap.
pub proof fn law_designs_give_rows_their_columns(
    d: Design,
    tables: Seq<CorrectionTable>,
    data: Seq<Vec<u8>>,
    rows: Seq<usize>,
    cap: u32,
    t: int,
    i: int,
)
    requires
        is_design(d, tables, data, rows, cap),
        0 <= t < tables.len(),
        0 <= i < rows.len(),
    ensures
        d.active@[t]@.len() == rows.len(),
        d.active@[t]@[i] < d.term_cols@[t],
        d.active@[t]@[i] == flat_of(
            coarse_shape(tables[t], cap),
            coarse_coord(tables[t], data, cap, rows[i] as int),
            tables[t].axes@.len(),
        ),
        t == 0 ==> d.col_offset@[t] == 0,
        t > 0 ==> d.col_offset@[t] == d.col_offset@[t - 1] + d.term_cols@[t - 1],
        t == tables.len() - 1 ==> d.n_cols == d.col_offset@[t] + d.term_cols@[t],
        d.col_term@[d.col_offset@[t] + d.active@[t]@[i]] == t,
{
    assert(term_ok(d, tables, cap, t));
    assert(active_ok(d.active@[t]@, tables[t], data, rows, cap));
    if t > 0 {
        assert(term_ok(d, tables, cap, t - 1));
    }
    let c = d.col_offset@[t] + d.active@[t]@[i];
    assert(owns(tables, cap, t, c));
    lemma_offsets_rise(tables, cap, (t + 1) as nat, tables.len());
    let u = d.col_term@[c] as int;
    assert(owns(tables, cap, u, c));
    law_columns_have_one_owner(tables, cap, t, u, c);
}

/// Columns of later tables come later.
proof fn lemma_offsets_rise(tables: Seq<CorrectionTable>, cap: u32, m: nat, n: nat)
    requires
        m <= n,
    ensures
        offset_of(tables, cap, m) <= offset_of(tables, cap, n),
    decreases n,
{
    if m < n {
        lemma_offsets_rise(tables, cap, m, (n - 1) as nat);
    }
}

/// A row is corrected exactly when its bins have cells on every axis of the table and
/// the table has a value there; weights are read exactly when there is one per row.
pub proof fn law_corrected_rows_have_cells(t: CorrectionTable, row_bins: Seq<u8>, n: nat, m: nat)
    ensures
        served_fault(t, row_bins) is None <==> {
            &&& forall|k: int|
                #![trigger t.axes@[k]]
                0 <= k < t.axes@.len() ==> {
                    &&& t.axes@[k] < row_bins.len()
                    &&& row_bins[t.axes@[k] as int] < t.bin_to_cell@[k]@.len()
                    &&& t.bin_to_cell@[k]@[row_bins[t.axes@[k] as int] as int] < t.shape@[k]
                }
            &&& flat_of(merged_shape(t), served_coord(t, row_bins), t.axes@.len()) < t.values@.len()
        },
        weight_len_fault(n, m) is None <==> n == m,
{
    let f = |k: int| served_axis_fault(t, row_bins, k);
    lemma_no_fault(f, t.axes@.len() as int);
    if forall|k: int| 0 <= k < t.axes@.len() ==> (#[trigger] f(k)) is None {
        assert forall|k: int| #![trigger t.axes@[k]] 0 <= k < t.axes@.len() implies t.axes@[k]
            < row_bins.len() && row_bins[t.axes@[k] as int] < t.bin_to_cell@[k]@.len()
            && t.bin_to_cell@[k]@[row_bins[t.axes@[k] as int] as int] < t.shape@[k] by {
            assert(f(k) is None);
        }
    } else {
        let k = choose|k: int| 0 <= k < t.axes@.len() && !((#[trigger] f(k)) is None);
        assert(t.axes@[k] == t.axes@[k]);
    }
}

/// In a design the merged cells of every axis have their groups: a group for each
/// cell, below the number of groups, rising with the cells.
pub proof fn law_designs_group_the_cells(
    d: Design,
    tables: Seq<CorrectionTable>,
    data: Seq<Vec<u8>>,
    rows: Seq<usize>,
    cap: u32,
    t: int,
    k: int,
    c: int,
)
    requires
        is_design(d, tables, data, rows, cap),
        0 <= t < tables.len(),
        0 <= k < coarse_shape(tables[t], cap).len(),
        0 <= c < tables[t].shape@[k],
    ensures
        d.groups@.len() == tables.len() && d.coarse_shape@.len() == tables.len(),
        d.groups@[t]@.len() == d.coarse_shape@[t]@.len(),
        d.groups@[t]@[k]@.len() == tables[t].shape@[k],
        d.groups@[t]@[k]@[c] < d.coarse_shape@[t]@[k],
        c > 0 ==> d.groups@[t]@[k]@[c - 1] <= d.groups@[t]@[k]@[c],
{
    assert(term_ok(d, tables, cap, t));
    let shape = coarse_shape(tables[t], cap);
    let g = d.groups@[t]@[k]@;
    assert(is_grouping(g, tables[t].shape@[k], shape[k]));
    assert(g[c] < shape[k]);
    assert(d.coarse_shape@[t]@[k] as usize == shape[k]);
    if c > 0 {
        assert(g[c - 1] as nat == group_of(
            (c - 1) as nat,
            tables[t].shape@[k] as nat,
            shape[k] as nat,
        ));
        law_groups_are_monotone(
            (c - 1) as nat,
            c as nat,
            tables[t].shape@[k] as nat,
            shape[k] as nat,
        );
    }
}

} // verus!
