//! Mapping values to bins, and assembling binned matrices.
use crate::cat::{
    encoder_at, encoding_name, encoding_text, level_views, lookup_fault, served, CatEncoder,
    CatEncoderStore, TsConfig, TsEncodingId,
};
use crate::cat::fisher::{border_grid_fault, encoder_text, level_borders, ordered_levels};
use crate::data::grid::{
    borders_below, check_grid, count_below, grid_fault, lemma_borders_below, lemma_borders_below_is,
    opt_view,
};
use crate::data::{
    bin_config_fault, borders_ascend, copy_grids, copy_provenance, feature_name, feature_text,
    grid_views, AxisKind, AxisProvenance, BinConfig, BinnedMatrix, BorderGrid, FeatureId, GridView,
    ServeBinnedMatrix, TrainBinnedMatrix,
};
use crate::error::{
    answers, first_fault, internal, invalid_input, lemma_all_none, lemma_first_fault, lemma_no_fault,
    shape_mismatch, Fault, PbError,
};
use crate::float::F32;
use crate::labels::texts;
use crate::text::{dec, decimal, with_number};
use crate::values::{is_midpoint, law_midpoint_lies_between};
use vstd::prelude::*;

verus! {

/// A raw numeric column.
#[derive(Debug, Clone, Copy)]
pub struct NumericColumn<'a> {
    pub raw: FeatureId,
    /// One value per row.
    pub values: &'a Vec<F32>,
}

/// A raw categorical column to be fitted.
#[derive(Debug, Clone, Copy)]
pub struct CategoricalColumn<'a> {
    pub raw: FeatureId,
    pub id: TsEncodingId,
    /// One label per row.
    pub levels: &'a Vec<String>,
    pub config: &'a TsConfig,
}

/// A raw categorical column to be encoded with a fitted encoder.
#[derive(Debug, Clone, Copy)]
pub struct ServeCategoricalColumn<'a> {
    pub raw: FeatureId,
    pub id: TsEncodingId,
    /// One label per row.
    pub levels: &'a Vec<String>,
}

/// The result of fitting and binning mixed columns.
#[derive(Debug, Clone, PartialEq)]
pub struct FittedBinnedData {
    /// Binned with encodings that never saw the row's own target.
    pub train: TrainBinnedMatrix,
    /// Binned with the frozen encodings.
    pub serve: ServeBinnedMatrix,
    pub cat_encoders: CatEncoderStore,
}

/// What fitting one categorical column gives.
#[derive(Debug, Clone, PartialEq)]
pub struct CatFit {
    pub encoder: CatEncoder,
    /// The numbers midway between neighbouring encodings, in the order of the
    /// levels.
    pub mids: Vec<F32>,
    /// The training encoding of each row.
    pub train_encoded: Vec<F32>,
}

/// The bin of a value: the missing bin for NaN, and otherwise one more than the
/// number of borders below the value.
pub open spec fn bin_of(v: F32, g: GridView) -> int {
    if v.nan() {
        g.missing_bin as int
    } else {
        borders_below(g.borders, v) as int + 1
    }
}

/// Why a value has no bin.
pub open spec fn bin_fault(v: F32, g: GridView) -> Option<Fault> {
    if bin_of(v, g) > u8::MAX {
        Some(Fault::Internal("bin index exceeded u8 (borders.len() > 253?)"@))
    } else {
        None
    }
}

/// The bin of a value.
pub fn bin(v: F32, g: &BorderGrid) -> (r: Result<u8, PbError>)
    requires
        borders_ascend(g.borders@),
    ensures
        answers(r, bin_fault(v, g@)),
        r is Ok ==> r->Ok_0 as int == bin_of(v, g@),
{
    if v.is_nan() {
        return Ok(g.missing_bin);
    }
    let k: usize = count_below(&g.borders, v);
    if k >= 255 {
        return Err(internal("bin index exceeded u8 (borders.len() > 253?)"));
    }
    Ok((k + 1) as u8)
}

/// A larger value never falls into a lower bin.
pub proof fn law_bin_is_monotone(v: F32, w: F32, g: GridView)
    requires
        borders_ascend(g.borders),
        v.at_most(w),
    ensures
        bin_of(v, g) <= bin_of(w, g),
{
    lemma_borders_below(g.borders, v);
    lemma_borders_below(g.borders, w);
    let a = borders_below(g.borders, v) as int;
    let b = borders_below(g.borders, w) as int;
    if a > b {
        assert(g.borders[b].below(v));
        assert(!g.borders[b].below(w));
    }
}

/// On a finished grid, numbers fall into the data bins, and only NaN is missing.
pub proof fn law_only_nan_is_missing(v: F32, g: BorderGrid)
    requires
        g.wf(),
    ensures
        v.nan() <==> bin_of(v, g@) == g.missing_bin,
        !v.nan() ==> 1 <= bin_of(v, g@) < g.n_bins,
{
    lemma_borders_below(g.borders@, v);
}

/// A grid of at most 253 borders has a bin for every value.
pub proof fn law_small_grids_bin_every_value(v: F32, g: BorderGrid)
    requires
        g.wf(),
        g.borders@.len() <= 253,
    ensures
        bin_fault(v, g@) is None,
{
    law_only_nan_is_missing(v, g);
}

/// Borders between neighbouring values give each value a bin of its own.
pub proof fn law_midpoints_separate_values(values: Seq<F32>, g: GridView, i: int)
    requires
        borders_ascend(g.borders),
        values.len() == g.borders.len() + 1,
        forall|k: int|
            0 <= k < g.borders.len() ==> values[k].at_most(#[trigger] g.borders[k])
                && g.borders[k].below(values[k + 1]),
        0 <= i < values.len(),
        !values[i].nan(),
    ensures
        bin_of(values[i], g) == i + 1,
{
    assert(i > 0 ==> g.borders[i - 1].below(values[i - 1 + 1]));
    lemma_borders_below_is(g.borders, values[i], i as nat);
}

/// Values at least two steps apart, with their rounded midpoints as borders, get a
/// bin each.
pub proof fn law_rounded_midpoints_separate_values(values: Seq<F32>, g: GridView, i: int)
    requires
        borders_ascend(g.borders),
        values.len() == g.borders.len() + 1,
        forall|k: int| 0 <= k < values.len() ==> (#[trigger] values[k]).finite(),
        forall|k: int|
            0 <= k < g.borders.len() ==> values[k].key() + 2 <= values[k + 1].key() && is_midpoint(
                #[trigger] g.borders[k],
                values[k],
                values[k + 1],
            ),
        0 <= i < values.len(),
    ensures
        bin_of(values[i], g) == i + 1,
{
    assert forall|k: int| 0 <= k < g.borders.len() implies values[k].at_most(
        #[trigger] g.borders[k],
    ) && g.borders[k].below(values[k + 1]) by {
        assert(values[k].finite() && values[k + 1].finite());
        assert(is_midpoint(g.borders[k], values[k], values[k + 1]));
        law_midpoint_lies_between(g.borders[k], values[k], values[k + 1]);
    }
    assert(values[i].finite());
    law_midpoints_separate_values(values, g, i);
}

/// Values in one data bin lie between the same borders.
pub proof fn law_bin_is_between_borders(v: F32, g: GridView, i: int)
    requires
        borders_ascend(g.borders),
        !v.nan(),
        0 <= i < g.borders.len(),
    ensures
        g.borders[i].below(v) <==> i + 1 < bin_of(v, g),
{
    lemma_borders_below(g.borders, v);
}

/// The first fault of a column.
pub open spec fn values_fault(values: Seq<F32>, g: GridView) -> Option<Fault> {
    first_fault(|i: int| bin_fault(values[i], g), 0, values.len() as int)
}

/// Whether `out` holds the bins of `values`.
pub open spec fn is_binned(out: Seq<u8>, values: Seq<F32>, g: GridView) -> bool {
    &&& out.len() == values.len()
    &&& forall|i: int| 0 <= i < values.len() ==> (#[trigger] out[i]) as int == bin_of(values[i], g)
}

/// The bins of a column.
pub fn bin_values(values: &Vec<F32>, grid: &BorderGrid) -> (r: Result<Vec<u8>, PbError>)
    requires
        borders_ascend(grid.borders@),
    ensures
        answers(r, values_fault(values@, grid@)),
        r is Ok ==> is_binned(r->Ok_0@, values@, grid@),
{
    let ghost f = |i: int| bin_fault(values@[i], grid@);
    let mut out: Vec<u8> = Vec::with_capacity(values.len());
    let mut i: usize = 0;
    while i < values.len()
        invariant
            i <= values.len(),
            borders_ascend(grid.borders@),
            f == (|i: int| bin_fault(values@[i], grid@)),
            out@.len() == i,
            forall|j: int| 0 <= j < i ==> (#[trigger] f(j)) is None,
            forall|j: int| 0 <= j < i ==> (#[trigger] out@[j]) as int == bin_of(values@[j], grid@),
        decreases values.len() - i,
    {
        proof {
            lemma_first_fault(f, 0, i as int, values@.len() as int);
        }
        match bin(values[i], grid) {
            Ok(b) => {
                assert(f(i as int) is None);
                out.push(b);
            },
            Err(e) => {
                assert(f(i as int) is Some);
                return Err(e);
            },
        }
        i = i + 1;
    }
    proof {
        lemma_first_fault(f, 0, values@.len() as int, values@.len() as int);
    }
    Ok(out)
}

/// The contents of columns.
pub open spec fn col_views(columns: Seq<Vec<F32>>) -> Seq<Seq<F32>> {
    columns.map_values(|c: Vec<F32>| c@)
}

/// The number of rows of columns: the length of the first.
pub open spec fn rows_of(columns: Seq<Seq<F32>>) -> nat {
    if columns.len() == 0 {
        0
    } else {
        columns[0].len()
    }
}

/// Why columns are refused before any grid is built.
pub open spec fn columns_fault(
    columns: Seq<Seq<F32>>,
    weight: Option<Seq<F32>>,
    cfg: BinConfig,
) -> Option<Fault> {
    let n = rows_of(columns);
    let weights = first_fault(
        |f: int| grid_fault(columns[f], weight, cfg),
        0,
        columns.len() as int,
    );
    if bin_config_fault(cfg) is Some {
        bin_config_fault(cfg)
    } else if exists|f: int| 0 <= f < columns.len() && (#[trigger] columns[f]).len() != n {
        Some(Fault::ShapeMismatch("feature columns have unequal lengths"@))
    } else if weight is Some && weight->0.len() != n {
        Some(
            Fault::ShapeMismatch("weight len "@ + dec(weight->0.len()) + " != n_rows "@ + dec(n)),
        )
    } else if n > u32::MAX {
        Some(Fault::InvalidInput("more than u32::MAX rows is out of scope for v1"@))
    } else {
        weights
    }
}

/// Checks columns before their grids are built, and gives the number of rows.
pub fn check_columns(columns: &Vec<Vec<F32>>, weight: Option<&Vec<F32>>, cfg: &BinConfig) -> (r:
    Result<u32, PbError>)
    ensures
        answers(r, columns_fault(col_views(columns@), opt_view(weight), *cfg)),
        r is Ok ==> r->Ok_0 == rows_of(col_views(columns@)),
{
    match cfg.validate() {
        Err(e) => return Err(e),
        Ok(()) => {},
    }
    let ghost views = col_views(columns@);
    let n_rows: usize = if columns.len() == 0 {
        0
    } else {
        columns[0].len()
    };
    assert(columns@.len() > 0 ==> views[0] == columns@[0]@);
    let mut f: usize = 0;
    while f < columns.len()
        invariant
            f <= columns.len(),
            views == col_views(columns@),
            n_rows == rows_of(views),
            bin_config_fault(*cfg) is None,
            forall|g: int| 0 <= g < f ==> (#[trigger] views[g]).len() == n_rows,
        decreases columns.len() - f,
    {
        assert(views[f as int] == columns@[f as int]@);
        if columns[f].len() != n_rows {
            return Err(shape_mismatch("feature columns have unequal lengths"));
        }
        f = f + 1;
    }
    match weight {
        Some(w) => {
            if w.len() != n_rows {
                let mut what = with_number("weight len ", w.len() as u64, " != n_rows ");
                what.append(decimal(n_rows as u64).as_str());
                return Err(PbError::ShapeMismatch { what });
            }
        },
        None => {},
    }
    if n_rows as u64 > 0xffff_ffff {
        return Err(invalid_input("more than u32::MAX rows is out of scope for v1"));
    }
    let ghost gf = |f: int| grid_fault(views[f], opt_view(weight), *cfg);
    let mut c: usize = 0;
    while c < columns.len()
        invariant
            c <= columns.len(),
            views == col_views(columns@),
            n_rows == rows_of(views),
            n_rows <= u32::MAX,
            bin_config_fault(*cfg) is None,
            forall|g: int| 0 <= g < columns.len() ==> (#[trigger] views[g]).len() == n_rows,
            opt_view(weight) is Some ==> opt_view(weight)->0.len() == n_rows,
            gf == (|f: int| grid_fault(views[f], opt_view(weight), *cfg)),
            forall|g: int| 0 <= g < c ==> (#[trigger] gf(g)) is None,
        decreases columns.len() - c,
    {
        proof {
            lemma_first_fault(gf, 0, c as int, views.len() as int);
            assert(views[c as int] == columns@[c as int]@);
        }
        match check_grid(&columns[c], weight, cfg) {
            Ok(()) => {
                assert(gf(c as int) is None);
            },
            Err(e) => {
                assert(gf(c as int) is Some);
                return Err(e);
            },
        }
        c = c + 1;
    }
    proof {
        lemma_first_fault(gf, 0, views.len() as int, views.len() as int);
    }
    Ok(n_rows as u32)
}

/// Why column `f` cannot be binned.
pub open spec fn column_fault(
    columns: Seq<Seq<F32>>,
    grids: Seq<GridView>,
    f: int,
) -> Option<Fault> {
    if f > u32::MAX {
        Some(Fault::Internal("feature index exceeded u32"@))
    } else {
        values_fault(columns[f], grids[f])
    }
}

/// Why columns are refused once their grids are known.
pub open spec fn bin_columns_fault(
    columns: Seq<Seq<F32>>,
    weight: Option<Seq<F32>>,
    cfg: BinConfig,
    grids: Seq<GridView>,
) -> Option<Fault> {
    if columns_fault(columns, weight, cfg) is Some {
        columns_fault(columns, weight, cfg)
    } else {
        first_fault(|f: int| column_fault(columns, grids, f), 0, columns.len() as int)
    }
}

/// Bins numeric columns on their grids. Column `f` becomes axis `f`, a numeric
/// axis of raw feature `f`.
pub fn bin_columns(
    columns: &Vec<Vec<F32>>,
    weight: Option<&Vec<F32>>,
    cfg: &BinConfig,
    grids: &Vec<BorderGrid>,
) -> (r: Result<BinnedMatrix, PbError>)
    requires
        grids@.len() == columns@.len(),
        forall|f: int| 0 <= f < grids@.len() ==> borders_ascend((#[trigger] grids@[f]).borders@),
    ensures
        answers(
            r,
            bin_columns_fault(col_views(columns@), opt_view(weight), *cfg, grid_views(grids@)),
        ),
        r is Ok ==> {
            let m = r->Ok_0;
            &&& m.n_rows == rows_of(col_views(columns@))
            &&& grid_views(m.grids@) == grid_views(grids@)
            &&& m.data@.len() == columns@.len()
            &&& m.provenance@.len() == columns@.len()
            &&& forall|f: int|
                0 <= f < columns@.len() ==> is_binned(
                    (#[trigger] m.data@[f])@,
                    columns@[f]@,
                    grids@[f]@,
                )
            &&& forall|f: int|
                0 <= f < columns@.len() ==> #[trigger] m.provenance@[f] == (AxisProvenance {
                    raw: FeatureId(f as u32),
                    kind: AxisKind::Numeric,
                })
        },
{
    let n_rows: u32 = match check_columns(columns, weight, cfg) {
        Ok(n) => n,
        Err(e) => return Err(e),
    };
    let ghost cols = col_views(columns@);
    let ghost gs = grid_views(grids@);
    let ghost fault = |f: int| column_fault(cols, gs, f);
    let mut data: Vec<Vec<u8>> = Vec::with_capacity(columns.len());
    let mut provenance: Vec<AxisProvenance> = Vec::with_capacity(columns.len());
    let mut f: usize = 0;
    while f < columns.len()
        invariant
            f <= columns.len(),
            grids@.len() == columns@.len(),
            forall|g: int| 0 <= g < grids@.len() ==> borders_ascend((#[trigger] grids@[g]).borders@),
            cols == col_views(columns@),
            gs == grid_views(grids@),
            columns_fault(cols, opt_view(weight), *cfg) is None,
            fault == (|f: int| column_fault(cols, gs, f)),
            forall|g: int| 0 <= g < f ==> (#[trigger] fault(g)) is None,
            data@.len() == f,
            provenance@.len() == f,
            forall|g: int|
                0 <= g < f ==> is_binned((#[trigger] data@[g])@, columns@[g]@, grids@[g]@),
            forall|g: int|
                0 <= g < f ==> #[trigger] provenance@[g] == (AxisProvenance {
                    raw: FeatureId(g as u32),
                    kind: AxisKind::Numeric,
                }),
        decreases columns.len() - f,
    {
        proof {
            lemma_first_fault(fault, 0, f as int, cols.len() as int);
            assert(cols[f as int] == columns@[f as int]@);
            assert(gs[f as int] == grids@[f as int]@);
        }
        if f as u64 > 0xffff_ffff {
            assert(fault(f as int) is Some);
            return Err(internal("feature index exceeded u32"));
        }
        match bin_values(&columns[f], &grids[f]) {
            Ok(b) => {
                assert(fault(f as int) is None);
                data.push(b);
            },
            Err(e) => {
                assert(fault(f as int) is Some);
                return Err(e);
            },
        }
        provenance.push(AxisProvenance { raw: FeatureId(f as u32), kind: AxisKind::Numeric });
        f = f + 1;
    }
    proof {
        lemma_first_fault(fault, 0, cols.len() as int, cols.len() as int);
    }
    Ok(BinnedMatrix { data, n_rows, grids: copy_grids(grids), provenance })
}

/// The number of rows of the columns to serve: that of the first column.
pub open spec fn serve_rows(numeric: Seq<NumericColumn>, cats: Seq<ServeCategoricalColumn>) -> nat {
    if numeric.len() > 0 {
        numeric[0].values@.len()
    } else if cats.len() > 0 {
        cats[0].levels@.len()
    } else {
        0
    }
}

/// Why the columns to serve do not agree on a number of rows.
pub open spec fn serve_rows_fault(
    numeric: Seq<NumericColumn>,
    cats: Seq<ServeCategoricalColumn>,
) -> Option<Fault> {
    let n = serve_rows(numeric, cats);
    if exists|i: int| 0 <= i < numeric.len() && (#[trigger] numeric[i]).values@.len() != n {
        Some(Fault::ShapeMismatch("serve numeric columns have unequal lengths"@))
    } else if exists|i: int| 0 <= i < cats.len() && (#[trigger] cats[i]).levels@.len() != n {
        Some(Fault::ShapeMismatch("serve categorical columns have unequal lengths"@))
    } else {
        None
    }
}

/// The number of rows of the columns to serve.
fn infer_serve_n_rows(
    numeric: &Vec<NumericColumn<'_>>,
    categorical: &Vec<ServeCategoricalColumn<'_>>,
) -> (r: Result<usize, PbError>)
    ensures
        answers(r, serve_rows_fault(numeric@, categorical@)),
        r is Ok ==> r->Ok_0 == serve_rows(numeric@, categorical@),
{
    let n: usize = if numeric.len() > 0 {
        numeric[0].values.len()
    } else if categorical.len() > 0 {
        categorical[0].levels.len()
    } else {
        0
    };
    let mut i: usize = 0;
    while i < numeric.len()
        invariant
            i <= numeric.len(),
            n == serve_rows(numeric@, categorical@),
            forall|j: int| 0 <= j < i ==> (#[trigger] numeric@[j]).values@.len() == n,
        decreases numeric.len() - i,
    {
        if numeric[i].values.len() != n {
            return Err(shape_mismatch("serve numeric columns have unequal lengths"));
        }
        i = i + 1;
    }
    let mut k: usize = 0;
    while k < categorical.len()
        invariant
            k <= categorical.len(),
            n == serve_rows(numeric@, categorical@),
            forall|j: int| 0 <= j < numeric@.len() ==> (#[trigger] numeric@[j]).values@.len() == n,
            forall|j: int| 0 <= j < k ==> (#[trigger] categorical@[j]).levels@.len() == n,
        decreases categorical.len() - k,
    {
        if categorical[k].levels.len() != n {
            return Err(shape_mismatch("serve categorical columns have unequal lengths"));
        }
        k = k + 1;
    }
    Ok(n)
}

/// The positions, among the first `n`, of the numeric columns of a raw feature.
pub open spec fn numeric_hits(cols: Seq<NumericColumn>, raw: FeatureId, n: nat) -> Seq<int>
    decreases n,
{
    if n == 0 {
        Seq::empty()
    } else {
        let hits = numeric_hits(cols, raw, (n - 1) as nat);
        if cols[n - 1].raw == raw {
            hits.push(n - 1)
        } else {
            hits
        }
    }
}

/// The positions, among the first `n`, of the categorical columns of a raw
/// feature and an encoding.
pub open spec fn cat_hits(
    cols: Seq<ServeCategoricalColumn>,
    raw: FeatureId,
    id: TsEncodingId,
    n: nat,
) -> Seq<int>
    decreases n,
{
    if n == 0 {
        Seq::empty()
    } else {
        let hits = cat_hits(cols, raw, id, (n - 1) as nat);
        if cols[n - 1].raw == raw && cols[n - 1].id == id {
            hits.push(n - 1)
        } else {
            hits
        }
    }
}

/// Why there is not exactly one numeric column of a raw feature.
pub open spec fn find_numeric_fault(cols: Seq<NumericColumn>, raw: FeatureId) -> Option<Fault> {
    let hits = numeric_hits(cols, raw, cols.len());
    if hits.len() == 0 {
        Some(Fault::ShapeMismatch("missing numeric raw column "@ + feature_text(raw)))
    } else if hits.len() > 1 {
        Some(Fault::ShapeMismatch("duplicate numeric raw column "@ + feature_text(raw)))
    } else {
        None
    }
}

/// Why there is not exactly one categorical column of a raw feature and an
/// encoding.
pub open spec fn find_cat_fault(
    cols: Seq<ServeCategoricalColumn>,
    raw: FeatureId,
    id: TsEncodingId,
) -> Option<Fault> {
    let hits = cat_hits(cols, raw, id, cols.len());
    if hits.len() == 0 {
        Some(
            Fault::ShapeMismatch(
                "missing categorical raw/id column "@ + feature_text(raw) + "/"@ + encoding_text(id),
            ),
        )
    } else if hits.len() > 1 {
        Some(
            Fault::ShapeMismatch(
                "duplicate categorical raw/id column "@ + feature_text(raw) + "/"@ + encoding_text(id),
            ),
        )
    } else {
        None
    }
}

proof fn lemma_numeric_hits(cols: Seq<NumericColumn>, raw: FeatureId, n: nat, m: nat)
    requires
        n <= m <= cols.len(),
    ensures
        numeric_hits(cols, raw, n).len() <= numeric_hits(cols, raw, m).len(),
    decreases m,
{
    if n < m {
        lemma_numeric_hits(cols, raw, n, (m - 1) as nat);
    }
}

proof fn lemma_cat_hits(
    cols: Seq<ServeCategoricalColumn>,
    raw: FeatureId,
    id: TsEncodingId,
    n: nat,
    m: nat,
)
    requires
        n <= m <= cols.len(),
    ensures
        cat_hits(cols, raw, id, n).len() <= cat_hits(cols, raw, id, m).len(),
    decreases m,
{
    if n < m {
        lemma_cat_hits(cols, raw, id, n, (m - 1) as nat);
    }
}

/// The position of the only numeric column of a raw feature.
fn find_numeric_column(columns: &Vec<NumericColumn<'_>>, raw: FeatureId) -> (r: Result<
    usize,
    PbError,
>)
    ensures
        answers(r, find_numeric_fault(columns@, raw)),
        r is Ok ==> r->Ok_0 < columns@.len() && r->Ok_0 as int == numeric_hits(
            columns@,
            raw,
            columns@.len(),
        )[0],
{
    let mut found: Option<usize> = None;
    let mut i: usize = 0;
    while i < columns.len()
        invariant
            i <= columns.len(),
            numeric_hits(columns@, raw, i as nat) == (match found {
                Some(p) => seq![p as int],
                None => Seq::<int>::empty(),
            }),
            found is Some ==> found->0 < columns@.len(),
        decreases columns.len() - i,
    {
        if columns[i].raw == raw {
            if found.is_some() {
                proof {
                    lemma_numeric_hits(columns@, raw, (i + 1) as nat, columns@.len());
                }
                let mut what = String::from_str("duplicate numeric raw column ");
                what.append(feature_name(raw).as_str());
                return Err(PbError::ShapeMismatch { what });
            }
            found = Some(i);
            assert(Seq::<int>::empty().push(i as int) =~= seq![i as int]);
        }
        i = i + 1;
    }
    match found {
        Some(p) => Ok(p),
        None => {
            let mut what = String::from_str("missing numeric raw column ");
            what.append(feature_name(raw).as_str());
            Err(PbError::ShapeMismatch { what })
        },
    }
}

/// The position of the only categorical column of a raw feature and an encoding.
fn find_categorical_column(
    columns: &Vec<ServeCategoricalColumn<'_>>,
    raw: FeatureId,
    id: TsEncodingId,
) -> (r: Result<usize, PbError>)
    ensures
        answers(r, find_cat_fault(columns@, raw, id)),
        r is Ok ==> r->Ok_0 < columns@.len() && r->Ok_0 as int == cat_hits(
            columns@,
            raw,
            id,
            columns@.len(),
        )[0],
{
    let mut found: Option<usize> = None;
    let mut i: usize = 0;
    while i < columns.len()
        invariant
            i <= columns.len(),
            cat_hits(columns@, raw, id, i as nat) == (match found {
                Some(p) => seq![p as int],
                None => Seq::<int>::empty(),
            }),
            found is Some ==> found->0 < columns@.len(),
        decreases columns.len() - i,
    {
        if columns[i].raw == raw && columns[i].id == id {
            if found.is_some() {
                proof {
                    lemma_cat_hits(columns@, raw, id, (i + 1) as nat, columns@.len());
                }
                let mut what = String::from_str("duplicate categorical raw/id column ");
                what.append(feature_name(raw).as_str());
                what.append("/");
                what.append(encoding_name(id).as_str());
                return Err(PbError::ShapeMismatch { what });
            }
            found = Some(i);
            assert(Seq::<int>::empty().push(i as int) =~= seq![i as int]);
        }
        i = i + 1;
    }
    match found {
        Some(p) => Ok(p),
        None => {
            let mut what = String::from_str("missing categorical raw/id column ");
            what.append(feature_name(raw).as_str());
            what.append("/");
            what.append(encoding_name(id).as_str());
            Err(PbError::ShapeMismatch { what })
        },
    }
}

/// The values that an axis bins when serving: the raw values of a numeric axis,
/// the frozen encodings of a categorical one.
pub open spec fn serve_values(
    numeric: Seq<NumericColumn>,
    cats: Seq<ServeCategoricalColumn>,
    prov: AxisProvenance,
    store: Seq<CatEncoder>,
) -> Seq<F32> {
    match prov.kind {
        AxisKind::Numeric => numeric[numeric_hits(numeric, prov.raw, numeric.len())[0]].values@,
        AxisKind::CategoricalTS { encoding } => {
            let e = store[encoder_at(store, encoding, prov.raw, 0)];
            let labels = cats[cat_hits(cats, prov.raw, encoding, cats.len())[0]].levels@;
            served(level_views(e.levels@), e.base, texts(labels))
        },
        AxisKind::Missing => Seq::empty(),
    }
}

/// Why an axis cannot be served.
pub open spec fn serve_axis_fault(
    numeric: Seq<NumericColumn>,
    cats: Seq<ServeCategoricalColumn>,
    grids: Seq<GridView>,
    provenance: Seq<AxisProvenance>,
    store: Seq<CatEncoder>,
    axis: int,
) -> Option<Fault> {
    let prov = provenance[axis];
    let raw = prov.raw;
    match prov.kind {
        AxisKind::Numeric => if find_numeric_fault(numeric, raw) is Some {
            find_numeric_fault(numeric, raw)
        } else {
            values_fault(serve_values(numeric, cats, prov, store), grids[axis])
        },
        AxisKind::CategoricalTS { encoding } => if find_cat_fault(cats, raw, encoding) is Some {
            find_cat_fault(cats, raw, encoding)
        } else if lookup_fault(store, encoding, raw) is Some {
            lookup_fault(store, encoding, raw)
        } else {
            values_fault(serve_values(numeric, cats, prov, store), grids[axis])
        },
        AxisKind::Missing => Some(
            Fault::InvalidInput(
                "serve axis "@ + dec(axis as nat)
                    + " is a standalone Missing axis; unsupported in v1"@,
            ),
        ),
    }
}

/// Why columns cannot be served.
pub open spec fn serve_fault(
    numeric: Seq<NumericColumn>,
    cats: Seq<ServeCategoricalColumn>,
    grids: Seq<GridView>,
    provenance: Seq<AxisProvenance>,
    store: Seq<CatEncoder>,
) -> Option<Fault> {
    let axes = first_fault(
        |axis: int| serve_axis_fault(numeric, cats, grids, provenance, store, axis),
        0,
        provenance.len() as int,
    );
    if grids.len() != provenance.len() {
        Some(
            Fault::ShapeMismatch(
                "serve grids len "@ + dec(grids.len()) + " != provenance len "@ + dec(
                    provenance.len(),
                ),
            ),
        )
    } else if serve_rows_fault(numeric, cats) is Some {
        serve_rows_fault(numeric, cats)
    } else if axes is Some {
        axes
    } else if serve_rows(numeric, cats) > u32::MAX {
        Some(Fault::InvalidInput("more than u32::MAX rows is out of scope for v1"@))
    } else {
        None
    }
}

/// Bins one axis for serving.
fn serve_axis(
    numeric: &Vec<NumericColumn<'_>>,
    categorical: &Vec<ServeCategoricalColumn<'_>>,
    grids: &Vec<BorderGrid>,
    provenance: &Vec<AxisProvenance>,
    cat_encoders: &CatEncoderStore,
    axis: usize,
) -> (r: Result<Vec<u8>, PbError>)
    requires
        axis < provenance@.len(),
        grids@.len() == provenance@.len(),
        borders_ascend(grids@[axis as int].borders@),
    ensures
        answers(
            r,
            serve_axis_fault(
                numeric@,
                categorical@,
                grid_views(grids@),
                provenance@,
                cat_encoders.list(),
                axis as int,
            ),
        ),
        r is Ok ==> is_binned(
            r->Ok_0@,
            serve_values(numeric@, categorical@, provenance@[axis as int], cat_encoders.list()),
            grids@[axis as int]@,
        ),
{
    let prov = provenance[axis];
    let grid = &grids[axis];
    assert(grid_views(grids@)[axis as int] == grid@);
    match prov.kind {
        AxisKind::Numeric => {
            match find_numeric_column(numeric, prov.raw) {
                Ok(p) => bin_values(numeric[p].values, grid),
                Err(e) => Err(e),
            }
        },
        AxisKind::CategoricalTS { encoding } => {
            let p: usize = match find_categorical_column(categorical, prov.raw, encoding) {
                Ok(p) => p,
                Err(e) => return Err(e),
            };
            match cat_encoders.get(encoding, prov.raw) {
                Ok(encoder) => {
                    let encoded = encoder.serve_labels(categorical[p].levels);
                    bin_values(&encoded, grid)
                },
                Err(e) => Err(e),
            }
        },
        AxisKind::Missing => {
            let what = with_number(
                "serve axis ",
                axis as u64,
                " is a standalone Missing axis; unsupported in v1",
            );
            Err(PbError::InvalidInput { what })
        },
    }
}

/// Whether a matrix holds the columns, binned for serving.
pub open spec fn is_served(
    m: BinnedMatrix,
    numeric: Seq<NumericColumn>,
    cats: Seq<ServeCategoricalColumn>,
    grids: Seq<GridView>,
    provenance: Seq<AxisProvenance>,
    store: Seq<CatEncoder>,
) -> bool {
    &&& m.n_rows == serve_rows(numeric, cats)
    &&& grid_views(m.grids@) == grids
    &&& m.provenance@ == provenance
    &&& m.data@.len() == provenance.len()
    &&& forall|axis: int|
        0 <= axis < provenance.len() ==> is_binned(
            (#[trigger] m.data@[axis])@,
            serve_values(numeric, cats, provenance[axis], store),
            grids[axis],
        )
}

/// Bins raw columns on the grids of a fitted model: numeric values directly,
/// labels through the frozen encoders.
pub fn bin_serve_columns(
    numeric: &Vec<NumericColumn<'_>>,
    categorical: &Vec<ServeCategoricalColumn<'_>>,
    grids: &Vec<BorderGrid>,
    provenance: &Vec<AxisProvenance>,
    cat_encoders: &CatEncoderStore,
) -> (r: Result<ServeBinnedMatrix, PbError>)
    requires
        forall|f: int| 0 <= f < grids@.len() ==> borders_ascend((#[trigger] grids@[f]).borders@),
    ensures
        answers(
            r,
            serve_fault(
                numeric@,
                categorical@,
                grid_views(grids@),
                provenance@,
                cat_encoders.list(),
            ),
        ),
        r is Ok ==> is_served(
            r->Ok_0.0,
            numeric@,
            categorical@,
            grid_views(grids@),
            provenance@,
            cat_encoders.list(),
        ),
{
    if grids.len() != provenance.len() {
        let mut what = with_number("serve grids len ", grids.len() as u64, " != provenance len ");
        what.append(decimal(provenance.len() as u64).as_str());
        return Err(PbError::ShapeMismatch { what });
    }
    let n_rows: usize = match infer_serve_n_rows(numeric, categorical) {
        Ok(n) => n,
        Err(e) => return Err(e),
    };
    let ghost gs = grid_views(grids@);
    let ghost fault = |axis: int|
        serve_axis_fault(
            numeric@,
            categorical@,
            gs,
            provenance@,
            cat_encoders.list(),
            axis,
        );
    let mut data: Vec<Vec<u8>> = Vec::with_capacity(provenance.len());
    let mut axis: usize = 0;
    while axis < provenance.len()
        invariant
            axis <= provenance.len(),
            grids@.len() == provenance@.len(),
            forall|f: int| 0 <= f < grids@.len() ==> borders_ascend((#[trigger] grids@[f]).borders@),
            gs == grid_views(grids@),
            fault == (|axis: int|
                serve_axis_fault(
                    numeric@,
                    categorical@,
                    gs,
                    provenance@,
                    cat_encoders.list(),
                    axis,
                )),
            serve_rows_fault(numeric@, categorical@) is None,
            forall|a: int| 0 <= a < axis ==> (#[trigger] fault(a)) is None,
            data@.len() == axis,
            forall|a: int|
                0 <= a < axis ==> is_binned(
                    (#[trigger] data@[a])@,
                    serve_values(numeric@, categorical@, provenance@[a], cat_encoders.list()),
                    grids@[a]@,
                ),
        decreases provenance.len() - axis,
    {
        proof {
            lemma_first_fault(fault, 0, axis as int, provenance@.len() as int);
        }
        match serve_axis(numeric, categorical, grids, provenance, cat_encoders, axis) {
            Ok(b) => {
                assert(fault(axis as int) is None);
                data.push(b);
            },
            Err(e) => {
                assert(fault(axis as int) is Some);
                return Err(e);
            },
        }
        axis = axis + 1;
    }
    proof {
        lemma_first_fault(fault, 0, provenance@.len() as int, provenance@.len() as int);
    }
    if n_rows as u64 > 0xffff_ffff {
        return Err(invalid_input("more than u32::MAX rows is out of scope for v1"));
    }
    Ok(
        ServeBinnedMatrix(
            BinnedMatrix {
                data,
                n_rows: n_rows as u32,
                grids: copy_grids(grids),
                provenance: copy_provenance(provenance),
            },
        ),
    )
}

/// Why optional row data is refused.
pub open spec fn row_data_fault(
    n_rows: nat,
    weight: Option<Seq<F32>>,
    exposure: Option<Seq<F32>>,
) -> Option<Fault> {
    if weight is Some && weight->0.len() != n_rows {
        Some(
            Fault::ShapeMismatch(
                "weight len "@ + dec(weight->0.len()) + " != n_rows "@ + dec(n_rows),
            ),
        )
    } else if exposure is Some && exposure->0.len() != n_rows {
        Some(
            Fault::ShapeMismatch(
                "exposure len "@ + dec(exposure->0.len()) + " != n_rows "@ + dec(n_rows),
            ),
        )
    } else {
        None
    }
}

/// Checks the lengths of optional row data.
fn validate_optional_row_data(
    n_rows: usize,
    weight: Option<&Vec<F32>>,
    exposure: Option<&Vec<F32>>,
) -> (r: Result<(), PbError>)
    ensures
        answers(r, row_data_fault(n_rows as nat, opt_view(weight), opt_view(exposure))),
{
    match weight {
        Some(w) => {
            if w.len() != n_rows {
                let mut what = with_number("weight len ", w.len() as u64, " != n_rows ");
                what.append(decimal(n_rows as u64).as_str());
                return Err(PbError::ShapeMismatch { what });
            }
        },
        None => {},
    }
    match exposure {
        Some(e) => {
            if e.len() != n_rows {
                let mut what = with_number("exposure len ", e.len() as u64, " != n_rows ");
                what.append(decimal(n_rows as u64).as_str());
                return Err(PbError::ShapeMismatch { what });
            }
        },
        None => {},
    }
    Ok(())
}

/// Why a numeric training column is refused before its grid is built.
pub open spec fn numeric_column_fault(
    numeric: Seq<NumericColumn>,
    n: nat,
    weight: Option<Seq<F32>>,
    cfg: BinConfig,
    i: int,
) -> Option<Fault> {
    if numeric[i].values@.len() != n {
        Some(
            Fault::ShapeMismatch(
                "numeric raw "@ + feature_text(numeric[i].raw) + " len "@ + dec(
                    numeric[i].values@.len(),
                ) + " != n_rows "@ + dec(n),
            ),
        )
    } else {
        grid_fault(numeric[i].values@, weight, cfg)
    }
}

/// Whether an earlier column claims the same raw feature and encoding.
pub open spec fn claimed_before(cats: Seq<CategoricalColumn>, i: int) -> bool {
    exists|j: int|
        0 <= j < i && (#[trigger] cats[j]).raw == cats[i].raw && cats[j].id == cats[i].id
}

/// Why a categorical training column is refused.
pub open spec fn cat_column_fault(cats: Seq<CategoricalColumn>, n: nat, i: int) -> Option<Fault> {
    if cats[i].levels@.len() != n {
        Some(
            Fault::ShapeMismatch(
                "categorical raw "@ + feature_text(cats[i].raw) + " len "@ + dec(
                    cats[i].levels@.len(),
                ) + " != n_rows "@ + dec(n),
            ),
        )
    } else if claimed_before(cats, i) {
        Some(
            Fault::InvalidConfig(
                "duplicate categorical encoder "@ + encoding_text(cats[i].id) + " for raw "@
                    + feature_text(cats[i].raw),
            ),
        )
    } else {
        None
    }
}

/// Why numeric training columns are refused before their grids are built.
pub open spec fn numeric_columns_fault(
    numeric: Seq<NumericColumn>,
    n: nat,
    weight: Option<Seq<F32>>,
    exposure: Option<Seq<F32>>,
    cfg: BinConfig,
) -> Option<Fault> {
    if bin_config_fault(cfg) is Some {
        bin_config_fault(cfg)
    } else if row_data_fault(n, weight, exposure) is Some {
        row_data_fault(n, weight, exposure)
    } else if n > u32::MAX {
        Some(Fault::InvalidInput("more than u32::MAX rows is out of scope for v1"@))
    } else {
        first_fault(
            |i: int| numeric_column_fault(numeric, n, weight, cfg, i),
            0,
            numeric.len() as int,
        )
    }
}

/// Checks the row data and the numeric training columns before grids are built,
/// and gives the number of rows.
pub fn check_numeric_columns(
    numeric: &Vec<NumericColumn<'_>>,
    y: &Vec<F32>,
    weight: Option<&Vec<F32>>,
    exposure: Option<&Vec<F32>>,
    cfg: &BinConfig,
) -> (r: Result<u32, PbError>)
    ensures
        answers(
            r,
            numeric_columns_fault(
                numeric@,
                y@.len(),
                opt_view(weight),
                opt_view(exposure),
                *cfg,
            ),
        ),
        r is Ok ==> r->Ok_0 == y@.len(),
{
    match cfg.validate() {
        Err(e) => return Err(e),
        Ok(()) => {},
    }
    match validate_optional_row_data(y.len(), weight, exposure) {
        Err(e) => return Err(e),
        Ok(()) => {},
    }
    let n: usize = y.len();
    if n as u64 > 0xffff_ffff {
        return Err(invalid_input("more than u32::MAX rows is out of scope for v1"));
    }
    let ghost w = opt_view(weight);
    let ghost nf = |i: int| numeric_column_fault(numeric@, n as nat, w, *cfg, i);
    let mut i: usize = 0;
    while i < numeric.len()
        invariant
            i <= numeric.len(),
            w == opt_view(weight),
            nf == (|i: int| numeric_column_fault(numeric@, n as nat, w, *cfg, i)),
            n == y@.len(),
            n <= u32::MAX,
            bin_config_fault(*cfg) is None,
            row_data_fault(n as nat, opt_view(weight), opt_view(exposure)) is None,
            forall|j: int| 0 <= j < i ==> (#[trigger] nf(j)) is None,
        decreases numeric.len() - i,
    {
        proof {
            lemma_first_fault(nf, 0, i as int, numeric@.len() as int);
        }
        if numeric[i].values.len() != n {
            assert(nf(i as int) is Some);
            let mut what = String::from_str("numeric raw ");
            what.append(feature_name(numeric[i].raw).as_str());
            what.append(" len ");
            what.append(decimal(numeric[i].values.len() as u64).as_str());
            what.append(" != n_rows ");
            what.append(decimal(n as u64).as_str());
            return Err(PbError::ShapeMismatch { what });
        }
        match check_grid(numeric[i].values, weight, cfg) {
            Ok(()) => {
                assert(nf(i as int) is None);
            },
            Err(e) => {
                assert(nf(i as int) is Some);
                return Err(e);
            },
        }
        i = i + 1;
    }
    proof {
        lemma_first_fault(nf, 0, numeric@.len() as int, numeric@.len() as int);
    }
    Ok(n as u32)
}

/// Checks the categorical training columns, once the numeric ones have grids.
pub fn check_categorical_columns(categorical: &Vec<CategoricalColumn<'_>>, n: usize) -> (r: Result<
    (),
    PbError,
>)
    ensures
        answers(
            r,
            first_fault(
                |i: int| cat_column_fault(categorical@, n as nat, i),
                0,
                categorical@.len() as int,
            ),
        ),
{
    let ghost cf = |i: int| cat_column_fault(categorical@, n as nat, i);
    let mut k: usize = 0;
    while k < categorical.len()
        invariant
            k <= categorical.len(),
            cf == (|i: int| cat_column_fault(categorical@, n as nat, i)),
            forall|j: int| 0 <= j < k ==> (#[trigger] cf(j)) is None,
        decreases categorical.len() - k,
    {
        proof {
            lemma_first_fault(cf, 0, k as int, categorical@.len() as int);
        }
        let col = &categorical[k];
        if col.levels.len() != n {
            assert(cf(k as int) is Some);
            let mut what = String::from_str("categorical raw ");
            what.append(feature_name(col.raw).as_str());
            what.append(" len ");
            what.append(decimal(col.levels.len() as u64).as_str());
            what.append(" != n_rows ");
            what.append(decimal(n as u64).as_str());
            return Err(PbError::ShapeMismatch { what });
        }
        let mut j: usize = 0;
        while j < k
            invariant
                j <= k < categorical@.len(),
                *col == categorical@[k as int],
                categorical@[k as int].levels@.len() == n,
                cf == (|i: int| cat_column_fault(categorical@, n as nat, i)),
                first_fault(cf, 0, categorical@.len() as int) == first_fault(
                    cf,
                    k as int,
                    categorical@.len() as int,
                ),
                forall|i: int|
                    0 <= i < j ==> (#[trigger] categorical@[i]).raw != col.raw || categorical@[i].id
                        != col.id,
            decreases k - j,
        {
            if categorical[j].raw == col.raw && categorical[j].id == col.id {
                assert(claimed_before(categorical@, k as int));
                assert(cf(k as int) is Some);
                let mut what = String::from_str("duplicate categorical encoder ");
                what.append(encoding_name(col.id).as_str());
                what.append(" for raw ");
                what.append(feature_name(col.raw).as_str());
                return Err(PbError::InvalidConfig { what });
            }
            j = j + 1;
        }
        assert(cf(k as int) is None);
        k = k + 1;
    }
    proof {
        lemma_first_fault(cf, 0, categorical@.len() as int, categorical@.len() as int);
    }
    Ok(())
}

/// The serving encodings of a fitted column.
pub open spec fn fit_served(fit: CatFit, levels: Seq<String>) -> Seq<F32> {
    served(level_views(fit.encoder.levels@), fit.encoder.base, texts(levels))
}

/// The grid of a fitted column.
pub open spec fn fit_grid(fit: CatFit) -> GridView {
    let o = ordered_levels(level_views(fit.encoder.levels@));
    let borders = level_borders(o, fit.mids@, encoder_text(fit.encoder), o.len())->Ok_0;
    GridView { borders, n_bins: (borders.len() + 2) as u16, missing_bin: 0 }
}

/// Why a fitted column cannot be binned.
pub open spec fn fit_bin_fault(fit: CatFit, levels: Seq<String>) -> Option<Fault> {
    if border_grid_fault(fit.encoder, fit.mids@) is Some {
        border_grid_fault(fit.encoder, fit.mids@)
    } else if values_fault(fit.train_encoded@, fit_grid(fit)) is Some {
        values_fault(fit.train_encoded@, fit_grid(fit))
    } else {
        values_fault(fit_served(fit, levels), fit_grid(fit))
    }
}

/// Why training columns are refused once everything is fitted: numeric columns
/// first, then the categorical ones, then what was fitted to them.
pub open spec fn bin_train_fault(
    numeric: Seq<NumericColumn>,
    cats: Seq<CategoricalColumn>,
    n: nat,
    weight: Option<Seq<F32>>,
    exposure: Option<Seq<F32>>,
    cfg: BinConfig,
    grids: Seq<GridView>,
    fits: Seq<CatFit>,
) -> Option<Fault> {
    let before_grids = numeric_columns_fault(numeric, n, weight, exposure, cfg);
    let nums = first_fault(
        |i: int| values_fault(numeric[i].values@, grids[i]),
        0,
        numeric.len() as int,
    );
    let labels = first_fault(|i: int| cat_column_fault(cats, n, i), 0, cats.len() as int);
    if before_grids is Some {
        before_grids
    } else if nums is Some {
        nums
    } else if labels is Some {
        labels
    } else {
        first_fault(|i: int| fit_bin_fault(fits[i], cats[i].levels@), 0, cats.len() as int)
    }
}

/// What the fitted data of mixed columns looks like: numeric axes first, then
/// categorical ones, on the same grids for training and serving.
pub open spec fn is_fitted(
    d: FittedBinnedData,
    numeric: Seq<NumericColumn>,
    cats: Seq<CategoricalColumn>,
    n: nat,
    grids: Seq<GridView>,
    fits: Seq<CatFit>,
) -> bool {
    let t = d.train.0;
    let s = d.serve.0;
    let m = numeric.len() as int;
    &&& t.n_rows == n && s.n_rows == n
    &&& t.data@.len() == m + cats.len() && s.data@.len() == m + cats.len()
    &&& t.grids@.len() == m + cats.len()
    &&& t.provenance@.len() == m + cats.len()
    &&& grid_views(s.grids@) == grid_views(t.grids@)
    &&& s.provenance@ == t.provenance@
    &&& d.cat_encoders.list().len() == cats.len()
    &&& forall|i: int|
        0 <= i < s.grids@.len() ==> borders_ascend((#[trigger] s.grids@[i]).borders@)
    &&& forall|i: int|
        0 <= i < m ==> {
            &&& is_binned((#[trigger] t.data@[i])@, numeric[i].values@, grids[i])
            &&& s.data@[i]@ == t.data@[i]@
            &&& t.grids@[i]@ == grids[i]
            &&& t.provenance@[i] == (AxisProvenance { raw: numeric[i].raw, kind: AxisKind::Numeric })
        }
    &&& forall|i: int|
        0 <= i < cats.len() ==> {
            &&& is_binned(
                t.data@[m + i]@,
                (#[trigger] fits[i]).train_encoded@,
                fit_grid(fits[i]),
            )
            &&& is_binned(s.data@[m + i]@, fit_served(fits[i], cats[i].levels@), fit_grid(fits[i]))
            &&& t.grids@[m + i]@ == fit_grid(fits[i])
            &&& t.provenance@[m + i] == (AxisProvenance {
                raw: cats[i].raw,
                kind: AxisKind::CategoricalTS { encoding: cats[i].id },
            })
            &&& d.cat_encoders.list()[i] == fits[i].encoder
            &&& d.cat_encoders.list()[i].raw == cats[i].raw
            &&& d.cat_encoders.list()[i].id == cats[i].id
        }
}

/// A copy of bins.
fn copy_bins(b: &Vec<u8>) -> (v: Vec<u8>)
    ensures
        v@ == b@,
{
    let mut v: Vec<u8> = Vec::with_capacity(b.len());
    let mut i: usize = 0;
    while i < b.len()
        invariant
            i <= b.len(),
            v@ =~= b@.take(i as int),
        decreases b.len() - i,
    {
        v.push(b[i]);
        i = i + 1;
    }
    assert(b@.take(i as int) =~= b@);
    v
}

/// Bins mixed training columns, given the grids of the numeric columns and the
/// fits of the categorical ones.
pub fn bin_train_columns(
    numeric: &Vec<NumericColumn<'_>>,
    categorical: &Vec<CategoricalColumn<'_>>,
    y: &Vec<F32>,
    weight: Option<&Vec<F32>>,
    exposure: Option<&Vec<F32>>,
    cfg: &BinConfig,
    numeric_grids: &Vec<BorderGrid>,
    fits: Vec<CatFit>,
) -> (r: Result<FittedBinnedData, PbError>)
    requires
        numeric_grids@.len() == numeric@.len(),
        forall|i: int|
            0 <= i < numeric_grids@.len() ==> borders_ascend((#[trigger] numeric_grids@[i]).borders@),
        fits@.len() == categorical@.len(),
        forall|i: int|
            0 <= i < fits@.len() ==> (#[trigger] fits@[i]).mids@.len() + 1
                >= fits@[i].encoder.levels@.len() && fits@[i].encoder.raw == categorical@[i].raw
                && fits@[i].encoder.id == categorical@[i].id,
    ensures
        answers(
            r,
            bin_train_fault(
                numeric@,
                categorical@,
                y@.len(),
                opt_view(weight),
                opt_view(exposure),
                *cfg,
                grid_views(numeric_grids@),
                fits@,
            ),
        ),
        r is Ok ==> is_fitted(
            r->Ok_0,
            numeric@,
            categorical@,
            y@.len(),
            grid_views(numeric_grids@),
            fits@,
        ),
{
    let n_rows: u32 = match check_numeric_columns(numeric, y, weight, exposure, cfg) {
        Ok(n) => n,
        Err(e) => return Err(e),
    };
    let ghost gs = grid_views(numeric_grids@);
    let ghost all_fits = fits@;
    let ghost m = numeric@.len() as int;
    let ghost nf = |i: int| values_fault(numeric@[i].values@, gs[i]);
    let ghost cf = |i: int| fit_bin_fault(all_fits[i], categorical@[i].levels@);
    let mut train: Vec<Vec<u8>> = Vec::new();
    let mut serve: Vec<Vec<u8>> = Vec::new();
    let mut grids: Vec<BorderGrid> = Vec::new();
    let mut provenance: Vec<AxisProvenance> = Vec::new();
    let mut i: usize = 0;
    while i < numeric.len()
        invariant
            i <= numeric.len(),
            m == numeric@.len(),
            numeric_grids@.len() == numeric@.len(),
            forall|j: int|
                0 <= j < numeric_grids@.len() ==> borders_ascend(
                    (#[trigger] numeric_grids@[j]).borders@,
                ),
            gs == grid_views(numeric_grids@),
            nf == (|i: int| values_fault(numeric@[i].values@, gs[i])),
            numeric_columns_fault(
                numeric@,
                y@.len(),
                opt_view(weight),
                opt_view(exposure),
                *cfg,
            ) is None,
            forall|j: int| 0 <= j < i ==> (#[trigger] nf(j)) is None,
            train@.len() == i,
            serve@.len() == i,
            grids@.len() == i,
            provenance@.len() == i,
            forall|j: int| 0 <= j < i ==> borders_ascend((#[trigger] grids@[j]).borders@),
            forall|j: int|
                0 <= j < i ==> {
                    &&& is_binned((#[trigger] train@[j])@, numeric@[j].values@, gs[j])
                    &&& serve@[j]@ == train@[j]@
                    &&& grids@[j]@ == gs[j]
                    &&& provenance@[j] == (AxisProvenance {
                        raw: numeric@[j].raw,
                        kind: AxisKind::Numeric,
                    })
                },
        decreases numeric.len() - i,
    {
        proof {
            lemma_first_fault(nf, 0, i as int, numeric@.len() as int);
            assert(gs[i as int] == numeric_grids@[i as int]@);
        }
        match bin_values(numeric[i].values, &numeric_grids[i]) {
            Ok(b) => {
                assert(nf(i as int) is None);
                train.push(copy_bins(&b));
                serve.push(b);
            },
            Err(e) => {
                assert(nf(i as int) is Some);
                return Err(e);
            },
        }
        grids.push(numeric_grids[i].copied());
        provenance.push(AxisProvenance { raw: numeric[i].raw, kind: AxisKind::Numeric });
        i = i + 1;
    }
    proof {
        lemma_first_fault(nf, 0, numeric@.len() as int, numeric@.len() as int);
    }
    let ghost lf = |i: int| cat_column_fault(categorical@, y@.len(), i);
    match check_categorical_columns(categorical, y.len()) {
        Ok(()) => {},
        Err(e) => return Err(e),
    }
    let mut k: usize = 0;
    while k < categorical.len()
        invariant
            k <= categorical.len(),
            m == numeric@.len(),
            lf == (|i: int| cat_column_fault(categorical@, y@.len(), i)),
            first_fault(lf, 0, categorical@.len() as int) is None,
            gs == grid_views(numeric_grids@),
            fits@ == all_fits,
            fits@.len() == categorical@.len(),
            forall|j: int|
                0 <= j < fits@.len() ==> (#[trigger] fits@[j]).mids@.len() + 1
                    >= fits@[j].encoder.levels@.len() && fits@[j].encoder.raw
                    == categorical@[j].raw && fits@[j].encoder.id == categorical@[j].id,
            nf == (|i: int| values_fault(numeric@[i].values@, gs[i])),
            cf == (|i: int| fit_bin_fault(all_fits[i], categorical@[i].levels@)),
            numeric_columns_fault(
                numeric@,
                y@.len(),
                opt_view(weight),
                opt_view(exposure),
                *cfg,
            ) is None,
            first_fault(nf, 0, numeric@.len() as int) is None,
            forall|j: int| 0 <= j < k ==> (#[trigger] cf(j)) is None,
            train@.len() == m + k,
            serve@.len() == m + k,
            grids@.len() == m + k,
            provenance@.len() == m + k,
            forall|j: int| 0 <= j < m + k ==> borders_ascend((#[trigger] grids@[j]).borders@),
            forall|j: int|
                0 <= j < m ==> {
                    &&& is_binned((#[trigger] train@[j])@, numeric@[j].values@, gs[j])
                    &&& serve@[j]@ == train@[j]@
                    &&& grids@[j]@ == gs[j]
                    &&& provenance@[j] == (AxisProvenance {
                        raw: numeric@[j].raw,
                        kind: AxisKind::Numeric,
                    })
                },
            forall|j: int|
                0 <= j < k ==> {
                    &&& is_binned(
                        train@[m + j]@,
                        (#[trigger] all_fits[j]).train_encoded@,
                        fit_grid(all_fits[j]),
                    )
                    &&& is_binned(
                        serve@[m + j]@,
                        fit_served(all_fits[j], categorical@[j].levels@),
                        fit_grid(all_fits[j]),
                    )
                    &&& grids@[m + j]@ == fit_grid(all_fits[j])
                    &&& provenance@[m + j] == (AxisProvenance {
                        raw: categorical@[j].raw,
                        kind: AxisKind::CategoricalTS { encoding: categorical@[j].id },
                    })
                },
        decreases categorical.len() - k,
    {
        proof {
            lemma_first_fault(cf, 0, k as int, categorical@.len() as int);
        }
        let fit = &fits[k];
        let grid = match fit.encoder.border_grid(&fit.mids) {
            Ok(g) => g,
            Err(e) => {
                assert(cf(k as int) is Some);
                return Err(e);
            },
        };
        assert(grid@ == fit_grid(all_fits[k as int]));
        let train_bins = match bin_values(&fit.train_encoded, &grid) {
            Ok(b) => b,
            Err(e) => {
                assert(cf(k as int) is Some);
                return Err(e);
            },
        };
        let encoded = fit.encoder.serve_labels(categorical[k].levels);
        let serve_bins = match bin_values(&encoded, &grid) {
            Ok(b) => b,
            Err(e) => {
                assert(cf(k as int) is Some);
                return Err(e);
            },
        };
        assert(cf(k as int) is None);
        train.push(train_bins);
        serve.push(serve_bins);
        grids.push(grid);
        provenance.push(
            AxisProvenance {
                raw: categorical[k].raw,
                kind: AxisKind::CategoricalTS { encoding: categorical[k].id },
            },
        );
        k = k + 1;
    }
    proof {
        lemma_first_fault(cf, 0, categorical@.len() as int, categorical@.len() as int);
    }
    let encoders = take_encoders(fits);
    let serve_grids = copy_grids(&grids);
    let serve_provenance = copy_provenance(&provenance);
    proof {
        assert(grid_views(serve_grids@).len() == grid_views(grids@).len());
        assert forall|j: int| 0 <= j < serve_grids@.len() implies borders_ascend(
            (#[trigger] serve_grids@[j]).borders@,
        ) by {
            assert(grid_views(serve_grids@)[j] == grid_views(grids@)[j]);
            assert(borders_ascend(grids@[j].borders@));
        }
    }
    Ok(
        FittedBinnedData {
            train: TrainBinnedMatrix(BinnedMatrix { data: train, n_rows, grids, provenance }),
            serve: ServeBinnedMatrix(
                BinnedMatrix {
                    data: serve,
                    n_rows,
                    grids: serve_grids,
                    provenance: serve_provenance,
                },
            ),
            cat_encoders: CatEncoderStore::from_encoders(encoders),
        },
    )
}

/// The encoders of fits, in order.
fn take_encoders(fits: Vec<CatFit>) -> (encoders: Vec<CatEncoder>)
    ensures
        encoders@.len() == fits@.len(),
        forall|i: int| 0 <= i < fits@.len() ==> #[trigger] encoders@[i] == fits@[i].encoder,
{
    let ghost all = fits@;
    let mut rest = fits;
    let mut backwards: Vec<CatEncoder> = Vec::with_capacity(rest.len());
    while rest.len() > 0
        invariant
            rest@.len() + backwards@.len() == all.len(),
            rest@ =~= all.take(rest@.len() as int),
            forall|i: int|
                0 <= i < backwards@.len() ==> #[trigger] backwards@[i] == all[all.len() - 1 - i].encoder,
        decreases rest.len(),
    {
        match rest.pop() {
            Some(fit) => {
                backwards.push(fit.encoder);
            },
            None => {},
        }
    }
    let mut encoders: Vec<CatEncoder> = Vec::with_capacity(backwards.len());
    while backwards.len() > 0
        invariant
            encoders@.len() + backwards@.len() == all.len(),
            forall|i: int|
                0 <= i < backwards@.len() ==> #[trigger] backwards@[i] == all[all.len() - 1 - i].encoder,
            forall|i: int| 0 <= i < encoders@.len() ==> #[trigger] encoders@[i] == all[i].encoder,
        decreases backwards.len(),
    {
        match backwards.pop() {
            Some(e) => {
                encoders.push(e);
            },
            None => {},
        }
    }
    encoders
}

proof fn lemma_only_numeric_hit(cols: Seq<NumericColumn>, i: int, n: nat)
    requires
        0 <= i < cols.len(),
        n <= cols.len(),
        forall|a: int, b: int|
            0 <= a < b < cols.len() ==> (#[trigger] cols[a]).raw != (#[trigger] cols[b]).raw,
    ensures
        numeric_hits(cols, cols[i].raw, n) =~= (if i < n {
            seq![i]
        } else {
            Seq::<int>::empty()
        }),
    decreases n,
{
    if n > 0 {
        lemma_only_numeric_hit(cols, i, (n - 1) as nat);
        if n - 1 < i {
            assert(cols[n - 1].raw != cols[i].raw);
        } else if i < n - 1 {
            assert(cols[i].raw != cols[n - 1].raw);
        }
    }
}

proof fn lemma_only_cat_hit(cols: Seq<ServeCategoricalColumn>, i: int, n: nat)
    requires
        0 <= i < cols.len(),
        n <= cols.len(),
        forall|a: int, b: int|
            0 <= a < b < cols.len() ==> (#[trigger] cols[a]).raw != (#[trigger] cols[b]).raw
                || cols[a].id != cols[b].id,
    ensures
        cat_hits(cols, cols[i].raw, cols[i].id, n) =~= (if i < n {
            seq![i]
        } else {
            Seq::<int>::empty()
        }),
    decreases n,
{
    if n > 0 {
        lemma_only_cat_hit(cols, i, (n - 1) as nat);
        if n - 1 < i {
            assert(cols[n - 1].raw != cols[i].raw || cols[n - 1].id != cols[i].id);
        } else if i < n - 1 {
            assert(cols[i].raw != cols[n - 1].raw || cols[i].id != cols[n - 1].id);
        }
    }
}

proof fn lemma_encoder_found(list: Seq<CatEncoder>, i: int, from: int)
    requires
        0 <= from <= i < list.len(),
        forall|a: int|
            0 <= a < i ==> (#[trigger] list[a]).raw != list[i].raw || list[a].id != list[i].id,
    ensures
        encoder_at(list, list[i].id, list[i].raw, from) == i,
    decreases i - from,
{
    if from < i {
        assert(list[from].raw != list[i].raw || list[from].id != list[i].id);
        lemma_encoder_found(list, i, from + 1);
    }
}

/// Bins are determined by values and grid.
proof fn lemma_binned_alike(a: Seq<u8>, b: Seq<u8>, values: Seq<F32>, g: GridView)
    requires
        is_binned(a, values, g),
        is_binned(b, values, g),
    ensures
        a == b,
{
    assert forall|i: int| 0 <= i < a.len() implies a[i] == b[i] by {}
    assert(a =~= b);
}

/// Serving the training rows through the frozen grids and encoders succeeds and
/// gives back the serve matrix of the fit.
pub proof fn law_serving_training_rows_gives_the_serve_matrix(
    d: FittedBinnedData,
    numeric: Seq<NumericColumn>,
    cats: Seq<CategoricalColumn>,
    served_cats: Seq<ServeCategoricalColumn>,
    n: nat,
    weight: Option<Seq<F32>>,
    exposure: Option<Seq<F32>>,
    cfg: BinConfig,
    grids: Seq<GridView>,
    fits: Seq<CatFit>,
    m: BinnedMatrix,
)
    requires
        bin_train_fault(numeric, cats, n, weight, exposure, cfg, grids, fits) is None,
        is_fitted(d, numeric, cats, n, grids, fits),
        fits.len() == cats.len(),
        numeric.len() + cats.len() > 0,
        forall|a: int, b: int|
            0 <= a < b < numeric.len() ==> (#[trigger] numeric[a]).raw != (#[trigger] numeric[b]).raw,
        served_cats.len() == cats.len(),
        forall|i: int|
            0 <= i < cats.len() ==> (#[trigger] served_cats[i]).raw == cats[i].raw
                && served_cats[i].id == cats[i].id && served_cats[i].levels@ == cats[i].levels@,
    ensures
        serve_fault(
            numeric,
            served_cats,
            grid_views(d.serve.0.grids@),
            d.serve.0.provenance@,
            d.cat_encoders.list(),
        ) is None,
        is_served(
            m,
            numeric,
            served_cats,
            grid_views(d.serve.0.grids@),
            d.serve.0.provenance@,
            d.cat_encoders.list(),
        ) ==> {
            &&& m.n_rows == d.serve.0.n_rows
            &&& grid_views(m.grids@) == grid_views(d.serve.0.grids@)
            &&& m.provenance@ == d.serve.0.provenance@
            &&& m.data@.len() == d.serve.0.data@.len()
            &&& forall|axis: int|
                0 <= axis < m.data@.len() ==> (#[trigger] m.data@[axis])@ == d.serve.0.data@[axis]@
        },
{
    let s = d.serve.0;
    let gs = grid_views(s.grids@);
    let prov = s.provenance@;
    let store = d.cat_encoders.list();
    let nums = numeric.len() as int;
    let nf = |i: int| numeric_column_fault(numeric, n, weight, cfg, i);
    let vf = |i: int| values_fault(numeric[i].values@, grids[i]);
    let lf = |i: int| cat_column_fault(cats, n, i);
    let bf = |i: int| fit_bin_fault(fits[i], cats[i].levels@);
    lemma_all_none(nf, 0, nums);
    lemma_all_none(vf, 0, nums);
    lemma_all_none(lf, 0, cats.len() as int);
    lemma_all_none(bf, 0, cats.len() as int);
    assert forall|i: int| 0 <= i < nums implies (#[trigger] numeric[i]).values@.len() == n by {
        assert(nf(i) is None);
    }
    assert forall|i: int| 0 <= i < cats.len() implies (#[trigger] served_cats[i]).levels@.len()
        == n by {
        assert(lf(i) is None);
    }
    assert(serve_rows(numeric, served_cats) == n);
    assert forall|a: int, b: int| 0 <= a < b < served_cats.len() implies (
    #[trigger] served_cats[a]).raw != (#[trigger] served_cats[b]).raw || served_cats[a].id
        != served_cats[b].id by {
        assert(lf(b) is None);
        assert(cats[a].raw != cats[b].raw || cats[a].id != cats[b].id);
    }
    let f = |axis: int| serve_axis_fault(numeric, served_cats, gs, prov, store, axis);
    assert forall|axis: int| 0 <= axis < prov.len() implies (#[trigger] f(axis)) is None
        && is_binned(
        s.data@[axis]@,
        serve_values(numeric, served_cats, prov[axis], store),
        gs[axis],
    ) by {
        assert(gs[axis] == grid_views(d.train.0.grids@)[axis]);
        assert(prov[axis] == d.train.0.provenance@[axis]);
        if axis < nums {
            assert(is_binned(d.train.0.data@[axis]@, numeric[axis].values@, grids[axis]));
            lemma_only_numeric_hit(numeric, axis, numeric.len());
            assert(vf(axis) is None);
        } else {
            let i = axis - nums;
            assert(fits[i].encoder == store[i]);
            lemma_only_cat_hit(served_cats, i, served_cats.len());
            assert forall|a: int| 0 <= a < i implies (#[trigger] store[a]).raw != store[i].raw
                || store[a].id != store[i].id by {
                assert(fits[a].encoder == store[a]);
                assert(served_cats[a].raw != served_cats[i].raw || served_cats[a].id
                    != served_cats[i].id);
            }
            lemma_encoder_found(store, i, 0);
            assert(bf(i) is None);
            assert(serve_values(numeric, served_cats, prov[axis], store) == fit_served(
                fits[i],
                cats[i].levels@,
            ));
        }
    }
    lemma_first_fault(f, 0, prov.len() as int, prov.len() as int);
    if is_served(m, numeric, served_cats, gs, prov, store) {
        assert forall|axis: int| 0 <= axis < m.data@.len() implies (#[trigger] m.data@[axis])@
            == s.data@[axis]@ by {
            assert(f(axis) is None);
            lemma_binned_alike(
                m.data@[axis]@,
                s.data@[axis]@,
                serve_values(numeric, served_cats, prov[axis], store),
                gs[axis],
            );
        }
    }
}

proof fn lemma_numeric_hits_are(cols: Seq<NumericColumn>, raw: FeatureId, n: nat)
    requires
        n <= cols.len(),
    ensures
        forall|k: int| #[trigger]
            numeric_hits(cols, raw, n).contains(k) <==> 0 <= k < n && cols[k].raw == raw,
        forall|i: int, j: int|
            0 <= i < j < numeric_hits(cols, raw, n).len() ==> numeric_hits(cols, raw, n)[i]
                < numeric_hits(cols, raw, n)[j],
    decreases n,
{
    if n > 0 {
        lemma_numeric_hits_are(cols, raw, (n - 1) as nat);
        let before = numeric_hits(cols, raw, (n - 1) as nat);
        let hits = numeric_hits(cols, raw, n);
        assert forall|k: int| #[trigger] hits.contains(k) <==> 0 <= k < n && cols[k].raw == raw by {
            if before.contains(k) {
                let i = choose|i: int| 0 <= i < before.len() && before[i] == k;
                assert(hits[i] == k);
            }
            if k == n - 1 && cols[k].raw == raw {
                assert(hits[hits.len() - 1] == k);
            }
            if hits.contains(k) {
                let i = choose|i: int| 0 <= i < hits.len() && hits[i] == k;
                if i < before.len() {
                    assert(before[i] == k);
                }
            }
        }
        assert forall|i: int, j: int| 0 <= i < j < hits.len() implies hits[i] < hits[j] by {
            if j == before.len() {
                assert(before.contains(before[i]));
            }
        }
    }
}

/// A numeric feature is found exactly when one column and only one carries it, and
/// its values are those of that column.
pub proof fn law_numeric_features_have_one_column(cols: Seq<NumericColumn>, raw: FeatureId, k: int)
    ensures
        find_numeric_fault(cols, raw) is None <==> exists|i: int|
            {
                &&& 0 <= i < cols.len()
                &&& (#[trigger] cols[i]).raw == raw
                &&& forall|j: int| 0 <= j < cols.len() && (#[trigger] cols[j]).raw == raw ==> j == i
            },
        find_numeric_fault(cols, raw) is None && 0 <= k < cols.len() && cols[k].raw == raw
            ==> numeric_hits(cols, raw, cols.len())[0] == k,
{
    let hits = numeric_hits(cols, raw, cols.len());
    lemma_numeric_hits_are(cols, raw, cols.len());
    if hits.len() == 1 {
        let i = hits[0];
        assert(hits.contains(i));
        assert forall|j: int| 0 <= j < cols.len() && (#[trigger] cols[j]).raw == raw implies j == i by {
            assert(hits.contains(j));
        }
        assert(cols[i].raw == raw);
        if 0 <= k < cols.len() && cols[k].raw == raw {
            assert(hits.contains(k));
        }
    }
    if exists|i: int|
        {
            &&& 0 <= i < cols.len()
            &&& (#[trigger] cols[i]).raw == raw
            &&& forall|j: int| 0 <= j < cols.len() && (#[trigger] cols[j]).raw == raw ==> j == i
        } {
        let i = choose|i: int|
            {
                &&& 0 <= i < cols.len()
                &&& (#[trigger] cols[i]).raw == raw
                &&& forall|j: int| 0 <= j < cols.len() && (#[trigger] cols[j]).raw == raw ==> j == i
            };
        assert(hits.contains(i));
        if hits.len() > 1 {
            assert(hits.contains(hits[0]) && hits.contains(hits[1]));
            assert(cols[hits[0]].raw == raw && cols[hits[1]].raw == raw);
        }
    }
}

/// Label columns are accepted exactly when each has one label per row and no two
/// claim the same feature and encoding.
pub proof fn law_accepted_label_columns_are_distinct(cats: Seq<CategoricalColumn>, n: nat)
    ensures
        first_fault(|i: int| cat_column_fault(cats, n, i), 0, cats.len() as int) is None <==> {
            &&& forall|i: int| 0 <= i < cats.len() ==> (#[trigger] cats[i]).levels@.len() == n
            &&& forall|i: int, j: int|
                0 <= j < i < cats.len() ==> (#[trigger] cats[j]).raw != (#[trigger] cats[i]).raw
                    || cats[j].id != cats[i].id
        },
{
    let f = |i: int| cat_column_fault(cats, n, i);
    lemma_no_fault(f, cats.len() as int);
    if forall|i: int| 0 <= i < cats.len() ==> (#[trigger] f(i)) is None {
        assert forall|i: int| 0 <= i < cats.len() implies (#[trigger] cats[i]).levels@.len() == n by {
            assert(f(i) is None);
        }
        assert forall|i: int, j: int| 0 <= j < i < cats.len() implies (#[trigger] cats[j]).raw != (
        #[trigger] cats[i]).raw || cats[j].id != cats[i].id by {
            assert(f(i) is None);
            assert(!claimed_before(cats, i));
        }
    } else {
        let i = choose|i: int| 0 <= i < cats.len() && !((#[trigger] f(i)) is None);
        if cats[i].levels@.len() == n {
            let j = choose|j: int|
                0 <= j < i && (#[trigger] cats[j]).raw == cats[i].raw && cats[j].id == cats[i].id;
            assert(cats[j].raw == cats[i].raw);
        }
    }
}

/// Columns are accepted exactly when the configuration is, all are as long as the
/// first, weights are as many, there are not too many rows, and each column is
/// accepted with the weights.
pub proof fn law_accepted_column_sets_agree(
    columns: Seq<Seq<F32>>,
    weight: Option<Seq<F32>>,
    cfg: BinConfig,
)
    requires
        columns.len() > 0,
    ensures
        columns_fault(columns, weight, cfg) is None <==> {
            &&& bin_config_fault(cfg) is None
            &&& forall|f: int|
                0 <= f < columns.len() ==> (#[trigger] columns[f]).len() == columns[0].len()
            &&& weight is Some ==> weight->0.len() == columns[0].len()
            &&& columns[0].len() <= u32::MAX
            &&& forall|f: int|
                0 <= f < columns.len() ==> grid_fault(#[trigger] columns[f], weight, cfg) is None
        },
{
    let f = |f: int| grid_fault(columns[f], weight, cfg);
    lemma_no_fault(f, columns.len() as int);
    if forall|i: int| 0 <= i < columns.len() ==> (#[trigger] f(i)) is None {
        assert forall|i: int| 0 <= i < columns.len() implies grid_fault(
            #[trigger] columns[i],
            weight,
            cfg,
        ) is None by {
            assert(f(i) is None);
        }
    } else {
        let i = choose|i: int| 0 <= i < columns.len() && !((#[trigger] f(i)) is None);
        assert(!(grid_fault(columns[i], weight, cfg) is None));
    }
}

/// A value is binned by the borders below it: NaN goes to the missing bin, any
/// other value one bin above the number of borders below it.
pub proof fn law_bins_count_the_borders_below(v: F32, g: GridView, k: int)
    requires
        borders_ascend(g.borders),
        0 <= k <= g.borders.len(),
    ensures
        v.nan() ==> bin_of(v, g) == g.missing_bin,
        !v.nan() && (forall|i: int| 0 <= i < k ==> (#[trigger] g.borders[i]).key() < v.key()) && (
        forall|i: int| k <= i < g.borders.len() ==> v.key() <= (#[trigger] g.borders[i]).key())
            ==> bin_of(v, g) == k + 1,
{
    if !v.nan() && (forall|i: int| 0 <= i < k ==> (#[trigger] g.borders[i]).key() < v.key()) && (
    forall|i: int| k <= i < g.borders.len() ==> v.key() <= (#[trigger] g.borders[i]).key()) {
        if k > 0 {
            assert(g.borders[k - 1].key() < v.key());
        }
        if k < g.borders.len() {
            assert(v.key() <= g.borders[k].key());
        }
        lemma_borders_below_is(g.borders, v, k as nat);
    }
}

/// The columns found for a feature and encoding are those that carry both.
proof fn lemma_cat_hits_are(
    cols: Seq<ServeCategoricalColumn>,
    raw: FeatureId,
    id: TsEncodingId,
    n: nat,
)
    requires
        n <= cols.len(),
    ensures
        forall|k: int| #[trigger]
            cat_hits(cols, raw, id, n).contains(k) <==> 0 <= k < n && cols[k].raw == raw && cols[k].id
                == id,
        forall|i: int, j: int|
            0 <= i < j < cat_hits(cols, raw, id, n).len() ==> cat_hits(cols, raw, id, n)[i] < cat_hits(
                cols,
                raw,
                id,
                n,
            )[j],
    decreases n,
{
    if n > 0 {
        lemma_cat_hits_are(cols, raw, id, (n - 1) as nat);
        let before = cat_hits(cols, raw, id, (n - 1) as nat);
        let hits = cat_hits(cols, raw, id, n);
        assert forall|k: int| #[trigger] hits.contains(k) <==> 0 <= k < n && cols[k].raw == raw
            && cols[k].id == id by {
            if before.contains(k) {
                let i = choose|i: int| 0 <= i < before.len() && before[i] == k;
                assert(hits[i] == k);
            }
            if k == n - 1 && cols[k].raw == raw && cols[k].id == id {
                assert(hits[hits.len() - 1] == k);
            }
            if hits.contains(k) {
                let i = choose|i: int| 0 <= i < hits.len() && hits[i] == k;
                if i < before.len() {
                    assert(before[i] == k);
                }
            }
        }
        assert forall|i: int, j: int| 0 <= i < j < hits.len() implies hits[i] < hits[j] by {
            if j == before.len() {
                assert(before.contains(before[i]));
            }
        }
    }
}

/// A categorical feature is found under an encoding exactly when one column and
/// only one carries both, and its labels are those of that column.
pub proof fn law_categorical_features_have_one_column(
    cols: Seq<ServeCategoricalColumn>,
    raw: FeatureId,
    id: TsEncodingId,
    k: int,
)
    ensures
        find_cat_fault(cols, raw, id) is None <==> exists|i: int|
            {
                &&& 0 <= i < cols.len()
                &&& (#[trigger] cols[i]).raw == raw && cols[i].id == id
                &&& forall|j: int|
                    0 <= j < cols.len() && (#[trigger] cols[j]).raw == raw && cols[j].id == id ==> j
                        == i
            },
        find_cat_fault(cols, raw, id) is None && 0 <= k < cols.len() && cols[k].raw == raw
            && cols[k].id == id ==> cat_hits(cols, raw, id, cols.len())[0] == k,
{
    let hits = cat_hits(cols, raw, id, cols.len());
    lemma_cat_hits_are(cols, raw, id, cols.len());
    if hits.len() == 1 {
        let i = hits[0];
        assert(hits.contains(i));
        assert forall|j: int|
            0 <= j < cols.len() && (#[trigger] cols[j]).raw == raw && cols[j].id == id implies j == i by {
            assert(hits.contains(j));
        }
        assert(cols[i].raw == raw && cols[i].id == id);
        if 0 <= k < cols.len() && cols[k].raw == raw && cols[k].id == id {
            assert(hits.contains(k));
        }
    }
    if exists|i: int|
        {
            &&& 0 <= i < cols.len()
            &&& (#[trigger] cols[i]).raw == raw && cols[i].id == id
            &&& forall|j: int|
                0 <= j < cols.len() && (#[trigger] cols[j]).raw == raw && cols[j].id == id ==> j == i
        } {
        let i = choose|i: int|
            {
                &&& 0 <= i < cols.len()
                &&& (#[trigger] cols[i]).raw == raw && cols[i].id == id
                &&& forall|j: int|
                    0 <= j < cols.len() && (#[trigger] cols[j]).raw == raw && cols[j].id == id ==> j
                        == i
            };
        assert(hits.contains(i));
        if hits.len() > 1 {
            assert(hits.contains(hits[0]) && hits.contains(hits[1]));
            assert(cols[hits[0]].raw == raw && cols[hits[1]].raw == raw);
        }
    }
}

/// Columns are binned exactly when they are accepted and every value of every column
/// has a bin that 8 bits count.
pub proof fn law_binned_columns_fit(
    columns: Seq<Seq<F32>>,
    weight: Option<Seq<F32>>,
    cfg: BinConfig,
    grids: Seq<GridView>,
)
    requires
        columns.len() <= 0x1_0000_0000,
    ensures
        bin_columns_fault(columns, weight, cfg, grids) is None <==> columns_fault(
            columns,
            weight,
            cfg,
        ) is None && forall|f: int, i: int|
            0 <= f < columns.len() && 0 <= i < columns[f].len() ==> bin_of(
                #[trigger] columns[f][i],
                grids[f],
            ) <= 0xff,
{
    let g = |f: int| column_fault(columns, grids, f);
    lemma_no_fault(g, columns.len() as int);
    if forall|f: int| 0 <= f < columns.len() ==> (#[trigger] g(f)) is None {
        assert forall|f: int, i: int|
            0 <= f < columns.len() && 0 <= i < columns[f].len() implies bin_of(
            #[trigger] columns[f][i],
            grids[f],
        ) <= 0xff by {
            assert(g(f) is None);
            let h = |i: int| bin_fault(columns[f][i], grids[f]);
            lemma_no_fault(h, columns[f].len() as int);
            assert(h(i) is None);
        }
    } else {
        let f = choose|f: int| 0 <= f < columns.len() && !((#[trigger] g(f)) is None);
        let h = |i: int| bin_fault(columns[f][i], grids[f]);
        lemma_no_fault(h, columns[f].len() as int);
        let i = choose|i: int| 0 <= i < columns[f].len() && !((#[trigger] h(i)) is None);
        assert(bin_of(columns[f][i], grids[f]) > 0xff);
    }
}

} // verus!
