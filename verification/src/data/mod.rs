//! The binned data model.
//!
//! Each feature has one frozen border grid, shared by fitting, prediction and
//! table export; a column is stored as one byte per row, its bin on that grid.
use crate::cat::TsEncodingId;
use crate::error::{answers, invalid_config, Fault, PbError};
use crate::float::F32;
use crate::text::{dec, number_last, with_number};
use vstd::prelude::*;

pub mod bin;
pub mod exposure;
pub mod grid;

verus! {

/// A raw feature of the user's data.
#[derive(Debug, Clone, Copy, PartialEq, Eq, PartialOrd, Ord, Hash, Structural)]
pub struct FeatureId(pub u32);

/// The text of a feature in messages.
pub open spec fn feature_text(raw: FeatureId) -> Seq<char> {
    "FeatureId("@ + dec(raw.0 as nat) + ")"@
}

/// The text of a feature in messages.
pub fn feature_name(raw: FeatureId) -> (s: String)
    ensures
        s@ == feature_text(raw),
{
    with_number("FeatureId(", raw.0 as u64, ")")
}

/// What an axis is made from.
#[derive(Debug, Clone, Copy, PartialEq, Eq, Structural)]
pub enum AxisKind {
    /// A numeric column.
    Numeric,
    /// A target-statistic encoding of a categorical column.
    CategoricalTS { encoding: TsEncodingId },
    /// A missingness indicator.
    Missing,
}

/// Where an axis comes from.
#[derive(Debug, Clone, Copy, PartialEq, Eq, Structural)]
pub struct AxisProvenance {
    pub raw: FeatureId,
    pub kind: AxisKind,
}

/// The frozen bins of one axis: bin 0 is missing, bins `1..=borders.len() + 1`
/// are the data bins between the borders.
#[derive(Debug, Clone, PartialEq)]
pub struct BorderGrid {
    /// Strictly ascending finite borders.
    pub borders: Vec<F32>,
    /// Data bins plus the missing bin.
    pub n_bins: u16,
    /// The bin of missing values.
    pub missing_bin: u8,
}

/// Whether the borders are numbers in strictly ascending order.
pub open spec fn borders_ascend(borders: Seq<F32>) -> bool {
    &&& forall|i: int| 0 <= i < borders.len() ==> !(#[trigger] borders[i]).nan()
    &&& forall|i: int, j: int|
        0 <= i < j < borders.len() ==> (#[trigger] borders[i]).key() < (#[trigger] borders[j]).key()
}

/// The contents of a grid.
pub struct GridView {
    pub borders: Seq<F32>,
    pub n_bins: u16,
    pub missing_bin: u8,
}

impl View for BorderGrid {
    type V = GridView;

    open spec fn view(&self) -> GridView {
        GridView {
            borders: self.borders@,
            n_bins: self.n_bins,
            missing_bin: self.missing_bin,
        }
    }
}

/// The contents of grids.
pub open spec fn grid_views(grids: Seq<BorderGrid>) -> Seq<GridView> {
    grids.map_values(|g: BorderGrid| g@)
}

/// A copy of grids.
pub fn copy_grids(grids: &Vec<BorderGrid>) -> (v: Vec<BorderGrid>)
    ensures
        grid_views(v@) == grid_views(grids@),
{
    let mut v: Vec<BorderGrid> = Vec::with_capacity(grids.len());
    let mut i: usize = 0;
    while i < grids.len()
        invariant
            i <= grids.len(),
            v@.len() == i,
            forall|j: int| 0 <= j < i ==> (#[trigger] v@[j])@ == grids@[j]@,
        decreases grids.len() - i,
    {
        v.push(grids[i].copied());
        i = i + 1;
    }
    assert(grid_views(v@) =~= grid_views(grids@));
    v
}

/// A copy of provenances.
pub fn copy_provenance(p: &Vec<AxisProvenance>) -> (v: Vec<AxisProvenance>)
    ensures
        v@ == p@,
{
    let mut v: Vec<AxisProvenance> = Vec::with_capacity(p.len());
    let mut i: usize = 0;
    while i < p.len()
        invariant
            i <= p.len(),
            v@ =~= p@.take(i as int),
        decreases p.len() - i,
    {
        v.push(p[i]);
        i = i + 1;
    }
    assert(p@.take(i as int) =~= p@);
    v
}

impl BorderGrid {
    /// The shape that grid construction gives: ascending borders, one bin more
    /// than data bins, missing first.
    pub open spec fn wf(&self) -> bool {
        &&& borders_ascend(self.borders@)
        &&& self.n_bins as int == self.borders@.len() + 2
        &&& self.missing_bin == 0
    }

    /// The number of data bins.
    pub fn n_data_bins(&self) -> (n: usize)
        requires
            self.borders@.len() < usize::MAX,
        ensures
            n == self.borders@.len() + 1,
    {
        self.borders.len() + 1
    }

    /// A copy of the grid.
    pub fn copied(&self) -> (g: BorderGrid)
        ensures
            g@ == self@,
    {
        let mut borders: Vec<F32> = Vec::with_capacity(self.borders.len());
        let mut i: usize = 0;
        while i < self.borders.len()
            invariant
                i <= self.borders.len(),
                borders@ =~= self.borders@.take(i as int),
            decreases self.borders.len() - i,
        {
            borders.push(self.borders[i]);
            i = i + 1;
        }
        assert(self.borders@.take(i as int) =~= self.borders@);
        BorderGrid { borders, n_bins: self.n_bins, missing_bin: self.missing_bin }
    }
}

/// Binned data, column by column.
#[derive(Debug, Clone, PartialEq)]
pub struct BinnedMatrix {
    /// One column of bins per axis.
    pub data: Vec<Vec<u8>>,
    pub n_rows: u32,
    pub grids: Vec<BorderGrid>,
    pub provenance: Vec<AxisProvenance>,
}

/// A matrix binned with training-time (leakage-free) categorical encodings.
#[derive(Debug, Clone, PartialEq)]
pub struct TrainBinnedMatrix(pub BinnedMatrix);

/// A matrix binned with the frozen encodings used for serving.
#[derive(Debug, Clone, PartialEq)]
pub struct ServeBinnedMatrix(pub BinnedMatrix);

/// The rule by which borders are placed.
#[derive(Debug, Clone, Copy, PartialEq, Eq, Structural)]
pub enum BorderFamily {
    /// Equal-count (quantile) borders.
    EqualCount,
    /// Borders weighted by the hessian; not offered yet.
    HessianWeighted,
}

/// How columns are binned.
#[derive(Debug, Clone, Copy, PartialEq, Eq, Structural)]
pub struct BinConfig {
    /// At most this many data bins per axis.
    pub max_bin: u8,
    /// Quantiles are taken over at most this many values.
    pub subsample_for_binning: u32,
    /// Bins with fewer rows are merged; 0 turns merging off.
    pub min_data_per_bin: u32,
    pub border_family: BorderFamily,
}

impl Default for BinConfig {
    fn default() -> (c: BinConfig)
        ensures
            c.max_bin == 254,
            c.subsample_for_binning == 200_000,
            c.min_data_per_bin == 0,
            c.border_family == BorderFamily::EqualCount,
    {
        BinConfig {
            max_bin: 254,
            subsample_for_binning: 200_000,
            min_data_per_bin: 0,
            border_family: BorderFamily::EqualCount,
        }
    }
}

/// Why a binning configuration is refused, in the order in which it is checked.
pub open spec fn bin_config_fault(c: BinConfig) -> Option<Fault> {
    if c.max_bin < 2 {
        Some(Fault::InvalidConfig("max_bin must be >= 2, got "@ + dec(c.max_bin as nat)))
    } else if c.max_bin > 254 {
        Some(Fault::InvalidConfig("max_bin must be <= 254, got "@ + dec(c.max_bin as nat)))
    } else if c.subsample_for_binning == 0 {
        Some(Fault::InvalidConfig("subsample_for_binning must be > 0"@))
    } else if c.border_family == BorderFamily::HessianWeighted {
        Some(
            Fault::InvalidConfig(
                "BorderFamily::HessianWeighted is a v1.5 fork; v1 supports only EqualCount"@,
            ),
        )
    } else {
        None
    }
}

impl BinConfig {
    /// Refuses a configuration that binning cannot honour.
    pub fn validate(&self) -> (r: Result<(), PbError>)
        ensures
            answers(r, bin_config_fault(*self)),
    {
        if self.max_bin < 2 {
            let what = number_last("max_bin must be >= 2, got ", self.max_bin as u64);
            return Err(PbError::InvalidConfig { what });
        }
        if self.max_bin > 254 {
            let what = number_last("max_bin must be <= 254, got ", self.max_bin as u64);
            return Err(PbError::InvalidConfig { what });
        }
        if self.subsample_for_binning == 0 {
            return Err(invalid_config("subsample_for_binning must be > 0"));
        }
        if self.border_family == BorderFamily::HessianWeighted {
            return Err(
                invalid_config(
                    "BorderFamily::HessianWeighted is a v1.5 fork; v1 supports only EqualCount",
                ),
            );
        }
        Ok(())
    }
}

/// A binning configuration is accepted exactly when it asks for 2 to 254 bins, a
/// sample that is not empty, and borders of equal counts.
pub proof fn law_accepted_bin_configs_are_sound(c: BinConfig)
    ensures
        bin_config_fault(c) is None <==> 2 <= c.max_bin <= 254 && c.subsample_for_binning >= 1
            && c.border_family == BorderFamily::EqualCount,
{
}

} // verus!
