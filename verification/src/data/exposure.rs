//! Exposure: the per-row scale of a count target.
use crate::cat::fit::usable_exposure;
use crate::error::{answers, invalid_input, Fault, PbError};
use crate::float::F32;
use crate::text::{dec, decimal, with_number};
use vstd::prelude::*;

verus! {

/// Why an exposure column is refused.
pub open spec fn exposure_fault(exposure: Seq<F32>, n_rows: nat) -> Option<Fault> {
    if exposure.len() != n_rows {
        Some(
            Fault::ShapeMismatch(
                "exposure len "@ + dec(exposure.len()) + " != n_rows "@ + dec(n_rows),
            ),
        )
    } else if exists|i: int| 0 <= i < exposure.len() && !usable_exposure(#[trigger] exposure[i]) {
        Some(Fault::InvalidInput("exposure entries must be finite and > 0"@))
    } else {
        None
    }
}

/// Checks an exposure column: one finite positive number per row.
pub fn check_exposure(exposure: &Vec<F32>, n_rows: usize) -> (r: Result<(), PbError>)
    ensures
        answers(r, exposure_fault(exposure@, n_rows as nat)),
{
    if exposure.len() != n_rows {
        let mut what = with_number("exposure len ", exposure.len() as u64, " != n_rows ");
        what.append(decimal(n_rows as u64).as_str());
        return Err(PbError::ShapeMismatch { what });
    }
    let mut i: usize = 0;
    while i < exposure.len()
        invariant
            i <= exposure.len(),
            exposure@.len() == n_rows,
            forall|j: int| 0 <= j < i ==> usable_exposure(#[trigger] exposure@[j]),
        decreases exposure.len() - i,
    {
        if !exposure[i].is_finite() || exposure[i].order_key() <= 0 {
            return Err(invalid_input("exposure entries must be finite and > 0"));
        }
        i = i + 1;
    }
    Ok(())
}

/// An exposure is accepted exactly when it has one finite number above zero for
/// every row.
pub proof fn law_accepted_exposures_are_sound(exposure: Seq<F32>, n_rows: nat)
    ensures
        exposure_fault(exposure, n_rows) is None <==> exposure.len() == n_rows && forall|i: int|
            0 <= i < exposure.len() ==> (#[trigger] exposure[i]).finite() && exposure[i].key() > 0,
{
}

} // verus!
