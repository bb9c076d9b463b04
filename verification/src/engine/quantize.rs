//! Quantisation of gradients: the checks, the scale's base, and the coin that
//! rounds exact halves.
use crate::backend::{pb_seed, seed_of, Stage};
use crate::error::{answers, first_fault, invalid_input, lemma_first_fault, lemma_no_fault, Fault, PbError};
use crate::float::F32;
use crate::text::{dec, decimal, with_number};
use vstd::prelude::*;

verus! {

/// Why a row cannot be quantised.
pub open spec fn finite_row_fault(g: Seq<F32>, h: Seq<F32>, i: int) -> Option<Fault> {
    if !g[i].finite() || !h[i].finite() {
        Some(
            Fault::InvalidInput(
                "GradHess row "@ + dec(i as nat) + " must be finite before quantization"@,
            ),
        )
    } else {
        None
    }
}

/// Why gradients and hessians cannot be quantised.
pub open spec fn quantize_fault(g: Seq<F32>, h: Seq<F32>) -> Option<Fault> {
    if g.len() != h.len() {
        Some(
            Fault::ShapeMismatch("GradHess g len "@ + dec(g.len()) + " != h len "@ + dec(h.len())),
        )
    } else {
        first_fault(|i: int| finite_row_fault(g, h, i), 0, g.len() as int)
    }
}

/// Checks that there are as many gradients as hessians, and that all are finite.
pub fn check_quantizable(g: &Vec<F32>, h: &Vec<F32>) -> (r: Result<(), PbError>)
    ensures
        answers(r, quantize_fault(g@, h@)),
        r is Ok <==> g@.len() == h@.len() && forall|i: int|
            0 <= i < g@.len() ==> (#[trigger] g@[i]).finite() && h@[i].finite(),
{
    if g.len() != h.len() {
        let mut what = with_number("GradHess g len ", g.len() as u64, " != h len ");
        what.append(decimal(h.len() as u64).as_str());
        return Err(PbError::ShapeMismatch { what });
    }
    let ghost f = |i: int| finite_row_fault(g@, h@, i);
    let mut i: usize = 0;
    while i < g.len()
        invariant
            i <= g.len(),
            g@.len() == h@.len(),
            f == (|i: int| finite_row_fault(g@, h@, i)),
            forall|j: int| 0 <= j < i ==> (#[trigger] f(j)) is None,
        decreases g.len() - i,
    {
        proof {
            lemma_first_fault(f, 0, i as int, g@.len() as int);
        }
        if !g[i].is_finite() || !h[i].is_finite() {
            assert(f(i as int) is Some);
            let what = with_number(
                "GradHess row ",
                i as u64,
                " must be finite before quantization",
            );
            return Err(PbError::InvalidInput { what });
        }
        assert(f(i as int) is None);
        i = i + 1;
    }
    proof {
        lemma_first_fault(f, 0, g@.len() as int, g@.len() as int);
        assert forall|i: int| 0 <= i < g@.len() implies (#[trigger] g@[i]).finite() && h@[i].finite() by {
            assert(f(i) is None);
        }
    }
    Ok(())
}

/// The largest absolute value; zero where there is none.
pub fn largest_magnitude(v: &Vec<F32>) -> (m: F32)
    requires
        forall|i: int| 0 <= i < v@.len() ==> (#[trigger] v@[i]).finite(),
    ensures
        m.finite(),
        m.key() >= 0,
        forall|i: int| 0 <= i < v@.len() ==> (#[trigger] v@[i]).magnitude() <= m.magnitude(),
        m.bits != 0 ==> exists|i: int|
            0 <= i < v@.len() && (#[trigger] v@[i]).magnitude() == m.magnitude(),
{
    let mut best: u32 = 0;
    let mut i: usize = 0;
    while i < v.len()
        invariant
            i <= v.len(),
            forall|j: int| 0 <= j < v@.len() ==> (#[trigger] v@[j]).finite(),
            best < 0x7f80_0000,
            forall|j: int| 0 <= j < i ==> (#[trigger] v@[j]).magnitude() <= best,
            best != 0 ==> exists|j: int| 0 <= j < i && (#[trigger] v@[j]).magnitude() == best,
        decreases v.len() - i,
    {
        let bits: u32 = v[i].bits;
        let mag: u32 = if bits < 0x8000_0000 {
            bits
        } else {
            bits - 0x8000_0000
        };
        assert(v@[i as int].magnitude() == mag);
        if mag > best {
            best = mag;
        }
        i = i + 1;
    }
    F32 { bits: best }
}

/// Why a row has no random blocks.
pub open spec fn blocks_fault(row: nat) -> Option<Fault> {
    if row > u32::MAX {
        Some(Fault::InvalidInput("quantization supports at most u32::MAX rows"@))
    } else if row * 2 > u32::MAX {
        Some(Fault::InvalidInput("quantization row coordinate overflowed"@))
    } else {
        None
    }
}

/// The random blocks of a row: one for its gradient, one for its hessian.
pub fn row_blocks(row: usize) -> (r: Result<(u32, u32), PbError>)
    ensures
        answers(r, blocks_fault(row as nat)),
        r is Ok ==> (r->Ok_0).0 == row * 2 && (r->Ok_0).1 == row * 2 + 1,
{
    if row as u64 > 0xffff_ffff {
        return Err(invalid_input("quantization supports at most u32::MAX rows"));
    }
    if row as u64 > 0x7fff_ffff {
        return Err(invalid_input("quantization row coordinate overflowed"));
    }
    let g: u32 = row as u32 * 2;
    Ok((g, g + 1))
}

/// Whether an exact half is rounded up: the share `(draw + 1) / 2^53` lies below
/// one half.
pub open spec fn half_up(draw: nat) -> bool {
    2 * (draw + 1) < 0x20_0000_0000_0000
}

/// Whether the coin of a block rounds an exact half up.
pub fn half_rounds_up(seed: u64, round: u32, block: u32) -> (b: bool)
    ensures
        b == half_up((seed_of(seed, round, Stage::Quantize.code(), block) >> 11) as nat),
{
    let bits: u64 = pb_seed(seed, round, Stage::Quantize.number(), block);
    let draw: u64 = bits >> 11;
    assert(bits >> 11 < 0x20_0000_0000_0000) by (bit_vector);
    2 * (draw + 1) < 0x20_0000_0000_0000
}

/// Halves are rounded without bias: of two draws that mirror each other exactly
/// one rounds up, and small draws do.
pub proof fn law_halves_round_up_half_of_the_time(draw: nat)
    requires
        draw <= 0x1f_ffff_ffff_fffe,
        draw != 0xf_ffff_ffff_ffff,
    ensures
        half_up(draw) <==> !half_up((0x1f_ffff_ffff_fffe - draw) as nat),
        draw < 0xf_ffff_ffff_ffff ==> half_up(draw),
        !half_up(0xf_ffff_ffff_ffff),
{
}

/// A row has its two numbers exactly when both fit into 32 bits.
pub proof fn law_rows_are_numbered_while_they_fit(row: nat)
    ensures
        blocks_fault(row) is None <==> 2 * row + 1 <= 0xffff_ffff,
{
}

/// Pairs are quantized exactly when they are as many and all finite.
pub proof fn law_finite_pairs_are_quantized(g: Seq<F32>, h: Seq<F32>)
    ensures
        quantize_fault(g, h) is None <==> g.len() == h.len() && forall|i: int|
            0 <= i < g.len() ==> (#[trigger] g[i]).finite() && h[i].finite(),
{
    let f = |i: int| finite_row_fault(g, h, i);
    lemma_no_fault(f, g.len() as int);
    if forall|i: int| 0 <= i < g.len() ==> (#[trigger] f(i)) is None {
        assert forall|i: int| 0 <= i < g.len() implies (#[trigger] g[i]).finite() && h[i].finite() by {
            assert(f(i) is None);
        }
    } else {
        let i = choose|i: int| 0 <= i < g.len() && !((#[trigger] f(i)) is None);
        assert(!g[i].finite() || !h[i].finite());
    }
}

} // verus!
