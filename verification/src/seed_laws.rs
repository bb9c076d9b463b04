//! Laws of the seed mixer: it loses nothing.
use crate::backend::{mix64, seed_of};
use vstd::arithmetic::div_mod::*;
use vstd::prelude::*;

verus! {

/// Multiplying by an odd constant modulo 2^64 is undone by its inverse.
pub proof fn lemma_mul_undone(x: u64, c: u64, inv: u64)
    requires
        (c as nat * inv as nat) % 0x1_0000_0000_0000_0000 == 1,
    ensures
        x.wrapping_mul(c).wrapping_mul(inv) == x,
{
    let m: int = 0x1_0000_0000_0000_0000;
    let xc = x as int * c as int;
    let ci = c as int * inv as int;
    lemma_mul_mod_noop_left(xc, inv as int, m);
    assert(xc * inv as int == x as int * ci) by (nonlinear_arith)
        requires
            xc == x as int * c as int,
            ci == c as int * inv as int,
    ;
    lemma_mul_mod_noop_right(x as int, ci, m);
    assert(x as int * (ci % m) == x as int);
    lemma_small_mod(x as nat, m as nat);
    assert(0 <= xc) by (nonlinear_arith)
        requires
            xc == x as int * c as int,
    ;
    assert(x.wrapping_mul(c) as int == xc % m);
}

/// The finaliser never sends two inputs to one output.
pub proof fn law_mix_injective(a: u64, b: u64)
    requires
        mix64(a) == mix64(b),
    ensures
        a == b,
{
    let a0 = a ^ (a >> 30);
    let b0 = b ^ (b >> 30);
    let a1 = a0.wrapping_mul(0xBF58_476D_1CE4_E5B9);
    let b1 = b0.wrapping_mul(0xBF58_476D_1CE4_E5B9);
    let a2 = a1 ^ (a1 >> 27);
    let b2 = b1 ^ (b1 >> 27);
    let a3 = a2.wrapping_mul(0x94D0_49BB_1331_11EB);
    let b3 = b2.wrapping_mul(0x94D0_49BB_1331_11EB);
    assert(a3 ^ (a3 >> 31) == b3 ^ (b3 >> 31));
    assert(a3 == b3) by (bit_vector)
        requires
            a3 ^ (a3 >> 31) == b3 ^ (b3 >> 31),
    ;
    lemma_mul_undone(a2, 0x94D0_49BB_1331_11EB, 0x3196_42B2_D24D_8EC3);
    lemma_mul_undone(b2, 0x94D0_49BB_1331_11EB, 0x3196_42B2_D24D_8EC3);
    assert(a1 == b1) by (bit_vector)
        requires
            a1 ^ (a1 >> 27) == b1 ^ (b1 >> 27),
    ;
    lemma_mul_undone(a0, 0xBF58_476D_1CE4_E5B9, 0x96DE_1B17_3F11_9089);
    lemma_mul_undone(b0, 0xBF58_476D_1CE4_E5B9, 0x96DE_1B17_3F11_9089);
    assert(a == b) by (bit_vector)
        requires
            a ^ (a >> 30) == b ^ (b >> 30),
    ;
}

/// Under fixed coordinates, different base seeds give different seeds.
pub proof fn law_seed_injective_in_base(a: u64, b: u64, round: u32, stage: u32, block: u32)
    requires
        seed_of(a, round, stage, block) == seed_of(b, round, stage, block),
    ensures
        a == b,
{
    let r = (round as u64).wrapping_mul(0x9E37_79B9_7F4A_7C15);
    let s = (stage as u64).wrapping_mul(0xBF58_476D_1CE4_E5B9);
    let k = (block as u64).wrapping_mul(0x94D0_49BB_1331_11EB);
    law_mix_injective(a ^ r ^ s ^ k, b ^ r ^ s ^ k);
    assert(a == b) by (bit_vector)
        requires
            a ^ r ^ s ^ k == b ^ r ^ s ^ k,
    ;
}

/// Two blocks (rows, features, axes) of one stage never share a seed, so an
/// order by seed has no ties.
pub proof fn law_seed_injective_in_block(base: u64, round: u32, stage: u32, a: u32, b: u32)
    requires
        seed_of(base, round, stage, a) == seed_of(base, round, stage, b),
    ensures
        a == b,
{
    let r = (round as u64).wrapping_mul(0x9E37_79B9_7F4A_7C15);
    let s = (stage as u64).wrapping_mul(0xBF58_476D_1CE4_E5B9);
    let ka = (a as u64).wrapping_mul(0x94D0_49BB_1331_11EB);
    let kb = (b as u64).wrapping_mul(0x94D0_49BB_1331_11EB);
    law_mix_injective(base ^ r ^ s ^ ka, base ^ r ^ s ^ kb);
    assert(ka == kb) by (bit_vector)
        requires
            base ^ r ^ s ^ ka == base ^ r ^ s ^ kb,
    ;
    lemma_mul_undone(a as u64, 0x94D0_49BB_1331_11EB, 0x3196_42B2_D24D_8EC3);
    lemma_mul_undone(b as u64, 0x94D0_49BB_1331_11EB, 0x3196_42B2_D24D_8EC3);
}

/// Two rounds never share a seed of the same stage and block.
pub proof fn law_seed_injective_in_round(base: u64, a: u32, b: u32, stage: u32, block: u32)
    requires
        seed_of(base, a, stage, block) == seed_of(base, b, stage, block),
    ensures
        a == b,
{
    let ra = (a as u64).wrapping_mul(0x9E37_79B9_7F4A_7C15);
    let rb = (b as u64).wrapping_mul(0x9E37_79B9_7F4A_7C15);
    let s = (stage as u64).wrapping_mul(0xBF58_476D_1CE4_E5B9);
    let k = (block as u64).wrapping_mul(0x94D0_49BB_1331_11EB);
    law_mix_injective(base ^ ra ^ s ^ k, base ^ rb ^ s ^ k);
    assert(ra == rb) by (bit_vector)
        requires
            base ^ ra ^ s ^ k == base ^ rb ^ s ^ k,
    ;
    lemma_mul_undone(a as u64, 0x9E37_79B9_7F4A_7C15, 0xF1DE_83E1_9937_733D);
    lemma_mul_undone(b as u64, 0x9E37_79B9_7F4A_7C15, 0xF1DE_83E1_9937_733D);
}

/// Two stages never share a seed of the same round and block.
pub proof fn law_seed_injective_in_stage(base: u64, round: u32, a: u32, b: u32, block: u32)
    requires
        seed_of(base, round, a, block) == seed_of(base, round, b, block),
    ensures
        a == b,
{
    let r = (round as u64).wrapping_mul(0x9E37_79B9_7F4A_7C15);
    let sa = (a as u64).wrapping_mul(0xBF58_476D_1CE4_E5B9);
    let sb = (b as u64).wrapping_mul(0xBF58_476D_1CE4_E5B9);
    let k = (block as u64).wrapping_mul(0x94D0_49BB_1331_11EB);
    law_mix_injective(base ^ r ^ sa ^ k, base ^ r ^ sb ^ k);
    assert(sa == sb) by (bit_vector)
        requires
            base ^ r ^ sa ^ k == base ^ r ^ sb ^ k,
    ;
    lemma_mul_undone(a as u64, 0xBF58_476D_1CE4_E5B9, 0x96DE_1B17_3F11_9089);
    lemma_mul_undone(b as u64, 0xBF58_476D_1CE4_E5B9, 0x96DE_1B17_3F11_9089);
}

} // verus!
