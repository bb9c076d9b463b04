//! Tree dropout: which earlier trees a round leaves out.
use crate::backend::{pb_seed, seed_of, Stage};
use crate::boosters::config::{dart_fault, DartSpec};
use crate::error::{answers, invalid_input, shape_mismatch, Fault, PbError};
use crate::float::F32;
use crate::values::{law_values_are_ordered, value};
use vstd::arithmetic::power2::*;
use vstd::prelude::*;

verus! {

/// The significand of a non-negative finite number, as an integer.
pub open spec fn significand(x: F32) -> nat {
    let m = x.magnitude();
    if m < 0x80_0000 {
        m as nat
    } else {
        (m % 0x80_0000 + 0x80_0000) as nat
    }
}

/// The exponent of a non-negative finite number, in its biased form: the number
/// is its significand times two to this power, less 150.
pub open spec fn exponent(x: F32) -> nat {
    let e = x.magnitude() / 0x80_0000;
    if e < 1 {
        1
    } else {
        e as nat
    }
}

/// Whether `(draw + 1) / 2^53` lies below a rate: both sides times `2^150`.
pub open spec fn share_below(draw: nat, rate: F32) -> bool {
    (draw + 1) * pow2(97) < significand(rate) * pow2(exponent(rate))
}

/// Whether the share `(draw + 1) / 2^53` of the unit interval lies below a rate.
pub fn is_below(draw: u64, rate: F32) -> (b: bool)
    requires
        draw < 0x20_0000_0000_0000,
        dart_fault((DartSpec { drop_rate: rate, normalize: true })) is None,
    ensures
        b == share_below(draw as nat, rate),
{
    // The rate is not negative, though it may be negative zero.
    let mag: u32 = if rate.bits < 0x8000_0000 {
        rate.bits
    } else {
        rate.bits - 0x8000_0000
    };
    assert(mag < 0x3f80_0000);
    let m: u64 = if mag < 0x80_0000 {
        mag as u64
    } else {
        (mag % 0x80_0000 + 0x80_0000) as u64
    };
    let e: u32 = if mag / 0x80_0000 < 1 {
        1
    } else {
        mag / 0x80_0000
    };
    proof {
        assert(m == significand(rate) && e == exponent(rate));
        assert(m < 0x100_0000);
        assert(e <= 126);
    }
    let d: u64 = draw + 1;
    if e >= 97 {
        let s: u32 = e - 97;
        let p: u64 = power(s);
        proof {
            lemma_pow2_adds(97, s as nat);
            lemma_pow2_pos(97);
            assert(pow2(s as nat) <= pow2(29)) by {
                if s < 29 {
                    lemma_pow2_strictly_increases(s as nat, 29);
                }
            }
            lemma2_to64();
            assert(m * p <= 0x100_0000 * 0x2000_0000) by (nonlinear_arith)
                requires
                    m < 0x100_0000,
                    p <= 0x2000_0000,
            ;
            let q = pow2(97);
            assert(d * q < m * (q * p) <==> d < m * p) by (nonlinear_arith)
                requires
                    q > 0,
            ;
        }
        d < m * p
    } else {
        let s: u32 = 97 - e;
        proof {
            lemma_pow2_adds(e as nat, s as nat);
            lemma_pow2_pos(e as nat);
            let q = pow2(e as nat);
            let p = pow2(s as nat);
            assert(d * (q * p) < m * q <==> d * p < m) by (nonlinear_arith)
                requires
                    q > 0,
            ;
        }
        if s >= 24 {
            proof {
                if s > 24 {
                    lemma_pow2_strictly_increases(24, s as nat);
                }
                lemma2_to64();
                let p = pow2(s as nat);
                assert(d * p >= p) by (nonlinear_arith)
                    requires
                        d >= 1,
                        p >= 0,
                ;
            }
            return false;
        }
        if m == 0 {
            proof {
                let p = pow2(s as nat);
                assert(d * p >= 0) by (nonlinear_arith)
                    requires
                        d >= 1,
                        p >= 0,
                ;
            }
            return false;
        }
        let p: u64 = power(s);
        proof {
            assert(d * p < m <==> d <= (m - 1) / (p as int)) by (nonlinear_arith)
                requires
                    p > 0,
                    m > 0,
                    d >= 1,
            ;
        }
        d <= (m - 1) / p
    }
}

/// Two to a power below 64.
fn power(s: u32) -> (p: u64)
    requires
        s < 64,
    ensures
        p == pow2(s as nat),
        p > 0,
{
    let mut p: u64 = 1;
    let mut i: u32 = 0;
    proof {
        lemma2_to64();
    }
    while i < s
        invariant
            i <= s,
            s < 64,
            p == pow2(i as nat),
        decreases s - i,
    {
        proof {
            lemma_pow2_unfold((i + 1) as nat);
            lemma2_to64();
            lemma2_to64_rest();
            if i + 1 < 63 {
                lemma_pow2_strictly_increases((i + 1) as nat, 63);
            }
        }
        p = p * 2;
        i = i + 1;
    }
    proof {
        lemma_pow2_pos(s as nat);
    }
    p
}

/// The draw of a tree in a round: the upper 53 bits of its seed.
pub open spec fn drop_draw(seed: u64, round: u32, tree: int) -> nat {
    (seed_of(seed, round, Stage::Dart.code(), tree as u32) >> 11) as nat
}

/// Why there is no mask.
pub open spec fn mask_fault(n_trees: nat) -> Option<Fault> {
    if n_trees > 0x1_0000_0000 {
        Some(Fault::InvalidInput("DART supports at most u32::MAX trees"@))
    } else {
        None
    }
}

/// Which earlier trees a round drops; without dropout, an empty mask.
pub fn dart_drop_mask(dart: Option<DartSpec>, seed: u64, round: u32, n_trees: usize) -> (r: Result<
    Vec<bool>,
    PbError,
>)
    requires
        dart is Some ==> dart_fault(dart->0) is None,
    ensures
        dart is None ==> r is Ok && r->Ok_0@.len() == 0,
        dart is Some ==> answers(r, mask_fault(n_trees as nat)),
        dart is Some && r is Ok ==> r->Ok_0@.len() == n_trees && forall|i: int|
            0 <= i < n_trees ==> #[trigger] r->Ok_0@[i] == share_below(
                drop_draw(seed, round, i),
                dart->0.drop_rate,
            ),
{
    let spec = match dart {
        None => return Ok(Vec::new()),
        Some(d) => d,
    };
    if n_trees as u64 > 0x1_0000_0000 {
        return Err(invalid_input("DART supports at most u32::MAX trees"));
    }
    let code: u32 = Stage::Dart.number();
    let mut out: Vec<bool> = Vec::with_capacity(n_trees);
    let mut i: usize = 0;
    while i < n_trees
        invariant
            i <= n_trees,
            n_trees <= 0x1_0000_0000,
            dart == Some(spec),
            dart_fault(spec) is None,
            code == Stage::Dart.code(),
            out@.len() == i,
            forall|j: int|
                0 <= j < i ==> #[trigger] out@[j] == share_below(
                    drop_draw(seed, round, j),
                    dart->0.drop_rate,
                ),
        decreases n_trees - i,
    {
        let bits: u64 = pb_seed(seed, round, code, i as u32);
        assert(bits >> 11 < 0x20_0000_0000_0000) by (bit_vector);
        out.push(is_below(bits >> 11, spec.drop_rate));
        i = i + 1;
    }
    Ok(out)
}

/// A rate of zero drops nothing.
pub proof fn law_zero_rate_drops_nothing(draw: nat, rate: F32)
    requires
        rate.magnitude() == 0,
    ensures
        !share_below(draw, rate),
{
    lemma_pow2_pos(97);
    let q = pow2(97);
    let e = pow2(exponent(rate));
    assert((draw + 1) * q >= 0 && 0 * e == 0) by (nonlinear_arith)
        requires
            q > 0,
    ;
}

/// A larger draw is below a rate only where a smaller one is.
pub proof fn law_drops_follow_draws(a: nat, b: nat, rate: F32)
    requires
        a <= b,
        share_below(b, rate),
    ensures
        share_below(a, rate),
{
    let q = pow2(97);
    assert((a + 1) * q <= (b + 1) * q) by (nonlinear_arith)
        requires
            a <= b,
            q >= 0,
    ;
}

/// The number of dropped trees.
pub open spec fn dropped_count(drops: Seq<bool>) -> nat
    decreases drops.len(),
{
    if drops.len() == 0 {
        0
    } else {
        dropped_count(drops.drop_last()) + if drops.last() {
            1nat
        } else {
            0nat
        }
    }
}

/// Why a mask does not fit the trees.
pub open spec fn normalization_fault(n_trees: nat, n_drops: nat) -> Option<Fault> {
    if n_trees != n_drops {
        Some(Fault::ShapeMismatch("DART normalization mask length does not match tree count"@))
    } else {
        None
    }
}

/// By how many trees a round's dropout is normalised: with `k` trees dropped, the
/// new tree gets the weight `1/(k+1)` and each dropped one is scaled by
/// `k/(k+1)`. Zero means that all weights stay as they are.
pub fn dart_normalization(n_trees: usize, drops: &Vec<bool>, dart: &DartSpec) -> (r: Result<
    usize,
    PbError,
>)
    ensures
        answers(r, normalization_fault(n_trees as nat, drops@.len())),
        r is Ok ==> r->Ok_0 == (if dart.normalize {
            dropped_count(drops@)
        } else {
            0
        }),
{
    if n_trees != drops.len() {
        return Err(shape_mismatch("DART normalization mask length does not match tree count"));
    }
    if !dart.normalize {
        return Ok(0);
    }
    let mut n: usize = 0;
    let mut i: usize = 0;
    while i < drops.len()
        invariant
            i <= drops.len(),
            n <= i,
            n == dropped_count(drops@.take(i as int)),
        decreases drops.len() - i,
    {
        assert(drops@.take(i + 1).drop_last() =~= drops@.take(i as int));
        if drops[i] {
            n = n + 1;
        }
        i = i + 1;
    }
    assert(drops@.take(i as int) =~= drops@);
    Ok(n)
}

/// A tree is dropped exactly when its draw, as a share of all draws, lies below
/// the rate: `(draw + 1) / 2^53 < rate`, where `2^96 / 2^149` is `1 / 2^53`.
pub proof fn law_trees_are_dropped_at_the_rate(draw: nat, rate: F32)
    requires
        rate.finite(),
        rate.key() >= 0,
        rate.bits < 0x8000_0000,
    ensures
        share_below(draw, rate) <==> (draw + 1) * pow2(96) < value(rate),
{
    let e = rate.key() / 0x80_0000;
    let d = (draw + 1) as int;
    lemma_pow2_unfold(97);
    let p = pow2(96) as int;
    assert(d * (2 * p) == 2 * (d * p)) by (nonlinear_arith);
    let s = significand(rate) as int;
    lemma_pow2_unfold(exponent(rate));
    let q = pow2((exponent(rate) - 1) as nat) as int;
    assert(s * (2 * q) == 2 * (s * q)) by (nonlinear_arith);
    if e == 0 {
        lemma2_to64();
        assert(s * 1 == s);
    }
}

/// A higher rate drops every tree that a lower one drops.
pub proof fn law_higher_rates_drop_more(draw: nat, low: F32, high: F32)
    requires
        low.finite(),
        high.finite(),
        low.bits <= high.bits < 0x8000_0000,
        share_below(draw, low),
    ensures
        share_below(draw, high),
{
    law_trees_are_dropped_at_the_rate(draw, low);
    law_trees_are_dropped_at_the_rate(draw, high);
    law_values_are_ordered(low, high);
}

/// The dropped trees are those whose mask is set.
pub proof fn law_drops_are_counted(drops: Seq<bool>)
    ensures
        dropped_count(drops) == drops.filter(|d: bool| d).len(),
    decreases drops.len(),
{
    reveal(Seq::filter);
    if drops.len() > 0 {
        law_drops_are_counted(drops.drop_last());
    }
}

/// A mask is drawn exactly when every tree has a number of 32 bits, and applied
/// exactly when it has an entry for every tree.
pub proof fn law_masks_have_an_entry_per_tree(n_trees: nat, n_drops: nat)
    ensures
        mask_fault(n_trees) is None <==> forall|t: int|
            0 <= t < n_trees ==> #[trigger] (t as u32) as int == t,
        normalization_fault(n_trees, n_drops) is None <==> n_trees == n_drops,
{
    if n_trees > 0x1_0000_0000 {
        assert((0x1_0000_0000int as u32) as int != 0x1_0000_0000int);
    }
}

} // verus!
