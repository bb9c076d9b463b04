//! The exact values of numbers, and where rounded midpoints lie.
//!
//! Every finite [`F32`] is a whole multiple of the smallest one. [`value`] counts
//! in that unit, so that sums and halves of numbers can be spoken of exactly.
use crate::float::F32;
use crate::shown::{lemma_units_ascend, Format};
use vstd::prelude::*;

verus! {

/// The value of a finite number, in units of the smallest positive number.
pub open spec fn value(a: F32) -> int {
    if a.key() >= 0 {
        Format::Single.units(a.key())
    } else {
        -Format::Single.units(-a.key())
    }
}

/// Numbers are ordered as their values are.
pub proof fn law_values_are_ordered(a: F32, b: F32)
    requires
        a.finite(),
        b.finite(),
    ensures
        a.below(b) <==> value(a) < value(b),
        a.same(b) <==> value(a) == value(b),
{
    let (j, k) = (a.key(), b.key());
    assert(Format::Single.units(0) == 0);
    if j > 0 {
        lemma_units_ascend(Format::Single, 0, j);
    }
    if j < 0 {
        lemma_units_ascend(Format::Single, 0, -j);
    }
    if k > 0 {
        lemma_units_ascend(Format::Single, 0, k);
    }
    if k < 0 {
        lemma_units_ascend(Format::Single, 0, -k);
    }
    if 0 <= j < k {
        lemma_units_ascend(Format::Single, j, k);
    }
    if 0 <= k < j {
        lemma_units_ascend(Format::Single, k, j);
    }
    if j < k <= 0 {
        lemma_units_ascend(Format::Single, -k, -j);
    }
    if k < j <= 0 {
        lemma_units_ascend(Format::Single, -j, -k);
    }
}

/// Whether `t` is a rounding of the sum of two numbers that does not cross the
/// sum of any two numbers at most two steps apart: such sums have few digits, so
/// that a wider format holds them exactly.
pub open spec fn rounds_sum(t: int, a: F32, b: F32) -> bool {
    forall|c: F32, d: F32|
        #![trigger value(c), value(d)]
        c.finite() && d.finite() && -2 <= c.key() - d.key() <= 2 ==> {
            &&& value(a) + value(b) <= value(c) + value(d) ==> t <= value(c) + value(d)
            &&& value(a) + value(b) >= value(c) + value(d) ==> t >= value(c) + value(d)
        }
}

/// The distance of twice a number from `t`.
pub open spec fn distance(m: F32, t: int) -> int {
    let d = 2 * value(m) - t;
    if d >= 0 {
        d
    } else {
        -d
    }
}

/// Whether a number is nearest to half of `t`.
pub open spec fn nearest_half(m: F32, t: int) -> bool {
    m.finite() && forall|c: F32| c.finite() ==> distance(m, t) <= #[trigger] distance(c, t)
}

/// Whether a number is a rounded midpoint of two others: the sum is rounded, and
/// the nearest number to its half is taken.
pub open spec fn is_midpoint(m: F32, a: F32, b: F32) -> bool {
    exists|t: int| #[trigger] rounds_sum(t, a, b) && nearest_half(m, t)
}

/// The number with a given signed magnitude.
pub open spec fn with_key(k: int) -> F32 {
    if k >= 0 {
        F32 { bits: k as u32 }
    } else {
        F32 { bits: (0x8000_0000 - k) as u32 }
    }
}

/// The rounded midpoint of two numbers at least two steps apart lies strictly
/// between them.
pub proof fn law_midpoint_lies_between(m: F32, a: F32, b: F32)
    requires
        a.finite(),
        b.finite(),
        a.key() + 2 <= b.key(),
        is_midpoint(m, a, b),
    ensures
        a.below(m),
        m.below(b),
{
    let t = choose|t: int| #[trigger] rounds_sum(t, a, b) && nearest_half(m, t);
    let a1 = with_key(a.key() + 1);
    let a2 = with_key(a.key() + 2);
    let b1 = with_key(b.key() - 1);
    let b2 = with_key(b.key() - 2);
    law_values_are_ordered(a, a1);
    law_values_are_ordered(a1, a2);
    law_values_are_ordered(a2, b);
    law_values_are_ordered(b1, b);
    law_values_are_ordered(b2, b1);
    law_values_are_ordered(a, b2);
    law_values_are_ordered(m, a);
    law_values_are_ordered(m, b);
    assert(value(b2) + value(b) >= value(a) + value(b));
    assert(t <= value(b2) + value(b));
    assert(t >= value(a) + value(a2));
    assert(distance(m, t) <= distance(a1, t));
    assert(distance(m, t) <= distance(b1, t));
}

} // verus!
