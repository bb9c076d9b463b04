//! The decimal text of a number: the shortest one that reads back as the number.
//!
//! Two neighbouring numbers share the decimals between them, each taking those
//! that lie nearer to it. Of the decimals that a number takes, the text is one
//! with the fewest places; where several have as few, it is the nearest one, and
//! the larger of two that are as near.
use crate::digits::{
    all_digits, digits_below, digits_of, digits_text, digits_value, lower, padded, scaled, shifted, tens,
    trimmed, upper, write_digits,
};
use crate::digits::{
    lemma_digits_bound, lemma_split, lemma_tens_ascend, lemma_tens_pos, lemma_text_is_decimal,
};
use crate::float::{F32, F64};
use crate::text::dec;
use vstd::arithmetic::power2::*;
use vstd::prelude::*;

verus! {

/// The two formats of numbers.
#[derive(Debug, Clone, Copy, PartialEq, Eq, Structural)]
pub enum Format {
    /// 32 bits, 23 of them after the leading one.
    Single,
    /// 64 bits, 52 of them after the leading one.
    Double,
}

impl Format {
    /// The places after the decimal point that write every number, and every
    /// number half-way between two neighbours, exactly.
    pub open spec fn places(self) -> nat {
        match self {
            Format::Single => 150,
            Format::Double => 1075,
        }
    }

    /// The magnitude of infinity.
    pub open spec fn infinite(self) -> int {
        match self {
            Format::Single => 0x7f80_0000,
            Format::Double => 0x7ff0_0000_0000_0000,
        }
    }

    /// The leading one of a number that has it.
    pub open spec fn leading(self) -> int {
        match self {
            Format::Single => 0x80_0000,
            Format::Double => 0x10_0000_0000_0000,
        }
    }

    /// The exponent that a magnitude holds.
    pub open spec fn exponent(self, k: int) -> int {
        match self {
            Format::Single => k / 0x80_0000,
            Format::Double => k / 0x10_0000_0000_0000,
        }
    }

    /// The digits that a magnitude holds after the leading one.
    pub open spec fn fraction(self, k: int) -> int {
        match self {
            Format::Single => k % 0x80_0000,
            Format::Double => k % 0x10_0000_0000_0000,
        }
    }

    /// The number with this magnitude, in units of the smallest positive one.
    pub open spec fn units(self, k: int) -> int {
        let (e, f) = (self.exponent(k), self.fraction(k));
        if e == 0 {
            f
        } else {
            (self.leading() + f) * pow2((e - 1) as nat)
        }
    }
}

/// Five to the power `n`.
pub open spec fn fives(n: nat) -> int
    decreases n,
{
    if n == 0 {
        1
    } else {
        5 * fives((n - 1) as nat)
    }
}

/// The number with this magnitude, counted in the last place.
pub open spec fn exact_value(w: Format, k: int) -> int {
    2 * w.units(k) * fives(w.places())
}

/// The point half-way between the numbers with magnitudes `k` and `k + 1`, counted
/// in the last place.
pub open spec fn half_way(w: Format, k: int) -> int {
    (w.units(k) + w.units(k + 1)) * fives(w.places())
}

/// Whether the decimal `d` with `p` places dropped reads back as the number with
/// magnitude `k`: it lies between the points half-way to both neighbours, which
/// themselves go to the number whose pattern is even.
pub open spec fn reads_back(w: Format, k: int, d: int, p: int) -> bool {
    let x = d * tens(p as nat);
    &&& d >= 0
    &&& p >= 0
    &&& if k % 2 == 0 {
        half_way(w, k - 1) <= x <= half_way(w, k)
    } else {
        half_way(w, k - 1) < x < half_way(w, k)
    }
}

/// How far the decimal `d` with `p` places dropped is from the number.
pub open spec fn gap(w: Format, k: int, d: int, p: int) -> int {
    let g = d * tens(p as nat) - exact_value(w, k);
    if g >= 0 {
        g
    } else {
        -g
    }
}

/// Whether `d` with `p` places dropped reads back, no decimal with more places
/// dropped does, and none with as many is nearer, or as near and larger.
pub open spec fn is_shortest(w: Format, k: int, d: int, p: int) -> bool {
    &&& reads_back(w, k, d, p)
    &&& forall|e: int, q: int| #[trigger] reads_back(w, k, e, q) ==> q <= p
    &&& forall|e: int| #[trigger]
        reads_back(w, k, e, p) && e != d ==> {
        ||| gap(w, k, d, p) < gap(w, k, e, p)
        ||| gap(w, k, d, p) == gap(w, k, e, p) && d > e
    }
}

/// So many zeros.
pub open spec fn zeros(n: nat) -> Seq<char> {
    Seq::new(n, |i: int| '0')
}

/// The text of the decimal `d` with `p` of `places` places dropped.
pub open spec fn placed(d: nat, p: int, places: nat) -> Seq<char> {
    let s = dec(d);
    if p >= places {
        s + zeros((p - places) as nat)
    } else {
        let q = places - p;
        if s.len() > q {
            s.take(s.len() - q) + "."@ + s.skip(s.len() - q)
        } else {
            "0."@ + zeros((q - s.len()) as nat) + s
        }
    }
}

/// The text of a number without its sign.
pub open spec fn magnitude_text(w: Format, k: int) -> Seq<char> {
    if k > w.infinite() {
        "NaN"@
    } else if k == w.infinite() {
        "inf"@
    } else if k == 0 {
        "0"@
    } else {
        let (d, p) = choose|d: int, p: int| is_shortest(w, k, d, p);
        placed(d as nat, p, w.places())
    }
}

/// The text of a number: not-a-number has no sign.
pub open spec fn signed_text(w: Format, negative: bool, k: int) -> Seq<char> {
    if negative && k <= w.infinite() {
        "-"@ + magnitude_text(w, k)
    } else {
        magnitude_text(w, k)
    }
}

/// The decimal text of a number.
pub open spec fn shown(a: F32) -> Seq<char> {
    signed_text(Format::Single, a.bits >= 0x8000_0000, a.magnitude())
}

/// The decimal text of a number in the wider format.
pub open spec fn shown_double(a: F64) -> Seq<char> {
    signed_text(Format::Double, a.bits >= 0x8000_0000_0000_0000, a.magnitude())
}

/// One decimal only is the shortest.
proof fn lemma_shortest_is_unique(w: Format, k: int, d: int, p: int, e: int, q: int)
    requires
        is_shortest(w, k, d, p),
        is_shortest(w, k, e, q),
    ensures
        d == e,
        p == q,
{
    assert(reads_back(w, k, d, p));
    assert(reads_back(w, k, e, q));
}

/// The digits of `m * 2^shift * 5^places`.
fn exact_digits(m: u64, shift: u64, places: usize) -> (r: Vec<u8>)
    requires
        shift < 0x800,
        places < 0x800,
    ensures
        all_digits(r@),
        digits_value(r@) == m * pow2(shift as nat) * fives(places as nat),
        r.len() < 0x1100,
{
    let mut r: Vec<u8> = digits_of(m);
    let mut i: u64 = 0;
    proof {
        lemma2_to64();
        assert(m * pow2(0) == m);
    }
    while i < shift
        invariant
            i <= shift < 0x800,
            all_digits(r@),
            digits_value(r@) == m * pow2(i as nat),
            r.len() <= 20 + i,
        decreases shift - i,
    {
        r = scaled(&r, 2, 0);
        proof {
            lemma_pow2_unfold((i + 1) as nat);
            let k = pow2(i as nat) as int;
            assert(2 * (m * k) == m * (2 * k)) by (nonlinear_arith);
        }
        i = i + 1;
    }
    let ghost base = m * pow2(shift as nat);
    let mut j: usize = 0;
    assert(base * fives(0) == base) by (nonlinear_arith)
        requires
            fives(0) == 1,
    ;
    while j < places
        invariant
            j <= places < 0x800,
            shift < 0x800,
            all_digits(r@),
            digits_value(r@) == base * fives(j as nat),
            r.len() <= 20 + shift + j,
        decreases places - j,
    {
        r = scaled(&r, 5, 0);
        proof {
            let k = fives(j as nat);
            assert(5 * (base * k) == base * (5 * k)) by (nonlinear_arith);
        }
        j = j + 1;
    }
    r
}

/// The number between the points half-way to its neighbours, all three by their
/// digits.
struct Span {
    low: Vec<u8>,
    mid: Vec<u8>,
    high: Vec<u8>,
}

impl Span {
    spec fn of(self, w: Format, k: int) -> bool {
        &&& all_digits(self.low@)
        &&& all_digits(self.mid@)
        &&& all_digits(self.high@)
        &&& self.low.len() == self.mid.len() == self.high.len() < 0x1100
        &&& digits_value(self.low@) == half_way(w, k - 1)
        &&& digits_value(self.mid@) == exact_value(w, k)
        &&& digits_value(self.high@) == half_way(w, k)
        &&& 0 < half_way(w, k - 1) < exact_value(w, k) < half_way(w, k)
    }
}

proof fn lemma_fives_pos(n: nat)
    ensures
        fives(n) >= 1,
    decreases n,
{
    if n > 0 {
        lemma_fives_pos((n - 1) as nat);
    }
}

/// The number after the one with magnitude `k` has one more in its significand.
proof fn lemma_next(w: Format, k: int, m: int, s: nat)
    requires
        0 <= k < w.infinite(),
        m == if w.exponent(k) == 0 {
            k
        } else {
            w.leading() + w.fraction(k)
        },
        s == if w.exponent(k) == 0 {
            0
        } else {
            w.exponent(k) - 1
        },
    ensures
        m >= 0,
        w.units(k) == m * pow2(s),
        w.units(k + 1) == (m + 1) * pow2(s),
        w.units(k) < w.units(k + 1),
{
    lemma2_to64();
    lemma_pow2_pos(s);
    let (e, f, l, t) = (w.exponent(k), w.fraction(k), w.leading(), pow2(s) as int);
    assert(e >= 0 && 0 <= f < l && k == e * l + f && (e == 0 ==> f == k));
    if e == 0 {
        assert(m * 1 == m && (m + 1) * 1 == m + 1);
    }
    if f + 1 == l {
        assert(w.exponent(k + 1) == e + 1 && w.fraction(k + 1) == 0);
        assert(l * 1 == l);
        if e > 0 {
            lemma_pow2_unfold((s + 1) as nat);
            assert(l * (2 * t) == (2 * l) * t) by (nonlinear_arith);
            assert(w.units(k + 1) == l * pow2(e as nat));
        } else {
            assert(w.units(k + 1) == l * pow2(0));
        }
    } else {
        assert(w.exponent(k + 1) == e && w.fraction(k + 1) == f + 1);
    }
    assert(m * t < (m + 1) * t) by (nonlinear_arith)
        requires
            t > 0,
    ;
}

/// The significand and the exponent of a magnitude, and those of the points
/// half-way to its neighbours.
proof fn lemma_span(w: Format, k: int, m: int, s: nat, lm: int, ls: nat)
    requires
        0 < k < w.infinite(),
        m == if w.exponent(k) == 0 {
            k
        } else {
            w.leading() + w.fraction(k)
        },
        s == if w.exponent(k) == 0 {
            0
        } else {
            w.exponent(k) - 1
        },
        lm == if w.fraction(k) == 0 && s > 0 {
            4 * w.leading() - 1
        } else {
            2 * m - 1
        },
        ls == if w.fraction(k) == 0 && s > 0 {
            s - 1
        } else {
            s as int
        },
    ensures
        2 * w.units(k) == (2 * m) * pow2(s),
        w.units(k - 1) + w.units(k) == lm * pow2(ls),
        w.units(k) + w.units(k + 1) == (2 * m + 1) * pow2(s),
        0 < w.units(k - 1) + w.units(k) < 2 * w.units(k) < w.units(k) + w.units(k + 1),
{
    lemma2_to64();
    let (e, f, l, t) = (w.exponent(k), w.fraction(k), w.leading(), pow2(s) as int);
    let (d, g) = (w.exponent(k - 1), w.fraction(k - 1));
    lemma_next(w, k, m, s);
    assert(2 * (m * t) == (2 * m) * t) by (nonlinear_arith);
    assert(m * t + (m + 1) * t == (2 * m + 1) * t) by (nonlinear_arith);
    assert(0 <= f < l && (f == 0 ==> d == e - 1 && g == l - 1) && (f > 0 ==> d == e && g == f - 1));
    let (n, r) = if d == 0 {
        (k - 1, 0nat)
    } else {
        (l + g, (d - 1) as nat)
    };
    lemma_next(w, k - 1, n, r);
    let u = pow2(r) as int;
    if f == 0 && s > 0 {
        lemma_pow2_unfold(s);
        assert(r == s - 1 && n == 2 * l - 1);
        assert((2 * l - 1) * u + (2 * l) * u == (4 * l - 1) * u) by (nonlinear_arith);
    } else {
        assert(r == s && n == m - 1);
        assert((m - 1) * t + m * t == (2 * m - 1) * t) by (nonlinear_arith);
    }
    assert(n * u >= 0) by (nonlinear_arith)
        requires
            n >= 0,
            u >= 0,
    ;
}

/// The number with magnitude `k` and the points half-way to its neighbours.
fn span_of(w: Format, k: u64) -> (r: Span)
    requires
        0 < k < w.infinite(),
    ensures
        r.of(w, k as int),
{
    let leading: u64 = match w {
        Format::Single => 0x80_0000,
        Format::Double => 0x10_0000_0000_0000,
    };
    let places: usize = match w {
        Format::Single => 150,
        Format::Double => 1075,
    };
    let (e, f): (u64, u64) = match w {
        Format::Single => (k / 0x80_0000, k % 0x80_0000),
        Format::Double => (k / 0x10_0000_0000_0000, k % 0x10_0000_0000_0000),
    };
    let m: u64 = if e == 0 {
        f
    } else {
        leading + f
    };
    let s: u64 = if e == 0 {
        0
    } else {
        e - 1
    };
    let edge: bool = f == 0 && s > 0;
    let low_m: u64 = if edge {
        4 * leading - 1
    } else {
        2 * m - 1
    };
    let low_s: u64 = if edge {
        s - 1
    } else {
        s
    };
    let low = exact_digits(low_m, low_s, places);
    let mid = exact_digits(2 * m, s, places);
    let high = exact_digits(2 * m + 1, s, places);
    proof {
        lemma_span(w, k as int, m as int, s as nat, low_m as int, low_s as nat);
        lemma_fives_pos(places as nat);
        let (a, b, c, v) = (
            w.units(k - 1) + w.units(k as int),
            2 * w.units(k as int),
            w.units(k as int) + w.units(k + 1),
            fives(places as nat),
        );
        assert(0 < a * v < b * v < c * v) by (nonlinear_arith)
            requires
                0 < a < b < c,
                v >= 1,
        ;
    }
    let n1: usize = if low.len() > mid.len() {
        low.len()
    } else {
        mid.len()
    };
    let n: usize = if high.len() > n1 {
        high.len()
    } else {
        n1
    };
    Span { low: padded(low, n), mid: padded(mid, n), high: padded(high, n) }
}

/// The decimal just below the number, or the one just above it, reads back where
/// any with as many places dropped does.
proof fn lemma_next_decimals(w: Format, k: int, c: int, p: int, e: int)
    requires
        c >= 0,
        p >= 0,
        c * tens(p as nat) <= exact_value(w, k) < (c + 1) * tens(p as nat),
        half_way(w, k - 1) < exact_value(w, k) < half_way(w, k),
        reads_back(w, k, e, p),
    ensures
        e <= c ==> reads_back(w, k, c, p) && gap(w, k, e, p) >= gap(w, k, c, p),
        e < c ==> gap(w, k, e, p) > gap(w, k, c, p),
        e > c ==> reads_back(w, k, c + 1, p) && gap(w, k, e, p) >= gap(w, k, c + 1, p),
        e > c + 1 ==> gap(w, k, e, p) > gap(w, k, c + 1, p),
        gap(w, k, c, p) == exact_value(w, k) - c * tens(p as nat),
        gap(w, k, c + 1, p) == (c + 1) * tens(p as nat) - exact_value(w, k),
{
    let t = tens(p as nat);
    lemma_tens_pos(p as nat);
    assert((e <= c ==> e * t <= c * t) && (e < c ==> e * t < c * t) && (e >= c + 1 ==> e * t >= (c
        + 1) * t) && (e > c + 1 ==> e * t > (c + 1) * t)) by (nonlinear_arith)
        requires
            t >= 1,
    ;
}

/// The shortest decimal: its digits, and how many places are dropped.
fn shortest(w: Format, k: u64, z: &Span) -> (r: (Vec<u8>, usize))
    requires
        z.of(w, k as int),
    ensures
        all_digits(r.0@),
        is_shortest(w, k as int, digits_value(r.0@), r.1 as int),
        r.0.len() > 0,
        r.0@.last() != 0,
        r.0.len() + r.1 < 0x1102,
{
    let even: bool = k % 2 == 0;
    let mut p: usize = z.mid.len();
    proof {
        assert forall|e: int, q: int| #[trigger] reads_back(w, k as int, e, q) implies q <= p by {
            lemma_digits_bound(z.high@);
            if q > p {
                lemma_tens_ascend(p as nat, q as nat);
                let (t, u) = (tens(q as nat), tens(p as nat));
                assert(e == 0 ==> e * t == 0);
                assert(e >= 1 ==> e * t >= u) by (nonlinear_arith)
                    requires
                        t >= u >= 0,
                ;
            }
        }
    }
    loop
        invariant
            z.of(w, k as int),
            even == (k % 2 == 0),
            p <= z.mid.len(),
            forall|e: int, q: int| #[trigger] reads_back(w, k as int, e, q) ==> q <= p,
        decreases p,
    {
        let c = upper(&z.mid, p);
        let lo = shifted(&c, p);
        let above = scaled(&c, 1, 1);
        let hi = shifted(&above, p);
        let ghost n = digits_value(c@);
        let ghost t = tens(p as nat);
        proof {
            lemma_split(z.mid@, p as int);
            lemma_digits_bound(c@);
            let rest = z.mid@.take(p as int);
            assert forall|i: int| 0 <= i < rest.len() implies #[trigger] rest[i] < 10 by {
                assert(z.mid@[i] < 10);
            }
            lemma_digits_bound(rest);
            assert(digits_value(above@) == n + 1);
            assert((n + 1) * t == n * t + t) by (nonlinear_arith);
            assert(n * t <= exact_value(w, k as int) < (n + 1) * t);
        }
        let lo_reads: bool = if even {
            !digits_below(&lo, &z.low)
        } else {
            digits_below(&z.low, &lo)
        };
        let hi_reads: bool = if even {
            !digits_below(&z.high, &hi)
        } else {
            digits_below(&hi, &z.high)
        };
        assert(lo_reads == reads_back(w, k as int, n, p as int));
        assert(hi_reads == reads_back(w, k as int, n + 1, p as int));
        if lo_reads || hi_reads {
            let twice = scaled(&z.mid, 2, 0);
            let middle = shifted(&scaled(&c, 2, 1), p);
            let up: bool = !lo_reads || (hi_reads && !digits_below(&twice, &middle));
            let d = if up {
                trimmed(above)
            } else {
                trimmed(c)
            };
            proof {
                assert((2 * n + 1) * t == n * t + (n + 1) * t) by (nonlinear_arith);
                let chosen = digits_value(d@);
                assert forall|e: int| #[trigger] reads_back(w, k as int, e, p as int) && e
                    != chosen implies gap(w, k as int, chosen, p as int) < gap(w, k as int, e, p as int)
                    || (gap(w, k as int, chosen, p as int) == gap(w, k as int, e, p as int) && chosen
                    > e) by {
                    lemma_next_decimals(w, k as int, n, p as int, e);
                }
                assert(reads_back(w, k as int, chosen, p as int));
                assert(d.len() > 0) by {
                    if d.len() == 0 {
                        assert(chosen == 0);
                        assert(0 * t == 0);
                    }
                }
            }
            return (d, p);
        }
        proof {
            if p == 0 {
                assert(z.mid@.skip(0) =~= z.mid@);
                assert(n * t == n) by (nonlinear_arith)
                    requires
                        t == 1,
                ;
            }
            assert forall|e: int, q: int| #[trigger] reads_back(w, k as int, e, q) implies q <= p
                - 1 by {
                if q == p {
                    lemma_next_decimals(w, k as int, n, p as int, e);
                }
            }
        }
        p = p - 1;
    }
}

/// So many zeros as text.
fn write_zeros(n: usize) -> (s: String)
    ensures
        s@ == zeros(n as nat),
{
    let mut s = String::from_str("");
    proof {
        reveal_strlit("");
        reveal_strlit("0");
        assert(s@ =~= zeros(0));
    }
    let mut i: usize = 0;
    while i < n
        invariant
            i <= n,
            s@ == zeros(i as nat),
            "0"@ == seq!['0'],
        decreases n - i,
    {
        s.append("0");
        assert(s@ =~= zeros((i + 1) as nat));
        i = i + 1;
    }
    s
}

/// The text of the decimal with these digits and `p` of `places` places dropped.
fn write_placed(d: &Vec<u8>, p: usize, places: usize) -> (s: String)
    requires
        all_digits(d@),
        d.len() > 0,
        d@.last() != 0,
    ensures
        s@ == placed(digits_value(d@) as nat, p as int, places as nat),
{
    proof {
        lemma_text_is_decimal(d@);
    }
    if p >= places {
        let mut s = write_digits(d);
        s.append(write_zeros(p - places).as_str());
        s
    } else {
        let q: usize = places - p;
        if d.len() > q {
            let mut s = write_digits(&upper(d, q));
            s.append(".");
            s.append(write_digits(&lower(d, q)).as_str());
            proof {
                let t = digits_text(d@);
                assert(t.take(t.len() - q) =~= digits_text(d@.skip(q as int)));
                assert(t.skip(t.len() - q) =~= digits_text(d@.take(q as int)));
            }
            s
        } else {
            let mut s = String::from_str("0.");
            s.append(write_zeros(q - d.len()).as_str());
            s.append(write_digits(d).as_str());
            s
        }
    }
}

/// The text of the number with this magnitude.
fn write_signed(w: Format, negative: bool, k: u64) -> (s: String)
    ensures
        s@ == signed_text(w, negative, k as int),
{
    let infinite: u64 = match w {
        Format::Single => 0x7f80_0000,
        Format::Double => 0x7ff0_0000_0000_0000,
    };
    let places: usize = match w {
        Format::Single => 150,
        Format::Double => 1075,
    };
    if k > infinite {
        return String::from_str("NaN");
    }
    let text = if k == infinite {
        String::from_str("inf")
    } else if k == 0 {
        String::from_str("0")
    } else {
        let (d, p) = shortest(w, k, &span_of(w, k));
        proof {
            let (e, q) = choose|e: int, q: int| is_shortest(w, k as int, e, q);
            lemma_shortest_is_unique(w, k as int, digits_value(d@), p as int, e, q);
        }
        write_placed(&d, p, places)
    };
    if negative {
        let mut s = String::from_str("-");
        s.append(text.as_str());
        s
    } else {
        text
    }
}

/// Writes a number in decimal.
pub fn show(a: F32) -> (s: String)
    ensures
        s@ == shown(a),
{
    if a.bits >= 0x8000_0000 {
        write_signed(Format::Single, true, (a.bits - 0x8000_0000) as u64)
    } else {
        write_signed(Format::Single, false, a.bits as u64)
    }
}

/// Writes a number of the wider format in decimal.
pub fn show_double(a: F64) -> (s: String)
    ensures
        s@ == shown_double(a),
{
    if a.bits >= 0x8000_0000_0000_0000 {
        write_signed(Format::Double, true, a.bits - 0x8000_0000_0000_0000)
    } else {
        write_signed(Format::Double, false, a.bits)
    }
}

/// A literal followed by a number.
pub fn number_shown(head: &str, a: F32) -> (s: String)
    ensures
        s@ == head@ + shown(a),
{
    let mut s = String::from_str(head);
    s.append(show(a).as_str());
    s
}

/// Larger magnitudes have larger units.
pub(crate) proof fn lemma_units_ascend(w: Format, j: int, k: int)
    requires
        0 <= j < k <= w.infinite(),
    ensures
        0 <= w.units(j) < w.units(k),
    decreases k - j,
{
    let (e, f) = (w.exponent(j), w.fraction(j));
    let (m, s) = if e == 0 {
        (j, 0nat)
    } else {
        (w.leading() + f, (e - 1) as nat)
    };
    lemma_next(w, j, m, s);
    let t = pow2(s) as int;
    assert(m * t >= 0) by (nonlinear_arith)
        requires
            m >= 0,
            t >= 0,
    ;
    if j + 1 < k {
        lemma_units_ascend(w, j + 1, k);
    }
}

/// No decimal reads back as two numbers.
pub proof fn law_decimals_read_back_once(w: Format, j: int, k: int, d: int, p: int)
    requires
        0 < j < k < w.infinite(),
        reads_back(w, j, d, p),
    ensures
        !reads_back(w, k, d, p),
{
    if j < k - 1 {
        lemma_fives_pos(w.places());
        lemma_units_ascend(w, j, k - 1);
        lemma_units_ascend(w, j + 1, k);
        let (a, b, v) = (
            w.units(j) + w.units(j + 1),
            w.units(k - 1) + w.units(k),
            fives(w.places()),
        );
        assert(a * v < b * v) by (nonlinear_arith)
            requires
                a < b,
                v >= 1,
        ;
    }
}

} // verus!
