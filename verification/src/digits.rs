//! Whole numbers of any size as decimal digits, the lowest digit first.
use crate::text::{dec, digit_char, digit_text};
use vstd::prelude::*;

verus! {

/// Ten to the power `p`.
pub open spec fn tens(p: nat) -> int
    decreases p,
{
    if p == 0 {
        1
    } else {
        10 * tens((p - 1) as nat)
    }
}

/// Whether every entry is a decimal digit.
pub open spec fn all_digits(s: Seq<u8>) -> bool {
    forall|i: int| 0 <= i < s.len() ==> #[trigger] s[i] < 10
}

/// The whole number that the digits write, the lowest digit first.
pub open spec fn digits_value(s: Seq<u8>) -> int
    decreases s.len(),
{
    if s.len() == 0 {
        0
    } else {
        s[0] + 10 * digits_value(s.drop_first())
    }
}

/// The digits as text, the highest digit first.
pub open spec fn digits_text(s: Seq<u8>) -> Seq<char> {
    Seq::new(s.len(), |i: int| digit_char(s[s.len() - 1 - i] as nat))
}

pub(crate) proof fn lemma_tens_pos(p: nat)
    ensures
        tens(p) >= 1,
    decreases p,
{
    if p > 0 {
        lemma_tens_pos((p - 1) as nat);
    }
}

pub(crate) proof fn lemma_tens_ascend(p: nat, q: nat)
    requires
        p <= q,
    ensures
        tens(p) <= tens(q),
    decreases q,
{
    if p < q {
        lemma_tens_ascend(p, (q - 1) as nat);
        lemma_tens_pos((q - 1) as nat);
    }
}

/// A digit on top counts by its place.
pub(crate) proof fn lemma_push(s: Seq<u8>, d: u8)
    ensures
        digits_value(s.push(d)) == digits_value(s) + d * tens(s.len()),
    decreases s.len(),
{
    let t = s.push(d);
    if s.len() == 0 {
        assert(t.drop_first() =~= Seq::<u8>::empty());
        assert(digits_value(t.drop_first()) == 0);
        assert(d * tens(0) == d) by (nonlinear_arith)
            requires
                tens(0) == 1,
        ;
    } else {
        assert(t.drop_first() =~= s.drop_first().push(d));
        lemma_push(s.drop_first(), d);
        let k = tens((s.len() - 1) as nat);
        assert(10 * (d * k) == d * (10 * k)) by (nonlinear_arith);
    }
}

/// Digits write less than ten to the power of their count.
pub(crate) proof fn lemma_digits_bound(s: Seq<u8>)
    requires
        all_digits(s),
    ensures
        0 <= digits_value(s) < tens(s.len()),
    decreases s.len(),
{
    if s.len() > 0 {
        let t = s.drop_first();
        assert(all_digits(t)) by {
            assert forall|i: int| 0 <= i < t.len() implies #[trigger] t[i] < 10 by {
                assert(t[i] == s[i + 1]);
            }
        }
        lemma_digits_bound(t);
        assert(s[0] < 10);
    }
}

/// The digits split at a place.
pub(crate) proof fn lemma_split(s: Seq<u8>, p: int)
    requires
        0 <= p <= s.len(),
    ensures
        digits_value(s) == digits_value(s.take(p)) + digits_value(s.skip(p)) * tens(p as nat),
    decreases s.len() - p,
{
    if p == s.len() {
        assert(s.take(p) =~= s);
        assert(s.skip(p) =~= Seq::<u8>::empty());
        assert(0 * tens(p as nat) == 0);
    } else {
        lemma_split(s, p + 1);
        assert(s.take(p + 1) =~= s.take(p).push(s[p]));
        lemma_push(s.take(p), s[p]);
        let t = s.skip(p);
        assert(t.drop_first() =~= s.skip(p + 1));
        let (a, b, k) = (s[p] as int, digits_value(s.skip(p + 1)), tens(p as nat));
        assert(a * k + b * (10 * k) == (a + 10 * b) * k) by (nonlinear_arith);
        assert(tens((p + 1) as nat) == 10 * k);
    }
}

/// Digits whose highest is not zero are the decimal text of their number.
pub(crate) proof fn lemma_text_is_decimal(s: Seq<u8>)
    requires
        all_digits(s),
        s.len() > 0,
        s.last() != 0,
    ensures
        digits_value(s) > 0,
        dec(digits_value(s) as nat) == digits_text(s),
    decreases s.len(),
{
    let t = s.drop_first();
    assert(s[0] < 10);
    if s.len() == 1 {
        assert(digits_value(t) == 0);
        assert(digits_text(s) =~= seq![digit_char(s[0] as nat)]);
    } else {
        assert(all_digits(t)) by {
            assert forall|i: int| 0 <= i < t.len() implies #[trigger] t[i] < 10 by {
                assert(t[i] == s[i + 1]);
            }
        }
        assert(t.last() == s.last());
        lemma_text_is_decimal(t);
        let n = digits_value(s) as nat;
        assert(n / 10 == digits_value(t) as nat);
        assert(n % 10 == s[0] as nat);
        assert(digits_text(s) =~= digits_text(t).push(digit_char(s[0] as nat)));
    }
}

/// The digits of `n`.
pub(crate) fn digits_of(n: u64) -> (r: Vec<u8>)
    ensures
        all_digits(r@),
        digits_value(r@) == n,
        r.len() <= 20,
{
    let mut r: Vec<u8> = Vec::new();
    let mut left: u64 = n;
    proof {
        reveal_with_fuel(tens, 21);
        assert(tens(20) == 100_000_000_000_000_000_000int);
        assert(left * tens(0) == left) by (nonlinear_arith)
            requires
                tens(0) == 1,
        ;
    }
    while left > 0
        invariant
            all_digits(r@),
            digits_value(r@) + left * tens(r@.len()) == n,
            r.len() <= 20,
            left < tens((20 - r.len()) as nat),
        decreases left,
    {
        let d: u8 = (left % 10) as u8;
        let ghost before = r@;
        assert(r.len() < 20);
        r.push(d);
        proof {
            lemma_push(before, d);
            let (q, k) = ((left / 10) as int, tens(before.len()));
            assert(left == 10 * q + d);
            assert((10 * q + d) * k == q * (10 * k) + d * k) by (nonlinear_arith);
            assert(tens(r@.len()) == 10 * k);
            assert(tens((20 - before.len()) as nat) == 10 * tens((20 - r.len()) as nat));
        }
        left = left / 10;
    }
    proof {
        let k = tens(r@.len());
        assert(0 * k == 0);
    }
    r
}

/// `m` times the number, plus `add`.
pub(crate) fn scaled(v: &Vec<u8>, m: u8, add: u8) -> (r: Vec<u8>)
    requires
        all_digits(v@),
        m < 10,
        add < 10,
    ensures
        all_digits(r@),
        digits_value(r@) == m * digits_value(v@) + add,
        r.len() <= v.len() + 1,
{
    let mut r: Vec<u8> = Vec::new();
    let mut carry: u8 = add;
    let mut i: usize = 0;
    assert(v@.take(0) =~= Seq::<u8>::empty());
    assert(m * digits_value(v@.take(0)) == 0) by (nonlinear_arith)
        requires
            digits_value(v@.take(0)) == 0,
    ;
    assert(carry * tens(0) == carry) by (nonlinear_arith)
        requires
            tens(0) == 1,
    ;
    while i < v.len()
        invariant
            i <= v.len(),
            all_digits(v@),
            all_digits(r@),
            m < 10,
            carry < 10,
            r.len() == i,
            digits_value(r@) + carry * tens(i as nat) == m * digits_value(v@.take(i as int)) + add,
        decreases v.len() - i,
    {
        let d: u8 = v[i];
        assert(v@[i as int] < 10);
        assert(d * m + carry <= 90) by (nonlinear_arith)
            requires
                d < 10,
                m < 10,
                carry < 10,
        ;
        let t: u8 = d * m + carry;
        let ghost before = r@;
        r.push(t % 10);
        proof {
            lemma_push(before, t % 10);
            assert(v@.take(i + 1) =~= v@.take(i as int).push(d));
            lemma_push(v@.take(i as int), d);
            let (k, a, low, high) = (
                tens(i as nat),
                digits_value(v@.take(i as int)),
                (t % 10) as int,
                (t / 10) as int,
            );
            assert(m * (a + d * k) == m * a + (d * m) * k) by (nonlinear_arith);
            assert(low * k + high * (10 * k) == (low + 10 * high) * k) by (nonlinear_arith);
            assert(low + 10 * high == d * m + carry);
            assert((d * m + carry) * k == (d * m) * k + carry * k) by (nonlinear_arith);
            assert(tens((i + 1) as nat) == 10 * k);
        }
        carry = t / 10;
        i = i + 1;
    }
    assert(v@.take(i as int) =~= v@);
    if carry > 0 {
        let ghost before = r@;
        r.push(carry);
        proof {
            lemma_push(before, carry);
        }
    } else {
        assert(0 * tens(i as nat) == 0);
    }
    r
}

/// The same number on at least `n` digits.
pub(crate) fn padded(v: Vec<u8>, n: usize) -> (r: Vec<u8>)
    requires
        all_digits(v@),
    ensures
        all_digits(r@),
        digits_value(r@) == digits_value(v@),
        r.len() == v.len() || r.len() == n,
        r.len() >= v.len(),
        r.len() >= n,
{
    let mut r: Vec<u8> = v;
    while r.len() < n
        invariant
            all_digits(r@),
            digits_value(r@) == digits_value(v@),
            r.len() == v.len() || r.len() <= n,
            r.len() >= v.len(),
        decreases n - r.len(),
    {
        let ghost before = r@;
        r.push(0);
        proof {
            lemma_push(before, 0);
            assert(0 * tens(before.len()) == 0);
        }
    }
    r
}

/// The same number without zeros on top.
pub(crate) fn trimmed(v: Vec<u8>) -> (r: Vec<u8>)
    requires
        all_digits(v@),
    ensures
        all_digits(r@),
        digits_value(r@) == digits_value(v@),
        r.len() <= v.len(),
        r.len() > 0 ==> r@.last() != 0,
{
    let mut r: Vec<u8> = v;
    while r.len() > 0 && r[r.len() - 1] == 0
        invariant
            all_digits(r@),
            digits_value(r@) == digits_value(v@),
            r.len() <= v.len(),
        decreases r.len(),
    {
        let ghost before = r@;
        r.pop();
        proof {
            assert(before =~= r@.push(0));
            lemma_push(r@, 0);
            assert(0 * tens(r@.len()) == 0);
            assert forall|i: int| 0 <= i < r@.len() implies #[trigger] r@[i] < 10 by {
                assert(before[i] < 10);
            }
        }
    }
    r
}

/// Whether the first number is smaller than the second, both on as many digits.
fn aligned_below(a: &Vec<u8>, b: &Vec<u8>) -> (r: bool)
    requires
        all_digits(a@),
        all_digits(b@),
        a.len() == b.len(),
    ensures
        r == (digits_value(a@) < digits_value(b@)),
{
    let mut less: bool = false;
    let mut i: usize = 0;
    assert(a@.take(0) =~= b@.take(0));
    while i < a.len()
        invariant
            i <= a.len(),
            a.len() == b.len(),
            all_digits(a@),
            all_digits(b@),
            less == (digits_value(a@.take(i as int)) < digits_value(b@.take(i as int))),
        decreases a.len() - i,
    {
        proof {
            let (u, w) = (a@.take(i as int), b@.take(i as int));
            assert(a@.take(i + 1) =~= u.push(a@[i as int]));
            assert(b@.take(i + 1) =~= w.push(b@[i as int]));
            lemma_push(u, a@[i as int]);
            lemma_push(w, b@[i as int]);
            assert forall|j: int| 0 <= j < i implies #[trigger] u[j] < 10 && #[trigger] w[j] < 10 by {
                assert(a@[j] < 10 && b@[j] < 10);
            }
            lemma_digits_bound(u);
            lemma_digits_bound(w);
            let (c, d, x, y, k) = (
                a@[i as int] as int,
                b@[i as int] as int,
                digits_value(u),
                digits_value(w),
                tens(i as nat),
            );
            assert((c < d ==> x + c * k < y + d * k) && (c > d ==> x + c * k > y + d * k))
                by (nonlinear_arith)
                requires
                    0 <= x < k,
                    0 <= y < k,
            ;
        }
        if a[i] < b[i] {
            less = true;
        } else if a[i] > b[i] {
            less = false;
        }
        i = i + 1;
    }
    assert(a@.take(i as int) =~= a@);
    assert(b@.take(i as int) =~= b@);
    less
}

/// Whether the first number is smaller than the second.
pub(crate) fn digits_below(a: &Vec<u8>, b: &Vec<u8>) -> (r: bool)
    requires
        all_digits(a@),
        all_digits(b@),
    ensures
        r == (digits_value(a@) < digits_value(b@)),
{
    let x = scaled(a, 1, 0);
    let y = scaled(b, 1, 0);
    let n: usize = if x.len() > y.len() {
        x.len()
    } else {
        y.len()
    };
    aligned_below(&padded(x, n), &padded(y, n))
}

/// The digits from place `p` up.
pub(crate) fn upper(v: &Vec<u8>, p: usize) -> (r: Vec<u8>)
    requires
        all_digits(v@),
        p <= v.len(),
    ensures
        all_digits(r@),
        r@ == v@.skip(p as int),
{
    let mut r: Vec<u8> = Vec::new();
    let mut i: usize = p;
    while i < v.len()
        invariant
            p <= i <= v.len(),
            all_digits(v@),
            all_digits(r@),
            r@ == v@.subrange(p as int, i as int),
        decreases v.len() - i,
    {
        assert(v@[i as int] < 10);
        r.push(v[i]);
        assert(r@ =~= v@.subrange(p as int, i + 1));
        i = i + 1;
    }
    assert(r@ =~= v@.skip(p as int));
    r
}

/// The digits below place `p`.
pub(crate) fn lower(v: &Vec<u8>, p: usize) -> (r: Vec<u8>)
    requires
        all_digits(v@),
        p <= v.len(),
    ensures
        all_digits(r@),
        r@ == v@.take(p as int),
{
    let mut r: Vec<u8> = Vec::new();
    let mut i: usize = 0;
    while i < p
        invariant
            i <= p <= v.len(),
            all_digits(v@),
            all_digits(r@),
            r@ == v@.take(i as int),
        decreases p - i,
    {
        assert(v@[i as int] < 10);
        r.push(v[i]);
        assert(r@ =~= v@.take(i + 1));
        i = i + 1;
    }
    r
}

/// The number times ten to the power `p`.
pub(crate) fn shifted(v: &Vec<u8>, p: usize) -> (r: Vec<u8>)
    requires
        all_digits(v@),
        p + v.len() <= usize::MAX,
    ensures
        all_digits(r@),
        r.len() == p + v.len(),
        digits_value(r@) == digits_value(v@) * tens(p as nat),
{
    let mut r: Vec<u8> = Vec::new();
    while r.len() < p
        invariant
            r.len() <= p,
            forall|j: int| 0 <= j < r.len() ==> #[trigger] r@[j] == 0,
        decreases p - r.len(),
    {
        r.push(0);
    }
    let mut i: usize = 0;
    while i < v.len()
        invariant
            i <= v.len(),
            all_digits(v@),
            r.len() == p + i,
            forall|j: int| 0 <= j < r.len() ==> #[trigger] r@[j] == if j < p { 0 } else { v@[j - p] },
        decreases v.len() - i,
    {
        r.push(v[i]);
        i = i + 1;
    }
    proof {
        lemma_split(r@, p as int);
        assert(r@.skip(p as int) =~= v@);
        lemma_zeros(r@.take(p as int));
        assert forall|j: int| 0 <= j < r@.len() implies #[trigger] r@[j] < 10 by {
            if j >= p {
                assert(v@[j - p] < 10);
            }
        }
    }
    r
}

/// The digits as text, the highest first.
pub(crate) fn write_digits(v: &Vec<u8>) -> (s: String)
    requires
        all_digits(v@),
    ensures
        s@ == digits_text(v@),
{
    let mut s = String::from_str("");
    proof {
        reveal_strlit("");
        assert(s@ =~= digits_text(v@.skip(v@.len() as int)));
    }
    let mut i: usize = v.len();
    while i > 0
        invariant
            i <= v.len(),
            all_digits(v@),
            s@ == digits_text(v@.skip(i as int)),
        decreases i,
    {
        assert(v@[i - 1] < 10);
        s.append(digit_text(v[i - 1] as u64));
        i = i - 1;
        assert(s@ =~= digits_text(v@.skip(i as int)));
    }
    assert(v@.skip(0) =~= v@);
    s
}

pub(crate) proof fn lemma_zeros(s: Seq<u8>)
    requires
        forall|i: int| 0 <= i < s.len() ==> #[trigger] s[i] == 0,
    ensures
        digits_value(s) == 0,
    decreases s.len(),
{
    if s.len() > 0 {
        let t = s.drop_first();
        assert forall|i: int| 0 <= i < t.len() implies #[trigger] t[i] == 0 by {
            assert(t[i] == s[i + 1]);
        }
        lemma_zeros(t);
        assert(s[0] == 0);
    }
}

} // verus!
