//! Decimal text for error messages.
use vstd::prelude::*;

verus! {

/// The character of one decimal digit.
pub open spec fn digit_char(d: nat) -> char {
    (d + 48) as char
}

/// The decimal text of a natural number, without leading zeros.
pub open spec fn dec(n: nat) -> Seq<char>
    decreases n,
{
    if n < 10 {
        seq![digit_char(n)]
    } else {
        dec(n / 10).push(digit_char(n % 10))
    }
}

/// One decimal digit as text.
pub(crate) fn digit_text(d: u64) -> (s: &'static str)
    requires
        d < 10,
    ensures
        s@ == seq![digit_char(d as nat)],
{
    proof {
        reveal_strlit("0");
        reveal_strlit("1");
        reveal_strlit("2");
        reveal_strlit("3");
        reveal_strlit("4");
        reveal_strlit("5");
        reveal_strlit("6");
        reveal_strlit("7");
        reveal_strlit("8");
        reveal_strlit("9");
    }
    let s: &'static str = match d {
        0 => "0",
        1 => "1",
        2 => "2",
        3 => "3",
        4 => "4",
        5 => "5",
        6 => "6",
        7 => "7",
        8 => "8",
        _ => "9",
    };
    proof {
        assert(s@ =~= seq![digit_char(d as nat)]);
    }
    s
}

/// Writes `n` in decimal.
pub fn decimal(n: u64) -> (s: String)
    ensures
        s@ == dec(n as nat),
    decreases n,
{
    if n < 10 {
        String::from_str(digit_text(n))
    } else {
        let mut s = decimal(n / 10);
        s.append(digit_text(n % 10));
        proof {
            assert(s@ =~= dec(n as nat / 10).push(digit_char(n as nat % 10)));
        }
        s
    }
}

/// Joins a literal, a number and a literal: the shape of most messages.
pub fn with_number(head: &str, n: u64, tail: &str) -> (s: String)
    ensures
        s@ == head@ + dec(n as nat) + tail@,
{
    let mut s = String::from_str(head);
    s.append(decimal(n).as_str());
    s.append(tail);
    s
}

/// A literal followed by a number.
pub fn number_last(head: &str, n: u64) -> (s: String)
    ensures
        s@ == head@ + dec(n as nat),
{
    let mut s = String::from_str(head);
    s.append(decimal(n).as_str());
    s
}

} // verus!
