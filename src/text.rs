//! Rendering values as text: decimal numbers and the `Render` capability.
use vstd::prelude::*;
use vstd::string::StringExecFns;

use crate::Carrier;

verus! {

/// A value that can be written out as text.
pub trait Render: Carrier {
    spec fn text(v: Self::V) -> Seq<char>;

    fn render(&self) -> (r: String)
        requires
            Self::valid(self@),
        ensures
            r@ == Self::text(self@),
    ;
}

/// The character of decimal digit `d`.
pub open spec fn digit_char(d: nat) -> char {
    seq!['0', '1', '2', '3', '4', '5', '6', '7', '8', '9'][d as int]
}

/// The decimal digits of `n`, most significant first, without leading
/// zeros (`0` is written `"0"`).
pub open spec fn decimal(n: nat) -> Seq<char>
    decreases n,
{
    if n < 10 {
        seq![digit_char(n)]
    } else {
        decimal(n / 10) + seq![digit_char(n % 10)]
    }
}

/// `v` in decimal, with a leading `-` when negative.
pub open spec fn signed_decimal(v: int) -> Seq<char> {
    if v < 0 {
        seq!['-'] + decimal((-v) as nat)
    } else {
        decimal(v as nat)
    }
}

fn digit_str(d: u64) -> (r: &'static str)
    requires
        d < 10,
    ensures
        r@ == seq![digit_char(d as nat)],
{
    proof {
        reveal_strlit("0");
        reveal_strlit("1");
        reveal_strlit("2");
        reveal_strlit("3");
        reveal_strlit("4");
        reveal_strlit("5");
        reveal_strlit("6");
        reveal_strlit("7");
        reveal_strlit("8");
        reveal_strlit("9");
    }
    let r = if d == 0 {
        "0"
    } else if d == 1 {
        "1"
    } else if d == 2 {
        "2"
    } else if d == 3 {
        "3"
    } else if d == 4 {
        "4"
    } else if d == 5 {
        "5"
    } else if d == 6 {
        "6"
    } else if d == 7 {
        "7"
    } else if d == 8 {
        "8"
    } else {
        "9"
    };
    assert(r@ =~= seq![digit_char(d as nat)]);
    r
}

/// `n` in decimal.
pub fn decimal_text(n: u64) -> (r: String)
    ensures
        r@ == decimal(n as nat),
    decreases n,
{
    if n < 10 {
        String::from_str(digit_str(n))
    } else {
        let mut s = decimal_text(n / 10);
        s.append(digit_str(n % 10));
        s
    }
}

/// Machine integers in decimal, `-` first when negative.
impl Render for i32 {
    open spec fn text(v: i32) -> Seq<char> {
        signed_decimal(v as int)
    }

    fn render(&self) -> (r: String) {
        if *self < 0 {
            proof {
                reveal_strlit("-");
            }
            let mut s = String::from_str("-");
            let digits = decimal_text((0 - (*self as i64)) as u64);
            s.append(digits.as_str());
            s
        } else {
            decimal_text(*self as u64)
        }
    }
}

} // verus!
