//! Building message text.
use vstd::prelude::*;
use vstd::string::*;

verus! {

/// The decimal digit for `d` (taken modulo ten).
pub open spec fn digit_char(d: nat) -> char {
    let r = d % 10;
    if r == 0 {
        '0'
    } else if r == 1 {
        '1'
    } else if r == 2 {
        '2'
    } else if r == 3 {
        '3'
    } else if r == 4 {
        '4'
    } else if r == 5 {
        '5'
    } else if r == 6 {
        '6'
    } else if r == 7 {
        '7'
    } else if r == 8 {
        '8'
    } else {
        '9'
    }
}

/// The decimal representation of `n`, without leading zeros.
pub open spec fn decimal_text(n: nat) -> Seq<char>
    decreases n,
{
    if n < 10 {
        seq![digit_char(n)]
    } else {
        decimal_text(n / 10).push(digit_char(n % 10))
    }
}

fn digit_str(d: u32) -> (s: &'static str)
    requires
        d < 10,
    ensures
        s@ == seq![digit_char(d as nat)],
{
    proof {
        reveal_strlit("0");
        reveal_strlit("1");
        reveal_strlit("2");
        reveal_strlit("3");
        reveal_strlit("4");
        reveal_strlit("5");
        reveal_strlit("6");
        reveal_strlit("7");
        reveal_strlit("8");
        reveal_strlit("9");
    }
    if d == 0 {
        "0"
    } else if d == 1 {
        "1"
    } else if d == 2 {
        "2"
    } else if d == 3 {
        "3"
    } else if d == 4 {
        "4"
    } else if d == 5 {
        "5"
    } else if d == 6 {
        "6"
    } else if d == 7 {
        "7"
    } else if d == 8 {
        "8"
    } else {
        "9"
    }
}

/// Formats `n` in decimal.
pub fn decimal_string(n: u64) -> (s: String)
    ensures
        s@ == decimal_text(n as nat),
    decreases n,
{
    if n < 10 {
        String::from_str(digit_str(n as u32))
    } else {
        let mut s = decimal_string(n / 10);
        s.append(digit_str((n % 10) as u32));
        s
    }
}

/// `first` followed by `second`.
pub fn concat2(first: &str, second: &str) -> (s: String)
    ensures
        s@ == first@ + second@,
{
    let mut s = String::from_str(first);
    s.append(second);
    s
}

/// `first`, `second` and `third` in order.
pub fn concat3(first: &str, second: &str, third: &str) -> (s: String)
    ensures
        s@ == first@ + second@ + third@,
{
    let mut s = String::from_str(first);
    s.append(second);
    s.append(third);
    s
}

} // verus!
