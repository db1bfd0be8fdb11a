//! Numbers written in base ten.

use vstd::prelude::*;

verus! {

/// The character that stands for a digit's value.
pub open spec fn digit_char(value: nat) -> char
    recommends
        value < 10,
{
    if value == 0 {
        '0'
    } else if value == 1 {
        '1'
    } else if value == 2 {
        '2'
    } else if value == 3 {
        '3'
    } else if value == 4 {
        '4'
    } else if value == 5 {
        '5'
    } else if value == 6 {
        '6'
    } else if value == 7 {
        '7'
    } else if value == 8 {
        '8'
    } else {
        '9'
    }
}

/// A number in base ten, the most significant digit first, without leading
/// zeros.
pub open spec fn decimal(n: nat) -> Seq<char>
    decreases n,
{
    if n < 10 {
        seq![digit_char(n)]
    } else {
        decimal(n / 10).push(digit_char(n % 10))
    }
}

/// The ten characters that stand for digits.
pub open spec fn is_digit_char(ch: char) -> bool {
    '0' <= ch <= '9'
}

/// The value of the digit that a character stands for.
pub open spec fn digit_value(ch: char) -> nat
    recommends
        is_digit_char(ch),
{
    (ch as u32 - '0' as u32) as nat
}

/// The number that digits denote in base ten, the most significant digit
/// first.
pub open spec fn decimal_value(digits: Seq<char>) -> nat
    decreases digits.len(),
{
    if digits.len() == 0 {
        0
    } else {
        10 * decimal_value(digits.drop_last()) + digit_value(digits.last())
    }
}

/// A number written in base ten is one digit or more, and the digits denote
/// the number.
pub proof fn lemma_decimal_denotes(n: nat)
    ensures
        decimal(n).len() >= 1,
        forall|i: int| 0 <= i < decimal(n).len() ==> is_digit_char(#[trigger] decimal(n)[i]),
        decimal_value(decimal(n)) == n,
    decreases n,
{
    if n < 10 {
        assert(decimal(n).drop_last() =~= Seq::<char>::empty());
        assert(decimal_value(Seq::<char>::empty()) == 0);
    } else {
        lemma_decimal_denotes(n / 10);
        assert(decimal(n).drop_last() =~= decimal(n / 10));
    }
}

fn digit_str(value: u64) -> (s: &'static str)
    requires
        value < 10,
    ensures
        s@ == seq![digit_char(value as nat)],
{
    proof {
        reveal_strlit("0");
        reveal_strlit("1");
        reveal_strlit("2");
        reveal_strlit("3");
        reveal_strlit("4");
        reveal_strlit("5");
        reveal_strlit("6");
        reveal_strlit("7");
        reveal_strlit("8");
        reveal_strlit("9");
    }
    match value {
        0 => "0",
        1 => "1",
        2 => "2",
        3 => "3",
        4 => "4",
        5 => "5",
        6 => "6",
        7 => "7",
        8 => "8",
        _ => "9",
    }
}

/// Writes a number in base ten.
pub fn to_decimal(n: u64) -> (s: String)
    ensures
        s@ == decimal(n as nat),
    decreases n,
{
    if n < 10 {
        digit_str(n).to_owned()
    } else {
        let mut s = to_decimal(n / 10);
        s.append(digit_str(n % 10));
        s
    }
}

} // verus!
