//! Decimal text for the integer scalars of the value tree.

use vstd::prelude::*;

verus! {

/// The character for one decimal digit.
pub open spec fn digit_char(d: int) -> char
    recommends
        0 <= d <= 9,
{
    if d == 0 {
        '0'
    } else if d == 1 {
        '1'
    } else if d == 2 {
        '2'
    } else if d == 3 {
        '3'
    } else if d == 4 {
        '4'
    } else if d == 5 {
        '5'
    } else if d == 6 {
        '6'
    } else if d == 7 {
        '7'
    } else if d == 8 {
        '8'
    } else {
        '9'
    }
}

/// The canonical decimal text of a non-negative integer: no sign, no
/// leading zero except for zero itself.
pub open spec fn dec_digits(n: nat) -> Seq<char>
    decreases n,
{
    if n < 10 {
        seq![digit_char(n as int)]
    } else {
        dec_digits(n / 10) + seq![digit_char((n % 10) as int)]
    }
}

/// The canonical decimal text of an integer: a leading '-' for the
/// negative ones, nothing else added.
pub open spec fn int_digits(n: int) -> Seq<char> {
    if n < 0 {
        seq!['-'] + dec_digits((-n) as nat)
    } else {
        dec_digits(n as nat)
    }
}

fn digit_to_char(d: u64) -> (c: char)
    requires
        d <= 9,
    ensures
        c == digit_char(d as int),
{
    if d == 0 {
        '0'
    } else if d == 1 {
        '1'
    } else if d == 2 {
        '2'
    } else if d == 3 {
        '3'
    } else if d == 4 {
        '4'
    } else if d == 5 {
        '5'
    } else if d == 6 {
        '6'
    } else if d == 7 {
        '7'
    } else if d == 8 {
        '8'
    } else {
        '9'
    }
}

/// The decimal text of a `u64`, as characters.
pub fn u64_to_chars(n: u64) -> (r: Vec<char>)
    ensures
        r@ == dec_digits(n as nat),
    decreases n,
{
    if n < 10 {
        let mut v: Vec<char> = Vec::new();
        v.push(digit_to_char(n));
        assert(v@ =~= dec_digits(n as nat));
        v
    } else {
        let mut v = u64_to_chars(n / 10);
        v.push(digit_to_char(n % 10));
        assert(v@ =~= dec_digits(n as nat));
        v
    }
}

/// The decimal text of an `i64`, as characters.
pub fn i64_to_chars(n: i64) -> (r: Vec<char>)
    ensures
        r@ == int_digits(n as int),
{
    if n >= 0 {
        u64_to_chars(n as u64)
    } else {
        let mag: u64 = ((-(n + 1)) as u64) + 1;
        assert(mag as int == -(n as int));
        let mut v: Vec<char> = Vec::new();
        v.push('-');
        let mut d = u64_to_chars(mag);
        v.append(&mut d);
        assert(v@ =~= int_digits(n as int));
        v
    }
}

} // verus!
