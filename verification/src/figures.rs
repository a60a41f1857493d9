//! Numbers as text: whole numbers in decimal, and centimetres and nanometres
//! as metres with two decimal places.

use crate::data::{Point, NM_PER_CM};
use vstd::prelude::*;

verus! {

/// The character of the decimal digit `d`.
pub open spec fn digit(d: nat) -> char {
    if d == 0 {
        '0'
    } else if d == 1 {
        '1'
    } else if d == 2 {
        '2'
    } else if d == 3 {
        '3'
    } else if d == 4 {
        '4'
    } else if d == 5 {
        '5'
    } else if d == 6 {
        '6'
    } else if d == 7 {
        '7'
    } else if d == 8 {
        '8'
    } else {
        '9'
    }
}

/// `n` in decimal, without leading zeros.
pub open spec fn decimal(n: nat) -> Seq<char>
    decreases n,
{
    if n < 10 {
        seq![digit(n)]
    } else {
        decimal(n / 10).push(digit(n % 10))
    }
}

/// `hundredths` as a number with two decimal places.
pub open spec fn fixed2(hundredths: nat) -> Seq<char> {
    decimal(hundredths / 100) + seq!['.', digit((hundredths / 10) % 10), digit(hundredths % 10)]
}

/// `hundredths` as a number with two decimal places and a minus sign where
/// it is negative.
pub open spec fn signed_fixed2(hundredths: int) -> Seq<char> {
    if hundredths < 0 {
        seq!['-'] + fixed2((-hundredths) as nat)
    } else {
        fixed2(hundredths as nat)
    }
}

/// A length in nanometres as whole centimetres, rounded to the nearest, half
/// a centimetre up.
pub open spec fn nearest_cm(nm: nat) -> nat {
    ((nm + NM_PER_CM / 2) / (NM_PER_CM as int)) as nat
}

/// A length in nanometres as metres with two decimal places and the unit.
pub open spec fn metres_text(nm: nat) -> Seq<char> {
    fixed2(nearest_cm(nm)) + seq!['m']
}

/// A position as its three coordinates in metres, separated by commas.
pub open spec fn coords_text(p: Point) -> Seq<char> {
    signed_fixed2(p.x as int) + seq![',', ' '] + signed_fixed2(p.y as int) + seq![',', ' ']
        + signed_fixed2(p.z as int)
}

/// `String::from_iter` over the characters of a vector: the text made of
/// `chars` in their order.
#[verifier::external_body]
pub(crate) fn text_of(chars: &Vec<char>) -> (text: String)
    ensures
        text@ == chars@,
{
    chars.iter().collect()
}

fn digit_of(d: u8) -> (c: char)
    requires
        d < 10,
    ensures
        c == digit(d as nat),
{
    if d == 0 {
        '0'
    } else if d == 1 {
        '1'
    } else if d == 2 {
        '2'
    } else if d == 3 {
        '3'
    } else if d == 4 {
        '4'
    } else if d == 5 {
        '5'
    } else if d == 6 {
        '6'
    } else if d == 7 {
        '7'
    } else if d == 8 {
        '8'
    } else {
        '9'
    }
}

/// Appends `n` in decimal to `out`.
pub fn push_decimal(out: &mut Vec<char>, n: u128)
    ensures
        final(out)@ == old(out)@ + decimal(n as nat),
    decreases n,
{
    if n >= 10 {
        push_decimal(out, n / 10);
    }
    let ghost before = out@;
    out.push(digit_of((n % 10) as u8));
    proof {
        if n >= 10 {
            assert(out@ =~= old(out)@ + decimal((n / 10) as nat).push(digit((n % 10) as nat)));
        } else {
            assert(out@ =~= old(out)@ + seq![digit(n as nat)]);
        }
    }
}

/// Appends `hundredths` to `out` as a number with two decimal places.
pub fn push_fixed2(out: &mut Vec<char>, hundredths: u128)
    ensures
        final(out)@ == old(out)@ + fixed2(hundredths as nat),
{
    push_decimal(out, hundredths / 100);
    out.push('.');
    out.push(digit_of(((hundredths / 10) % 10) as u8));
    out.push(digit_of((hundredths % 10) as u8));
    assert(out@ =~= old(out)@ + fixed2(hundredths as nat));
}

/// Appends a coordinate in centimetres to `out` as metres with two decimal
/// places.
pub fn push_coordinate(out: &mut Vec<char>, cm: i32)
    ensures
        final(out)@ == old(out)@ + signed_fixed2(cm as int),
{
    if cm < 0 {
        out.push('-');
        let size: u128 = (-(cm as i64)) as u128;
        push_fixed2(out, size);
        assert(out@ =~= old(out)@ + signed_fixed2(cm as int));
    } else {
        push_fixed2(out, cm as u128);
    }
}

/// The decimal text of `n`.
pub fn decimal_text(n: usize) -> (text: String)
    ensures
        text@ == decimal(n as nat),
{
    let mut out: Vec<char> = Vec::new();
    push_decimal(&mut out, n as u128);
    assert(out@ =~= decimal(n as nat));
    text_of(&out)
}

/// A length in nanometres as the text of metres with two decimal places and
/// the unit.
pub fn metres(nm: u128) -> (text: String)
    requires
        nm + NM_PER_CM <= u128::MAX,
    ensures
        text@ == metres_text(nm as nat),
{
    let cm: u128 = (nm + (NM_PER_CM as u128) / 2) / (NM_PER_CM as u128);
    let mut out: Vec<char> = Vec::new();
    push_fixed2(&mut out, cm);
    out.push('m');
    assert(out@ =~= metres_text(nm as nat));
    text_of(&out)
}

/// A position as the text of its three coordinates in metres.
pub fn coordinates(p: &Point) -> (text: String)
    ensures
        text@ == coords_text(*p),
{
    let mut out: Vec<char> = Vec::new();
    push_coordinate(&mut out, p.x);
    out.push(',');
    out.push(' ');
    push_coordinate(&mut out, p.y);
    out.push(',');
    out.push(' ');
    push_coordinate(&mut out, p.z);
    assert(out@ =~= coords_text(*p));
    text_of(&out)
}

} // verus!
