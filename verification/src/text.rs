//! Numbers as decimal text.
//!
//! The two contracts on `String` are taken on trust from the
//! documentation of `std`; the conversion itself is proved.

use vstd::prelude::*;

verus! {

/// `String::push`: the character is appended.
pub assume_specification[ String::push ](text: &mut String, c: char)
    ensures
        final(text)@ == old(text)@.push(c),
;

/// `String::push_str`: the characters of the slice are appended.
pub assume_specification[ String::push_str ](text: &mut String, more: &str)
    ensures
        final(text)@ == old(text)@ + more@,
;

/// The character for a decimal digit.
pub open spec fn digit_char(d: nat) -> char {
    if d == 0 {
        '0'
    } else if d == 1 {
        '1'
    } else if d == 2 {
        '2'
    } else if d == 3 {
        '3'
    } else if d == 4 {
        '4'
    } else if d == 5 {
        '5'
    } else if d == 6 {
        '6'
    } else if d == 7 {
        '7'
    } else if d == 8 {
        '8'
    } else {
        '9'
    }
}

/// The number in decimal notation, without leading zeros.
pub open spec fn decimal(n: nat) -> Seq<char>
    decreases n,
{
    if n < 10 {
        seq![digit_char(n)]
    } else {
        decimal(n / 10).push(digit_char(n % 10))
    }
}

/// The numbers in decimal notation, one after the other with nothing
/// between them.
pub open spec fn decimals(numbers: Seq<usize>) -> Seq<char>
    decreases numbers.len(),
{
    if numbers.len() == 0 {
        Seq::empty()
    } else {
        decimals(numbers.drop_last()) + decimal(numbers.last() as nat)
    }
}

/// The character for a decimal digit.
fn digit(d: usize) -> (c: char)
    requires
        d < 10,
    ensures
        c == digit_char(d as nat),
{
    if d == 0 {
        '0'
    } else if d == 1 {
        '1'
    } else if d == 2 {
        '2'
    } else if d == 3 {
        '3'
    } else if d == 4 {
        '4'
    } else if d == 5 {
        '5'
    } else if d == 6 {
        '6'
    } else if d == 7 {
        '7'
    } else if d == 8 {
        '8'
    } else {
        '9'
    }
}

/// Appends the number in decimal notation.
pub fn push_decimal(text: &mut String, n: usize)
    ensures
        final(text)@ == old(text)@ + decimal(n as nat),
    decreases n,
{
    if n >= 10 {
        push_decimal(text, n / 10);
    }
    text.push(digit(n % 10));
    assert(text@ =~= old(text)@ + decimal(n as nat));
}

/// Appends the numbers in decimal notation, one after the other.
pub fn push_decimals(text: &mut String, numbers: &Vec<usize>)
    ensures
        final(text)@ == old(text)@ + decimals(numbers@),
{
    let mut i: usize = 0;
    assert(decimals(numbers@.take(0)) =~= Seq::<char>::empty());
    assert(text@ =~= old(text)@ + decimals(numbers@.take(0)));
    while i < numbers.len()
        invariant
            i <= numbers.len(),
            text@ == old(text)@ + decimals(numbers@.take(i as int)),
        decreases numbers.len() - i,
    {
        push_decimal(text, numbers[i]);
        proof {
            assert(numbers@.take(i + 1).drop_last() =~= numbers@.take(i as int));
            assert(numbers@.take(i + 1).last() == numbers[i as int]);
            assert(text@ =~= old(text)@ + decimals(numbers@.take(i + 1)));
        }
        i += 1;
    }
    assert(numbers@.take(numbers.len() as int) =~= numbers@);
}

} // verus!
