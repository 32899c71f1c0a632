//! Verified string building helpers.

use vstd::prelude::*;

verus! {

/// Relies on String::push: appends exactly the one character to the end of
/// the string.
#[verifier::external_body]
pub(crate) fn push_char(s: &mut String, c: char)
    ensures
        final(s)@ == old(s)@.push(c),
{
    s.push(c);
}

/// The decimal digit character for a value below ten.
pub open spec fn digit_char(d: int) -> char {
    if d == 0 {
        '0'
    } else if d == 1 {
        '1'
    } else if d == 2 {
        '2'
    } else if d == 3 {
        '3'
    } else if d == 4 {
        '4'
    } else if d == 5 {
        '5'
    } else if d == 6 {
        '6'
    } else if d == 7 {
        '7'
    } else if d == 8 {
        '8'
    } else {
        '9'
    }
}

/// The decimal rendering of a number, most significant digit first.
pub open spec fn dec_chars(n: int) -> Seq<char>
    decreases n,
{
    if n < 10 {
        seq![digit_char(n)]
    } else {
        dec_chars(n / 10).push(digit_char(n % 10))
    }
}

fn digit_of(d: usize) -> (r: char)
    requires
        d < 10,
    ensures
        r == digit_char(d as int),
{
    match d {
        0 => '0',
        1 => '1',
        2 => '2',
        3 => '3',
        4 => '4',
        5 => '5',
        6 => '6',
        7 => '7',
        8 => '8',
        _ => '9',
    }
}

/// Appends the decimal rendering of `n` to `s`.
pub(crate) fn push_decimal(s: &mut String, n: usize)
    ensures
        final(s)@ == old(s)@ + dec_chars(n as int),
{
    // Collect digits least significant first, then append them in reverse.
    let mut digits: Vec<char> = Vec::new();
    let mut rest: usize = n;
    loop
        invariant_except_break
            dec_chars(n as int) == dec_chars(rest as int) + digits@.reverse(),
        ensures
            dec_chars(n as int) == digits@.reverse(),
        decreases rest,
    {
        let ghost before = digits@;
        let d = digit_of(rest % 10);
        digits.push(d);
        proof {
            assert(digits@.reverse() =~= seq![digit_char(rest as int % 10)] + before.reverse());
        }
        if rest < 10 {
            proof {
                assert(dec_chars(rest as int) =~= seq![digit_char(rest as int % 10)]);
                assert(dec_chars(n as int) =~= digits@.reverse());
            }
            break ;
        }
        proof {
            assert(dec_chars(rest as int) =~= dec_chars(rest as int / 10) + seq![
                digit_char(rest as int % 10),
            ]);
            assert(dec_chars(n as int) =~= dec_chars(rest as int / 10) + digits@.reverse());
        }
        rest = rest / 10;
    }
    let mut i: usize = digits.len();
    while i > 0
        invariant
            i <= digits@.len(),
            s@ == old(s)@ + digits@.reverse().take(digits@.len() - i),
        decreases i,
    {
        i = i - 1;
        push_char(s, digits[i]);
        proof {
            assert(digits@.reverse().take(digits@.len() - i) =~= digits@.reverse().take(
                digits@.len() - (i + 1),
            ).push(digits@[i as int]));
        }
    }
    proof {
        assert(digits@.reverse().take(digits@.len() as int) =~= digits@.reverse());
    }
}

} // verus!
