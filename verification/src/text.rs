//! The text forms of numbers: decimal notation for integers and
//! `numerator/denominator` for rationals.

use vstd::prelude::*;
use vstd::string::StringExecFns;

verus! {

/// The character of the decimal digit `d`.
pub open spec fn digit(d: int) -> char {
    if d == 0 {
        '0'
    } else if d == 1 {
        '1'
    } else if d == 2 {
        '2'
    } else if d == 3 {
        '3'
    } else if d == 4 {
        '4'
    } else if d == 5 {
        '5'
    } else if d == 6 {
        '6'
    } else if d == 7 {
        '7'
    } else if d == 8 {
        '8'
    } else {
        '9'
    }
}

/// The decimal notation of a natural number, without leading zeros.
pub open spec fn nat_text(n: nat) -> Seq<char>
    decreases n,
{
    if n < 10 {
        seq![digit(n as int)]
    } else {
        nat_text(n / 10).push(digit((n % 10) as int))
    }
}

/// The decimal notation of an integer, with `-` before a negative one.
pub open spec fn int_text(n: int) -> Seq<char> {
    if n < 0 {
        seq!['-'] + nat_text((-n) as nat)
    } else {
        nat_text(n as nat)
    }
}

/// The notation of the fraction `n / d` in lowest terms: the numerator
/// alone where the denominator is one, else numerator, `/`, denominator.
pub open spec fn ratio_text(n: int, d: int) -> Seq<char> {
    if d == 1 {
        int_text(n)
    } else {
        int_text(n) + seq!['/'] + int_text(d)
    }
}

/// `String::push` of the standard library: appends one character.
#[verifier::external_body]
pub(crate) fn push_char(s: &mut String, c: char)
    ensures
        final(s)@ == old(s)@.push(c),
{
    s.push(c);
}

/// The sequence back to front.
pub open spec fn reversed(s: Seq<char>) -> Seq<char> {
    Seq::new(s.len(), |i: int| s[s.len() - 1 - i])
}

/// The character of the decimal digit `d`.
fn digit_char(d: usize) -> (c: char)
    requires
        d < 10,
    ensures
        c == digit(d as int),
{
    if d == 0 {
        '0'
    } else if d == 1 {
        '1'
    } else if d == 2 {
        '2'
    } else if d == 3 {
        '3'
    } else if d == 4 {
        '4'
    } else if d == 5 {
        '5'
    } else if d == 6 {
        '6'
    } else if d == 7 {
        '7'
    } else if d == 8 {
        '8'
    } else {
        '9'
    }
}

/// The decimal notation of `n`.
pub fn natural_text(n: usize) -> (r: String)
    ensures
        r@ == nat_text(n as nat),
{
    let mut digits: Vec<char> = Vec::new();
    digits.push(digit_char(n % 10));
    let mut m: usize = n / 10;
    assert(reversed(digits@) =~= seq![digit((n % 10) as int)]);
    while m > 0
        invariant
            digits@.len() >= 1,
            nat_text(n as nat) == (if m > 0 {
                nat_text(m as nat)
            } else {
                Seq::<char>::empty()
            }) + reversed(digits@),
        decreases m,
    {
        let ghost before = digits@;
        let d = digit_char(m % 10);
        digits.push(d);
        assert(reversed(digits@) =~= seq![d] + reversed(before));
        proof {
            let rest = m / 10;
            if rest > 0 {
                assert(nat_text(m as nat) == nat_text(rest as nat).push(d));
                assert(nat_text(rest as nat).push(d) + reversed(before) =~= nat_text(rest as nat)
                    + reversed(digits@));
            } else {
                assert(nat_text(m as nat) == seq![d]);
                assert(Seq::<char>::empty() + reversed(digits@) =~= seq![d] + reversed(before));
            }
        }
        m = m / 10;
    }
    assert(nat_text(n as nat) =~= reversed(digits@));
    let mut out = String::new();
    let mut i: usize = digits.len();
    while i > 0
        invariant
            i <= digits@.len(),
            out@ == reversed(digits@).take(digits@.len() - i),
        decreases i,
    {
        i -= 1;
        let ghost before = out@;
        push_char(&mut out, digits[i]);
        assert(out@ =~= reversed(digits@).take(digits@.len() - i));
    }
    assert(out@ =~= reversed(digits@));
    out
}

/// The decimal notation of `n`, with `-` before a negative number.
pub fn integer_text(n: i32) -> (r: String)
    ensures
        r@ == int_text(n as int),
{
    if n >= 0 {
        natural_text(n as usize)
    } else {
        let magnitude: i64 = -(n as i64);
        let digits = natural_text(magnitude as usize);
        let mut out = String::new();
        push_char(&mut out, '-');
        out.append(digits.as_str());
        assert(out@ =~= seq!['-'] + nat_text((-n) as nat));
        out
    }
}

} // verus!
