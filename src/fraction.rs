//! Fractions of unbounded natural numbers, and their literals.

use crate::natural::Natural;
use num::bigint::BigUint;
use num::rational::Ratio;
use std::str::FromStr;
use vstd::prelude::*;

verus! {

/// No number above one divides both `a` and `b`.
pub open spec fn coprime(a: nat, b: nat) -> bool {
    forall|k: nat| k > 1 ==> !(#[trigger] (a % k) == 0 && b % k == 0)
}

/// A decimal digit.
pub open spec fn is_decimal_digit(c: char) -> bool {
    '0' <= c && c <= '9'
}

/// The value of decimal digits, read left to right, skipping every `_`.
pub open spec fn decimal_value(s: Seq<char>) -> nat
    decreases s.len(),
{
    if s.len() == 0 {
        0
    } else if s.last() == '_' {
        decimal_value(s.drop_last())
    } else {
        decimal_value(s.drop_last()) * 10 + ((s.last() as u32 - '0' as u32) as nat)
    }
}

/// An unsigned integer literal: one optional leading `+`, then a decimal digit
/// followed by digits and `_` separators.
pub open spec fn integer_literal(s: Seq<char>) -> Option<nat> {
    let t = if s.len() > 0 && s[0] == '+' && !(s.len() > 1 && s[1] == '+') {
        s.drop_first()
    } else {
        s
    };
    if t.len() == 0 || t[0] == '_' || !(forall|i: int|
        0 <= i < t.len() ==> is_decimal_digit(#[trigger] t[i]) || t[i] == '_') {
        None
    } else {
        Some(decimal_value(t))
    }
}

/// The index of the first `/` in `s`, or the length of `s` where there is none.
pub open spec fn first_slash(s: Seq<char>) -> nat
    decreases s.len(),
{
    if s.len() == 0 || s[0] == '/' {
        0
    } else {
        1 + first_slash(s.drop_first())
    }
}

/// A fraction literal `numerator/denominator`, or an integer literal with
/// denominator one, as a numerator and a nonzero denominator, not reduced.
pub open spec fn fraction_literal(s: Seq<char>) -> Option<(nat, nat)> {
    let k = first_slash(s) as int;
    let n = integer_literal(s.subrange(0, k));
    let d = if k < s.len() {
        integer_literal(s.subrange(k + 1, s.len() as int))
    } else {
        Some(1nat)
    };
    if n is Some && d is Some && d->0 != 0 {
        Some((n->0, d->0))
    } else {
        None
    }
}

/// A fraction `numer / denom` of natural numbers.
pub struct Fraction {
    pub numer: Natural,
    pub denom: Natural,
}

impl View for Fraction {
    type V = (nat, nat);

    open spec fn view(&self) -> (nat, nat) {
        (self.numer@, self.denom@)
    }
}

impl Fraction {
    /// The denominator is not zero.
    pub open spec fn wf(&self) -> bool {
        self.denom@ > 0
    }

    /// The integer `n` as a fraction with denominator one.
    pub fn from_integer(n: Natural) -> (r: Fraction)
        ensures
            r.wf(),
            r@ == (n@, 1nat),
    {
        Fraction { numer: n, denom: Natural::from_u64(1) }
    }

    /// Whether the denominator is one.
    pub fn is_integer(&self) -> (r: bool)
        ensures
            r == (self.denom@ == 1),
    {
        self.denom.is_one()
    }
}

/// Relies on `Ratio::<BigUint>::from_str`, which takes the text before the
/// first `/` and the text after it (or `1`) as two `BigUint` literals, refuses
/// a zero denominator, and gives the fraction in lowest terms with a positive
/// denominator; and on `BigUint::from_slice` and `BigUint::to_u32_digits`.
#[verifier::external_body]
pub(crate) fn parse_fraction(token: &Vec<char>) -> (r: Option<Fraction>)
    ensures
        r is Some <==> fraction_literal(token@) is Some,
        r matches Some(f) ==> {
            let (n, d) = fraction_literal(token@)->0;
            &&& f.denom@ > 0
            &&& f.numer@ * d == n * f.denom@
            &&& coprime(f.numer@, f.denom@)
        },
{
    let text: String = token.iter().collect();
    match Ratio::<BigUint>::from_str(&text) {
        Ok(q) => Some(Fraction {
            numer: Natural { digits: q.numer().to_u32_digits() },
            denom: Natural { digits: q.denom().to_u32_digits() },
        }),
        Err(_) => None,
    }
}

/// Relies on `Ratio::new_raw` and `*` of `Ratio<BigUint>`, the exact product
/// in lowest terms with a positive denominator.
#[verifier::external_body]
pub(crate) fn multiply(a: &Fraction, b: &Fraction) -> (r: Fraction)
    requires
        a.wf(),
        b.wf(),
    ensures
        r.wf(),
        r.numer@ * (a.denom@ * b.denom@) == a.numer@ * b.numer@ * r.denom@,
        coprime(r.numer@, r.denom@),
{
    let x = Ratio::new_raw(BigUint::from_slice(&a.numer.digits), BigUint::from_slice(&a.denom.digits));
    let y = Ratio::new_raw(BigUint::from_slice(&b.numer.digits), BigUint::from_slice(&b.denom.digits));
    let p = x * y;
    Fraction {
        numer: Natural { digits: p.numer().to_u32_digits() },
        denom: Natural { digits: p.denom().to_u32_digits() },
    }
}

} // verus!
