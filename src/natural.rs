//! Unbounded natural numbers, held as base 2^32 digits, least significant first.

use num::bigint::BigUint;
use vstd::prelude::*;

verus! {

/// The value of a little-endian sequence of base 2^32 digits.
pub open spec fn digits_value(d: Seq<u32>) -> nat
    decreases d.len(),
{
    if d.len() == 0 {
        0
    } else {
        d[0] as nat + 0x1_0000_0000 * digits_value(d.drop_first())
    }
}

/// `b` raised to the power `e`.
pub open spec fn power(b: nat, e: nat) -> nat
    decreases e,
{
    if e == 0 {
        1
    } else {
        b * power(b, (e - 1) as nat)
    }
}

/// A natural number of any size.
///
/// Any digit vector is valid: trailing zero digits do not change the value.
pub struct Natural {
    pub digits: Vec<u32>,
}

impl View for Natural {
    type V = nat;

    open spec fn view(&self) -> nat {
        digits_value(self.digits@)
    }
}

proof fn lemma_value_zero(d: Seq<u32>)
    ensures
        digits_value(d) == 0 <==> forall|i: int| 0 <= i < d.len() ==> d[i] == 0,
    decreases d.len(),
{
    if d.len() > 0 {
        lemma_value_zero(d.drop_first());
        if digits_value(d) == 0 {
            assert forall|i: int| 0 <= i < d.len() implies d[i] == 0 by {
                if i > 0 {
                    assert(d[i] == d.drop_first()[i - 1]);
                }
            }
        }
        if forall|i: int| 0 <= i < d.len() ==> d[i] == 0 {
            assert forall|i: int| 0 <= i < d.drop_first().len() implies d.drop_first()[i] == 0 by {
                assert(d.drop_first()[i] == d[i + 1]);
            }
        }
    }
}

impl Natural {
    /// The number `v`.
    pub fn from_u64(v: u64) -> (r: Natural)
        ensures
            r@ == v as nat,
    {
        let lo: u32 = (v % 0x1_0000_0000) as u32;
        let hi: u32 = (v / 0x1_0000_0000) as u32;
        let mut digits: Vec<u32> = Vec::new();
        digits.push(lo);
        digits.push(hi);
        proof {
            let d = digits@;
            assert(digits_value(d.drop_first().drop_first()) == 0);
            assert(digits_value(d.drop_first()) == hi as nat);
            assert(digits_value(d) == lo as nat + 0x1_0000_0000 * (hi as nat));
        }
        Natural { digits }
    }

    /// The value as a `u64`, or `None` where it does not fit.
    pub fn to_u64(&self) -> (r: Option<u64>)
        ensures
            r matches Some(v) ==> v as nat == self@,
            r is None ==> self@ > u64::MAX as nat,
    {
        let n = self.digits.len();
        let mut i: usize = 2;
        while i < n
            invariant
                n == self.digits.len(),
                2 <= i,
                i <= n || i == 2,
                forall|j: int| 2 <= j < i ==> self.digits[j] == 0,
            decreases n - i,
        {
            if self.digits[i] != 0 {
                proof {
                    self.lemma_high_digit(i as int);
                }
                return None;
            }
            i = i + 1;
        }
        let lo: u64 = if n > 0 { self.digits[0] as u64 } else { 0 };
        let hi: u64 = if n > 1 { self.digits[1] as u64 } else { 0 };
        proof {
            let d = self.digits@;
            if n >= 2 {
                let t = d.drop_first().drop_first();
                assert forall|j: int| 0 <= j < t.len() implies t[j] == 0 by {
                    assert(t[j] == d[j + 2]);
                }
                lemma_value_zero(t);
                assert(digits_value(d.drop_first()) == hi as nat);
            } else if n == 1 {
                assert(digits_value(d.drop_first()) == 0);
            }
        }
        Some(lo + hi * 0x1_0000_0000)
    }

    proof fn lemma_high_digit(&self, i: int)
        requires
            2 <= i < self.digits.len(),
            self.digits[i] != 0,
        ensures
            self@ > u64::MAX as nat,
    {
        let d = self.digits@;
        let t = d.drop_first().drop_first();
        assert(t[i - 2] == d[i]);
        lemma_value_zero(t);
        assert(digits_value(t) >= 1);
        assert(digits_value(d.drop_first()) >= 0x1_0000_0000);
    }

    /// A copy of this number.
    pub fn copy(&self) -> (r: Natural)
        ensures
            r@ == self@,
    {
        let mut digits: Vec<u32> = Vec::new();
        let n = self.digits.len();
        let mut i: usize = 0;
        while i < n
            invariant
                n == self.digits.len(),
                i <= n,
                digits@ == self.digits@.subrange(0, i as int),
            decreases n - i,
        {
            digits.push(self.digits[i]);
            i = i + 1;
        }
        assert(digits@ == self.digits@);
        Natural { digits }
    }

    /// Whether the number is one.
    pub fn is_one(&self) -> (r: bool)
        ensures
            r == (self@ == 1),
    {
        let n = self.digits.len();
        if n == 0 {
            return false;
        }
        let mut i: usize = 1;
        while i < n
            invariant
                n == self.digits.len(),
                1 <= i <= n,
                forall|j: int| 1 <= j < i ==> self.digits[j] == 0,
            decreases n - i,
        {
            if self.digits[i] != 0 {
                proof {
                    let t = self.digits@.drop_first();
                    assert(t[i - 1] == self.digits[i as int]);
                    lemma_value_zero(t);
                }
                return false;
            }
            i = i + 1;
        }
        proof {
            let t = self.digits@.drop_first();
            assert forall|j: int| 0 <= j < t.len() implies t[j] == 0 by {
                assert(t[j] == self.digits[j + 1]);
            }
            lemma_value_zero(t);
        }
        self.digits[0] == 1
    }

    /// Whether the number is zero.
    pub fn is_zero(&self) -> (r: bool)
        ensures
            r == (self@ == 0),
    {
        let n = self.digits.len();
        let mut i: usize = 0;
        while i < n
            invariant
                n == self.digits.len(),
                i <= n,
                forall|j: int| 0 <= j < i ==> self.digits[j] == 0,
            decreases n - i,
        {
            if self.digits[i] != 0 {
                proof {
                    lemma_value_zero(self.digits@);
                }
                return false;
            }
            i = i + 1;
        }
        proof {
            lemma_value_zero(self.digits@);
        }
        true
    }
}

/// Relies on `BigUint::from_slice` and `BigUint::to_u32_digits`, which read and
/// write base 2^32 digits least significant first, and on `%` of `BigUint`.
#[verifier::external_body]
pub(crate) fn rem(a: &Natural, b: &Natural) -> (r: Natural)
    requires
        b@ > 0,
    ensures
        r@ == a@ % b@,
{
    let x = BigUint::from_slice(&a.digits);
    let y = BigUint::from_slice(&b.digits);
    Natural { digits: (&x % &y).to_u32_digits() }
}

/// Relies on `/` of `BigUint`, which rounds down; digits convert as for `rem`.
#[verifier::external_body]
pub(crate) fn div(a: &Natural, b: &Natural) -> (r: Natural)
    requires
        b@ > 0,
    ensures
        r@ == a@ / b@,
{
    let x = BigUint::from_slice(&a.digits);
    let y = BigUint::from_slice(&b.digits);
    Natural { digits: (&x / &y).to_u32_digits() }
}

/// Relies on the order of `BigUint`, which is that of the numbers.
#[verifier::external_body]
pub(crate) fn le(a: &Natural, b: &Natural) -> (r: bool)
    ensures
        r == (a@ <= b@),
{
    BigUint::from_slice(&a.digits) <= BigUint::from_slice(&b.digits)
}

/// Relies on `BigUint + u32`, the sum of the two numbers.
#[verifier::external_body]
pub(crate) fn add_small(a: &Natural, k: u32) -> (r: Natural)
    ensures
        r@ == a@ + k as nat,
{
    Natural { digits: (BigUint::from_slice(&a.digits) + k).to_u32_digits() }
}

/// Relies on `BigUint::sqrt`, the truncated principal square root.
#[verifier::external_body]
pub(crate) fn sqrt(a: &Natural) -> (r: Natural)
    ensures
        r@ * r@ <= a@,
        a@ < (r@ + 1) * (r@ + 1),
{
    Natural { digits: BigUint::from_slice(&a.digits).sqrt().to_u32_digits() }
}

/// Relies on `BigUint::bits`, the fewest bits that express the number.
#[verifier::external_body]
pub(crate) fn bits(a: &Natural) -> (r: u64)
    ensures
        a@ < power(2, r as nat),
{
    BigUint::from_slice(&a.digits).bits()
}

} // verus!
