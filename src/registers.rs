//! Decoding an accumulator into registers: the exponents of its small prime
//! factors, found by trial division.

use crate::natural::{add_small, bits, div, le, power, rem, sqrt, Natural};
use vstd::arithmetic::div_mod::lemma_mod_multiples_basic;
use vstd::prelude::*;

verus! {

/// How many times `p` divides `n` (zero where `n` is zero or `p` below two).
pub open spec fn multiplicity(p: nat, n: nat) -> nat
    decreases n via multiplicity_decreases
{
    if p >= 2 && n > 0 && n % p == 0 {
        1 + multiplicity(p, n / p)
    } else {
        0
    }
}

/// `n` with every factor `p` divided out.
pub open spec fn strip(p: nat, n: nat) -> nat
    decreases n via strip_decreases
{
    if p >= 2 && n > 0 && n % p == 0 {
        strip(p, n / p)
    } else {
        n
    }
}

#[via_fn]
proof fn multiplicity_decreases(p: nat, n: nat) {
    if p >= 2 && n > 0 && n % p == 0 {
        assert(n / p < n) by (nonlinear_arith)
            requires
                p >= 2,
                n > 0,
        ;
    }
}

#[via_fn]
proof fn strip_decreases(p: nat, n: nat) {
    if p >= 2 && n > 0 && n % p == 0 {
        assert(n / p < n) by (nonlinear_arith)
            requires
                p >= 2,
                n > 0,
        ;
    }
}

/// The register of `p` in `num`, listed only where its exponent is not zero.
pub open spec fn entry(p: nat, num: nat) -> Seq<(nat, nat)> {
    if multiplicity(p, num) > 0 {
        seq![(p, multiplicity(p, num))]
    } else {
        seq![]
    }
}

/// The registers found scanning `p`, `p + 2`, ... up to `max` over `num`,
/// dividing each candidate out before moving to the next.
pub open spec fn scan(num: nat, p: nat, max: nat) -> Seq<(nat, nat)>
    decreases max + 2 - p,
{
    if p > max {
        seq![]
    } else {
        entry(p, num) + scan(strip(p, num), p + 2, max)
    }
}

/// What is left of `num` after that scan.
pub open spec fn rest(num: nat, p: nat, max: nat) -> nat
    decreases max + 2 - p,
{
    if p > max {
        num
    } else {
        rest(strip(p, num), p + 2, max)
    }
}

/// The integer square root of `n`, rounded down.
pub open spec fn floor_sqrt(n: nat) -> nat {
    choose|r: nat| #[trigger] (r * r) <= n && n < (r + 1) * (r + 1)
}

/// The registers of `n`: the candidate 2, then every odd candidate from 3 up
/// to the square root of `n`, each with the times it divides what is left.
pub open spec fn registers_spec(n: nat) -> Seq<(nat, nat)> {
    if n == 0 {
        seq![]
    } else {
        entry(2, n) + scan(strip(2, n), 3, floor_sqrt(n))
    }
}

/// What is left of `n` once its registers are divided out.
pub open spec fn residual(n: nat) -> nat {
    if n == 0 {
        0
    } else {
        rest(strip(2, n), 3, floor_sqrt(n))
    }
}

/// The product of `p^e` over the registers `regs`.
pub open spec fn product(regs: Seq<(nat, nat)>) -> nat
    decreases regs.len(),
{
    if regs.len() == 0 {
        1
    } else {
        power(regs[0].0, regs[0].1) * product(regs.drop_first())
    }
}

/// A register: a prime candidate and its exponent.
pub struct Register {
    pub prime: Natural,
    pub exponent: u64,
}

impl View for Register {
    type V = (nat, nat);

    open spec fn view(&self) -> (nat, nat) {
        (self.prime@, self.exponent as nat)
    }
}

proof fn lemma_floor_sqrt(n: nat, r: nat)
    requires
        r * r <= n,
        n < (r + 1) * (r + 1),
    ensures
        floor_sqrt(n) == r,
{
    let s = floor_sqrt(n);
    assert(s * s <= n && n < (s + 1) * (s + 1));
    if s < r {
        assert((s + 1) * (s + 1) <= r * r) by (nonlinear_arith)
            requires
                s + 1 <= r,
        ;
    }
    if r < s {
        assert((r + 1) * (r + 1) <= s * s) by (nonlinear_arith)
            requires
                r + 1 <= s,
        ;
    }
}

proof fn lemma_power_base(a: nat, b: nat, e: nat)
    requires
        a <= b,
    ensures
        power(a, e) <= power(b, e),
    decreases e,
{
    if e > 0 {
        lemma_power_base(a, b, (e - 1) as nat);
        let x = power(a, (e - 1) as nat);
        let y = power(b, (e - 1) as nat);
        assert(a * x <= b * y) by (nonlinear_arith)
            requires
                a <= b,
                x <= y,
        ;
    }
}

proof fn lemma_power_exp(e1: nat, e2: nat)
    requires
        e1 <= e2,
    ensures
        power(2, e1) <= power(2, e2),
    decreases e2,
{
    if e1 < e2 {
        lemma_power_exp(e1, (e2 - 1) as nat);
    }
}

/// Dividing out `p` from `n` leaves a positive number that `p` does not divide,
/// and `p` to the multiplicity times it gives `n` back.
proof fn lemma_strip(p: nat, n: nat)
    requires
        p >= 2,
        n > 0,
    ensures
        power(p, multiplicity(p, n)) * strip(p, n) == n,
        strip(p, n) > 0,
        strip(p, n) % p != 0,
    decreases n,
{
    if n % p != 0 {
        assert(multiplicity(p, n) == 0);
        assert(strip(p, n) == n);
        assert(power(p, 0) == 1);
    } else {
        let q = n / p;
        assert(q > 0 && q < n && n == p * q) by (nonlinear_arith)
            requires
                p >= 2,
                n > 0,
                n % p == 0,
                q == n / p,
        ;
        lemma_strip(p, q);
        let m = multiplicity(p, q);
        assert(multiplicity(p, n) == m + 1);
        assert(strip(p, n) == strip(p, q));
        assert(power(p, m + 1) == p * power(p, m));
        assert(power(p, m + 1) * strip(p, q) == p * (power(p, m) * strip(p, q))) by (nonlinear_arith)
            requires
                power(p, m + 1) == p * power(p, m),
        ;
    }
}

proof fn lemma_product_concat(a: Seq<(nat, nat)>, b: Seq<(nat, nat)>)
    ensures
        product(a + b) == product(a) * product(b),
    decreases a.len(),
{
    if a.len() == 0 {
        assert(a + b =~= b);
        assert(product(a) == 1);
    } else {
        assert((a + b).drop_first() =~= a.drop_first() + b);
        assert((a + b)[0] == a[0]);
        lemma_product_concat(a.drop_first(), b);
        let x = power(a[0].0, a[0].1);
        assert(product(a) == x * product(a.drop_first()));
        assert(product(a + b) == x * product((a + b).drop_first()));
        assert(x * (product(a.drop_first()) * product(b)) == (x * product(a.drop_first()))
            * product(b)) by (nonlinear_arith);
    }
}

proof fn lemma_entry_product(p: nat, num: nat)
    ensures
        product(entry(p, num)) == power(p, multiplicity(p, num)),
{
    let e = entry(p, num);
    if multiplicity(p, num) > 0 {
        assert(e.drop_first().len() == 0);
        assert(product(e.drop_first()) == 1);
    } else {
        assert(power(p, 0) == 1);
    }
}

/// The scan divides `num` into the product of its registers and the rest, and
/// no candidate it passed divides the rest.
proof fn lemma_scan(num: nat, p: nat, max: nat)
    requires
        num > 0,
        p >= 2,
    ensures
        product(scan(num, p, max)) * rest(num, p, max) == num,
        rest(num, p, max) > 0,
        forall|d: nat|
            p <= d <= max && (d - p) % 2 == 0 ==> #[trigger] (rest(num, p, max) % d) != 0,
        forall|i: int|
            0 <= i < scan(num, p, max).len() ==> {
                let r = #[trigger] scan(num, p, max)[i];
                &&& r.1 > 0
                &&& p <= r.0 <= max
                &&& (r.0 - p) % 2 == 0
            },
    decreases max + 2 - p,
{
    if p <= max {
        let s = strip(p, num);
        let m = multiplicity(p, num);
        lemma_strip(p, num);
        lemma_scan(s, p + 2, max);
        let tail = scan(s, p + 2, max);
        let rr = rest(s, p + 2, max);
        let pt = product(tail);
        lemma_product_concat(entry(p, num), tail);
        lemma_entry_product(p, num);
        assert(scan(num, p, max) == entry(p, num) + tail);
        assert(rest(num, p, max) == rr);
        assert(power(p, m) * pt * rr == num) by (nonlinear_arith)
            requires
                pt * rr == s,
                power(p, m) * s == num,
        ;
        assert(rr % p != 0) by {
            if rr % p == 0 {
                let k = rr / p;
                assert(rr == k * p) by (nonlinear_arith)
                    requires
                        rr % p == 0,
                        k == rr / p,
                        p >= 2,
                ;
                assert(s == (pt * k) * p) by (nonlinear_arith)
                    requires
                        pt * rr == s,
                        rr == k * p,
                ;
                lemma_mod_multiples_basic((pt * k) as int, p as int);
            }
        }
        assert forall|d: nat| p <= d <= max && (d - p) % 2 == 0 implies #[trigger] (rest(
            num,
            p,
            max,
        ) % d) != 0 by {
            if d != p {
                assert(rest(s, p + 2, max) % d != 0);
            }
        }
        let e = entry(p, num);
        assert forall|i: int| 0 <= i < scan(num, p, max).len() implies {
            let r = #[trigger] scan(num, p, max)[i];
            &&& r.1 > 0
            &&& p <= r.0 <= max
            &&& (r.0 - p) % 2 == 0
        } by {
            if i >= e.len() {
                assert(scan(num, p, max)[i] == tail[i - e.len()]);
            }
        }
    } else {
        assert(product(scan(num, p, max)) == 1);
    }
}

/// The registers of `n` multiply to the part of `n` whose factors are all
/// candidates: what is left has no divisor from 2 up to the square root of `n`,
/// and every register is 2, or an odd number from 3 up to that square root,
/// with an exponent of at least one.
pub proof fn lemma_registers_factor(n: nat)
    requires
        n > 0,
    ensures
        product(registers_spec(n)) * residual(n) == n,
        residual(n) % 2 != 0,
        forall|d: nat| 2 <= d <= floor_sqrt(n) ==> #[trigger] (residual(n) % d) != 0,
        forall|i: int|
            0 <= i < registers_spec(n).len() ==> {
                let r = #[trigger] registers_spec(n)[i];
                &&& r.1 > 0
                &&& r.0 == 2 || (3 <= r.0 <= floor_sqrt(n) && r.0 % 2 == 1)
            },
{
    let m = floor_sqrt(n);
    let s = strip(2, n);
    lemma_strip(2, n);
    lemma_scan(s, 3, m);
    let tail = scan(s, 3, m);
    let rr = rest(s, 3, m);
    let pt = product(tail);
    lemma_product_concat(entry(2, n), tail);
    lemma_entry_product(2, n);
    assert(power(2, multiplicity(2, n)) * pt * rr == n) by (nonlinear_arith)
        requires
            pt * rr == s,
            power(2, multiplicity(2, n)) * s == n,
    ;
    assert(rr % 2 != 0) by {
        if rr % 2 == 0 {
            let k = rr / 2;
            assert(s == (pt * k) * 2) by (nonlinear_arith)
                requires
                    pt * rr == s,
                    rr % 2 == 0,
                    k == rr / 2,
            ;
            lemma_mod_multiples_basic((pt * k) as int, 2);
        }
    }
    assert forall|d: nat| 2 <= d <= m implies #[trigger] (rr % d) != 0 by {
        if d % 2 == 0 {
            if rr % d == 0 {
                let k = rr / d;
                let h = d / 2;
                assert(rr == (k * h) * 2) by (nonlinear_arith)
                    requires
                        rr % d == 0,
                        k == rr / d,
                        d % 2 == 0,
                        h == d / 2,
                        d >= 2,
                ;
                lemma_mod_multiples_basic((k * h) as int, 2);
            }
        } else {
            assert(rest(s, 3, m) % d != 0);
        }
    }
    let e = entry(2, n);
    assert forall|i: int| 0 <= i < registers_spec(n).len() implies {
        let r = #[trigger] registers_spec(n)[i];
        &&& r.1 > 0
        &&& r.0 == 2 || (3 <= r.0 <= m && r.0 % 2 == 1)
    } by {
        if i >= e.len() {
            assert(registers_spec(n)[i] == tail[i - e.len()]);
        }
    }
}

/// Whether `f` leaves a remainder on `num`.
pub fn has_remainder(f: &Natural, num: &Natural) -> (r: bool)
    requires
        f@ > 0,
    ensures
        r == (num@ % f@ != 0),
{
    !rem(num, f).is_zero()
}

/// Divides every factor `f` out of `num` and returns how many there were.
pub fn check_prime_factor(f: &Natural, num: &mut Natural) -> (r: u64)
    requires
        f@ >= 2,
        old(num)@ > 0,
    ensures
        r as nat == multiplicity(f@, old(num)@),
        final(num)@ == strip(f@, old(num)@),
{
    let ghost n0 = old(num)@;
    let b = bits(num);
    let mut i: u64 = 0;
    assert(power(f@, 0) == 1);
    loop
        invariant
            f@ >= 2,
            n0 == old(num)@,
            num@ > 0,
            i + multiplicity(f@, num@) == multiplicity(f@, n0),
            strip(f@, num@) == strip(f@, n0),
            power(f@, i as nat) * num@ == n0,
            n0 < power(2, b as nat),
        decreases num@,
    {
        if has_remainder(f, num) {
            assert(multiplicity(f@, num@) == 0);
            assert(strip(f@, num@) == num@);
            return i;
        }
        proof {
            let fv = f@;
            let pi = power(fv, i as nat);
            assert(num@ >= fv) by (nonlinear_arith)
                requires
                    num@ % fv == 0,
                    num@ > 0,
                    fv >= 2,
            ;
            assert(power(fv, (i + 1) as nat) == fv * pi);
            assert(fv * pi <= num@ * pi) by (nonlinear_arith)
                requires
                    num@ >= fv,
            ;
            lemma_power_base(2, fv, (i + 1) as nat);
            assert(num@ * pi == n0) by (nonlinear_arith)
                requires
                    pi * num@ == n0,
            ;
            assert(power(fv, (i + 1) as nat) <= n0);
            if i + 1 >= b {
                lemma_power_exp(b as nat, (i + 1) as nat);
                assert(power(2, b as nat) <= n0);
            }
            assert(i + 1 < b);
        }
        let next = div(num, f);
        proof {
            let fv = f@;
            let pi = power(fv, i as nat);
            assert(num@ == fv * next@ && next@ > 0 && next@ < num@) by (nonlinear_arith)
                requires
                    num@ % fv == 0,
                    next@ == num@ / fv,
                    num@ > 0,
                    fv >= 2,
            ;
            assert(power(fv, (i + 1) as nat) == fv * pi);
            assert(pi * num@ == (fv * pi) * next@) by (nonlinear_arith)
                requires
                    num@ == fv * next@,
            ;
        }
        *num = next;
        i = i + 1;
    }
}

/// The registers of `n`, in increasing order of candidate; none for zero.
pub fn registers(n: &Natural) -> (r: Vec<Register>)
    ensures
        r@.map_values(|x: Register| x@) == registers_spec(n@),
{
    if n.is_zero() {
        let r: Vec<Register> = Vec::new();
        assert(r@.map_values(|x: Register| x@) =~= registers_spec(n@));
        return r;
    }
    let max = sqrt(n);
    proof {
        lemma_floor_sqrt(n@, max@);
        assert(max@ >= 1) by (nonlinear_arith)
            requires
                n@ < (max@ + 1) * (max@ + 1),
                n@ > 0,
        ;
    }
    let mut num = n.copy();
    let mut out: Vec<Register> = Vec::new();
    let two = Natural::from_u64(2);
    let i = check_prime_factor(&two, &mut num);
    proof {
        lemma_strip(2, n@);
    }
    if i > 0 {
        out.push(Register { prime: two, exponent: i });
    }
    assert(out@.map_values(|x: Register| x@) =~= entry(2, n@));
    let mut p = Natural::from_u64(3);
    while le(&p, &max)
        invariant
            n@ > 0,
            max@ == floor_sqrt(n@),
            3 <= p@ <= max@ + 2,
            num@ > 0,
            out@.map_values(|x: Register| x@) + scan(num@, p@, max@) == registers_spec(n@),
        decreases max@ + 2 - p@,
    {
        let ghost pv = p@;
        let ghost before = num@;
        let e = check_prime_factor(&p, &mut num);
        proof {
            lemma_strip(pv, before);
        }
        let ghost old_out = out@.map_values(|x: Register| x@);
        if e > 0 {
            out.push(Register { prime: p.copy(), exponent: e });
        }
        assert(out@.map_values(|x: Register| x@) =~= old_out + entry(pv, before));
        assert(scan(before, pv, max@) == entry(pv, before) + scan(num@, pv + 2, max@));
        assert(old_out + (entry(pv, before) + scan(num@, pv + 2, max@)) =~= (old_out + entry(
            pv,
            before,
        )) + scan(num@, pv + 2, max@));
        p = add_small(&p, 2);
    }
    assert(scan(num@, p@, max@) =~= Seq::<(nat, nat)>::empty());
    assert(out@.map_values(|x: Register| x@) =~= registers_spec(n@));
    out
}

} // verus!
