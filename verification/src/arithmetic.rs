//! Modular scalar arithmetic: a single unsigned value kept reduced in
//! `[0, modulus)`, with add/sub/mul and square-and-multiply exponentiation.

use vstd::prelude::*;

verus! {

use vstd::arithmetic::div_mod::{
    lemma_add_mod_noop,
    lemma_add_mod_noop_right,
    lemma_fundamental_div_mod,
    lemma_mod_multiples_vanish,
    lemma_mul_mod_noop,
    lemma_mul_mod_noop_left,
    lemma_mul_mod_noop_right,
    lemma_small_mod,
};
use vstd::arithmetic::power::{
    lemma_pow0,
    lemma_pow1,
    lemma_pow_adds,
    lemma_pow_mod_noop,
    lemma_pow_multiplies,
    lemma_square_is_pow2,
    pow,
};

/// Coefficient modulus of the reference parameter set; the default prime for
/// demos and tests.
pub const PRIME: u16 = 7681;

/// Canonical residue of `a + b` modulo `m`.
pub open spec fn add_mod(a: int, b: int, m: int) -> int {
    (a + b) % m
}

/// Canonical residue of `a - b` modulo `m`.
pub open spec fn sub_mod(a: int, b: int, m: int) -> int {
    (a - b) % m
}

/// Canonical residue of `a * b` modulo `m`.
pub open spec fn mul_mod(a: int, b: int, m: int) -> int {
    (a * b) % m
}

/// Canonical residue of `b^e` modulo `m`.
pub open spec fn pow_mod(b: int, e: nat, m: int) -> int {
    pow(b, e) % m
}

/// An integer residue together with its modulus. Every operation keeps
/// `value` reduced into `[0, modulus)`.
#[derive(Clone, Copy, Debug, PartialEq)]
pub struct IntMod {
    pub value: u32,
    pub modulus: u16,
}

impl IntMod {
    /// The invariant every operation restores: a positive modulus and a
    /// value already reduced below it.
    pub open spec fn wf(self) -> bool {
        1 <= self.modulus && (self.value as int) < (self.modulus as int)
    }

    /// Builds a scalar from a raw integer, reducing it into `[0, modulus)`.
    pub fn new(value: u32, modulus: u16) -> (r: Self)
        requires
            modulus >= 1,
        ensures
            r.wf(),
            r.modulus == modulus,
            r.value as int == (value as int) % (modulus as int),
    {
        IntMod { value: value % (modulus as u32), modulus }
    }

    /// Modular addition: `value` becomes `(value + other) mod modulus`.
    /// The delta may exceed the modulus; it is reduced along the way.
    pub fn add(&mut self, other: u32)
        requires
            old(self).wf(),
        ensures
            final(self).wf(),
            final(self).modulus == old(self).modulus,
            final(self).value as int == add_mod(
                old(self).value as int,
                other as int,
                old(self).modulus as int,
            ),
    {
        let p: u32 = self.modulus as u32;
        let r: u32 = other % p;
        self.value = (self.value + r) % p;
        proof {
            lemma_add_mod_noop_right(old(self).value as int, other as int, p as int);
        }
    }

    /// Modular subtraction, done by adding the additive inverse of the
    /// reduced delta so no signed arithmetic is needed.
    pub fn sub(&mut self, other: u32)
        requires
            old(self).wf(),
        ensures
            final(self).wf(),
            final(self).modulus == old(self).modulus,
            final(self).value as int == sub_mod(
                old(self).value as int,
                other as int,
                old(self).modulus as int,
            ),
    {
        let p: u32 = self.modulus as u32;
        let neg: u32 = p - (other % p);
        self.value = (self.value + neg) % p;
        proof {
            let v = old(self).value as int;
            let o = other as int;
            let m = p as int;
            lemma_fundamental_div_mod(o, m);
            assert(v + m - o % m == m * (o / m + 1) + (v - o)) by {
                assert(m * (o / m + 1) == m * (o / m) + m) by (nonlinear_arith);
            }
            lemma_mod_multiples_vanish(o / m + 1, v - o, m);
        }
    }

    /// Modular multiplication: `value` becomes
    /// `(value * (other mod modulus)) mod modulus`. The factors are both
    /// below 2^16, so the product fits the 32-bit working type.
    pub fn mul(&mut self, other: u32)
        requires
            old(self).wf(),
        ensures
            final(self).wf(),
            final(self).modulus == old(self).modulus,
            final(self).value as int == mul_mod(
                old(self).value as int,
                other as int,
                old(self).modulus as int,
            ),
    {
        let p: u32 = self.modulus as u32;
        let r: u32 = other % p;
        proof {
            assert(self.value as int * r as int <= 65534 * 65534) by (nonlinear_arith)
                requires
                    self.value as int <= 65534,
                    r as int <= 65534,
                    0 <= self.value as int,
                    0 <= r as int,
            ;
        }
        self.value = (self.value * r) % p;
        proof {
            lemma_mul_mod_noop_right(old(self).value as int, other as int, p as int);
        }
    }

    /// Modular exponentiation by square-and-multiply: walks the bits of the
    /// exponent from least to most significant, multiplying an accumulator
    /// by a running square whenever the current bit is set.
    pub fn pow(&mut self, other: u32)
        requires
            old(self).wf(),
        ensures
            final(self).wf(),
            final(self).modulus == old(self).modulus,
            final(self).value as int == pow_mod(
                old(self).value as int,
                other as nat,
                old(self).modulus as int,
            ),
    {
        let ghost m = old(self).modulus as int;
        let ghost v0 = old(self).value as int;
        let ghost e0 = other as nat;
        let mut sq = *self;
        let mut modexp = IntMod::new(1, self.modulus);
        let mut x = other;
        proof {
            lemma_mul_mod_noop_left(1, pow(v0, e0), m);
        }
        while x > 0
            invariant
                modexp.wf(),
                sq.wf(),
                modexp.modulus == old(self).modulus,
                sq.modulus == old(self).modulus,
                m == old(self).modulus as int,
                (modexp.value as int * pow(sq.value as int, x as nat)) % m == pow(v0, e0) % m,
            decreases x,
        {
            let ghost a = modexp.value as int;
            let ghost s = sq.value as int;
            let ghost xg = x as nat;
            if x % 2 == 1 {
                modexp.mul(sq.value);
            }
            let sqv = sq.value;
            sq.mul(sqv);
            x = x / 2;
            proof {
                lemma_small_mod(s as nat, m as nat);
                lemma_pow_step(a, s, xg, m);
            }
        }
        proof {
            lemma_pow0(sq.value as int);
            lemma_small_mod(modexp.value as nat, m as nat);
        }
        self.value = modexp.value;
    }
}

/// One step of square-and-multiply: halving the exponent while squaring the
/// base (and, on an odd exponent, folding the base into the accumulator)
/// preserves the running product modulo `m`.
proof fn lemma_pow_step(a: int, s: int, x: nat, m: int)
    requires
        m >= 1,
        0 <= a,
        0 <= s,
        x > 0,
    ensures
        x % 2 == 1 ==> (((a * s) % m) * pow((s * s) % m, (x / 2) as nat)) % m == (a * pow(
            s,
            x,
        )) % m,
        x % 2 == 0 ==> (a * pow((s * s) % m, (x / 2) as nat)) % m == (a * pow(s, x)) % m,
{
    let h = (x / 2) as nat;
    lemma_pow_multiplies(s, 2, h);
    lemma_square_is_pow2(s);
    lemma_pow_mod_noop(s * s, h, m);
    let q = pow(s * s, h);
    let qm = pow((s * s) % m, h);
    if x % 2 == 1 {
        assert(x == 2 * h + 1);
        lemma_pow_adds(s, (2 * h) as nat, 1);
        lemma_pow1(s);
        assert(pow(s, x) == q * s);
        lemma_mul_mod_noop_left(a * s, qm, m);
        lemma_mul_mod_noop_right((a * s) % m, qm, m);
        lemma_mul_mod_noop_right((a * s) % m, q, m);
        lemma_mul_mod_noop_left(a * s, q, m);
        assert((a * s) * q == a * (q * s)) by (nonlinear_arith);
    } else {
        assert(x == 2 * h);
        assert(pow(s, x) == q);
        lemma_mul_mod_noop_right(a, qm, m);
        lemma_mul_mod_noop_right(a, q, m);
    }
}

/// Adding `a` and then `b` to a residue is the same as adding the single
/// reduced delta `(a + b) mod m`: addition chains collapse.
pub proof fn lemma_add_twice(v: int, a: int, b: int, m: int)
    requires
        m >= 1,
    ensures
        add_mod(add_mod(v, a, m), b, m) == add_mod(v, (a + b) % m, m),
{
    lemma_add_mod_on_left(v + a, b, m);
    lemma_add_mod_noop_right(v, a + b, m);
}

/// Reducing the left summand before a modular addition does not change the
/// result: `((x mod m) + y) mod m == (x + y) mod m`.
proof fn lemma_add_mod_on_left(x: int, y: int, m: int)
    requires
        m >= 1,
    ensures
        ((x % m) + y) % m == (x + y) % m,
{
    lemma_add_mod_noop_right(x % m, y, m);
    lemma_add_mod_noop(x, y, m);
}

/// Subtracting `a` and then adding `a` restores a reduced residue:
/// subtraction is the inverse of addition modulo `m`.
pub proof fn lemma_sub_then_add(v: int, a: int, m: int)
    requires
        m >= 1,
        0 <= v < m,
    ensures
        add_mod(sub_mod(v, a, m), a, m) == v,
{
    lemma_add_mod_on_left(v - a, a, m);
    lemma_small_mod(v as nat, m as nat);
}

/// The exponent laws of modular exponentiation: a zeroth power is the
/// multiplicative identity, a first power of a reduced value is the value
/// itself, and exponents add through a reduced multiplication.
pub proof fn lemma_pow_laws(v: int, a: nat, b: nat, m: int)
    requires
        m >= 1,
        0 <= v,
    ensures
        m > 1 ==> pow_mod(v, 0, m) == 1,
        v < m ==> pow_mod(v, 1, m) == v,
        pow_mod(v, a + b, m) == mul_mod(pow_mod(v, a, m), pow_mod(v, b, m), m),
{
    lemma_pow0(v);
    lemma_pow1(v);
    if m > 1 {
        lemma_small_mod(1, m as nat);
    }
    if v < m {
        lemma_small_mod(v as nat, m as nat);
    }
    lemma_pow_adds(v, a, b);
    lemma_mul_mod_noop(pow(v, a), pow(v, b), m);
}

} // verus!
