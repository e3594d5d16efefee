//! Modular arithmetic: greatest common divisor, modular exponentiation by
//! square-and-multiply, and modular inverse by the extended Euclidean
//! algorithm. Results lie in the canonical residue range for the modulus's
//! sign, the range of the floor remainder.

use vstd::prelude::*;
use vstd::arithmetic::power::pow;
use vstd::arithmetic::power::lemma_pow0;
use vstd::arithmetic::power::lemma_pow1;
use vstd::arithmetic::power::lemma_pow_mod_noop;
use vstd::arithmetic::div_mod::lemma_fundamental_div_mod_converse;
use vstd::arithmetic::div_mod::lemma_small_mod;
use vstd::arithmetic::div_mod::lemma_mod_multiples_vanish;
use vstd::arithmetic::div_mod::lemma_mul_mod_noop_left;
use vstd::arithmetic::div_mod::lemma_mul_mod_noop_right;
use vstd::arithmetic::div_mod::lemma_sub_mod_noop;
use vstd::arithmetic::div_mod::lemma_div_pos_is_pos;
use vstd::arithmetic::div_mod::lemma_div_decreases;
use crate::arith::{abs_of, fdiv, fmod, gcd_n, lemma_fdm, lemma_fdm_unique, lemma_tdm};
use crate::pow::{lemma_pow_succ, lemma_pow_square};
use crate::sbi::Sbi;
use core::cmp::Ordering;

verus! {

/// The floor remainder is congruent to the dividend modulo the magnitude of
/// the divisor.
pub proof fn lemma_fmod_congruence(x: int, m: int)
    requires
        m != 0,
    ensures
        fmod(x, m) % (abs_of(m) as int) == x % (abs_of(m) as int),
{
    let mm = abs_of(m) as int;
    lemma_fdm(x, m);
    let q = fdiv(x, m);
    let f = fmod(x, m);
    if m > 0 {
        lemma_mod_multiples_vanish(q, f, mm);
    } else {
        assert(m * q == mm * (-q)) by (nonlinear_arith)
            requires
                m == -mm,
        ;
        lemma_mod_multiples_vanish(-q, f, mm);
    }
}

/// A value already in the canonical residue range is its own floor
/// remainder.
pub proof fn lemma_fmod_small(f: int, m: int)
    requires
        m != 0,
        m > 0 ==> 0 <= f < m,
        m < 0 ==> m < f <= 0,
    ensures
        fmod(f, m) == f,
{
    assert(f == m * 0 + f);
    lemma_fdm_unique(f, m, 0, f);
}

/// Two values congruent modulo the magnitude of the divisor have the same
/// floor remainder.
pub proof fn lemma_fmod_unique_by_class(x: int, y: int, m: int)
    requires
        m != 0,
        x % (abs_of(m) as int) == y % (abs_of(m) as int),
    ensures
        fmod(x, m) == fmod(y, m),
{
    let mm = abs_of(m) as int;
    lemma_fmod_congruence(x, m);
    lemma_fmod_congruence(y, m);
    lemma_fdm(x, m);
    lemma_fdm(y, m);
    let fx = fmod(x, m);
    let fy = fmod(y, m);
    if m > 0 {
        lemma_small_mod(fx as nat, mm as nat);
        lemma_small_mod(fy as nat, mm as nat);
    } else {
        if fx != 0 {
            lemma_mod_multiples_vanish(1, fx, mm);
            lemma_small_mod((fx + mm) as nat, mm as nat);
        } else {
            lemma_small_mod(0, mm as nat);
        }
        if fy != 0 {
            lemma_mod_multiples_vanish(1, fy, mm);
            lemma_small_mod((fy + mm) as nat, mm as nat);
        } else {
            lemma_small_mod(0, mm as nat);
        }
    }
}

/// Congruent factors give congruent products.
pub proof fn lemma_mul_mod_both(x1: int, x2: int, y1: int, y2: int, m: int)
    requires
        m > 0,
        x1 % m == x2 % m,
        y1 % m == y2 % m,
    ensures
        (x1 * y1) % m == (x2 * y2) % m,
{
    lemma_mul_mod_noop_left(x1, y1, m);
    lemma_mul_mod_noop_left(x2, y2, m);
    lemma_mul_mod_noop_right(x1 % m, y1, m);
    lemma_mul_mod_noop_right(x2 % m, y2, m);
}

/// A difference of multiples of `m` stays a multiple of `m`.
proof fn lemma_comb_mod_zero(a: int, b: int, q: int, m: int)
    requires
        m > 0,
        a % m == 0,
        b % m == 0,
    ensures
        (a - q * b) % m == 0,
{
    lemma_mul_mod_noop_right(q, b, m);
    assert(q * (b % m) == 0) by (nonlinear_arith)
        requires
            b % m == 0,
    ;
    lemma_small_mod(0, m as nat);
    lemma_sub_mod_noop(a, q * b, m);
}

/// Values whose difference is a multiple of `m` have equal remainders.
proof fn lemma_cong_to_eq_mod(a: int, b: int, m: int)
    requires
        m > 0,
        (a - b) % m == 0,
    ensures
        a % m == b % m,
{
    lemma_sub_mod_noop(a, b, m);
    vstd::arithmetic::div_mod::lemma_mod_bound(a, m);
    vstd::arithmetic::div_mod::lemma_mod_bound(b, m);
    let d = a % m - b % m;
    if d > 0 {
        lemma_small_mod(d as nat, m as nat);
    } else if d < 0 {
        lemma_mod_multiples_vanish(1, d, m);
        lemma_small_mod((d + m) as nat, m as nat);
    }
}

impl Sbi {
    /// Greatest common divisor of the magnitudes; always non-negative, and
    /// zero only when both operands are zero.
    pub fn gcd(&self, other: &Sbi) -> (r: Sbi)
        requires
            self.wf(),
            other.wf(),
        ensures
            r.wf(),
            r@ >= 0,
            r@ == gcd_n(abs_of(self@), abs_of(other@)),
    {
        let mut a = self.magnitude();
        let mut b = other.magnitude();
        while !b.is_zero()
            invariant
                a.wf(),
                b.wf(),
                gcd_n(a.as_nat(), b.as_nat()) == gcd_n(abs_of(self@), abs_of(other@)),
            decreases b.as_nat(),
        {
            let (q, r) = a.div_rem(&b);
            proof {
                lemma_fundamental_div_mod_converse(
                    a.as_nat() as int,
                    b.as_nat() as int,
                    q.as_nat() as int,
                    r.as_nat() as int,
                );
            }
            a = b;
            b = r;
        }
        Sbi::from_ubi(a)
    }

    /// Modular exponentiation by square-and-multiply, reducing by the floor
    /// remainder after every multiplication; the exponent must be
    /// non-negative and the modulus nonzero. The result is the floor
    /// remainder of the power, so it lies in the canonical range for the
    /// modulus's sign.
    pub fn modpow(&self, exponent: &Sbi, modulus: &Sbi) -> (r: Sbi)
        requires
            self.wf(),
            exponent.wf(),
            modulus.wf(),
            exponent@ >= 0,
            modulus@ != 0,
        ensures
            r.wf(),
            r@ == fmod(pow(self@, exponent@ as nat), modulus@),
    {
        let ghost x0 = self@;
        let ghost e0 = exponent@ as nat;
        let ghost m = modulus@;
        let ghost mm = abs_of(m) as int;
        let mut result = Sbi::one().mod_floor(modulus);
        let mut b = self.mod_floor(modulus);
        let mut e = exponent.clone();
        proof {
            lemma_fdm(1, m);
            lemma_fdm(result@ * pow(b@, e0), m);
            lemma_fmod_small(result@, m);
            lemma_fmod_congruence(1, m);
            lemma_fmod_congruence(x0, m);
            lemma_pow_mod_noop(b@, e0, mm);
            lemma_pow_mod_noop(x0, e0, mm);
            lemma_mul_mod_both(result@, 1, pow(b@, e0), pow(x0, e0), mm);
            assert(1 * pow(x0, e0) == pow(x0, e0));
        }
        while !e.is_zero()
            invariant
                result.wf(),
                b.wf(),
                e.wf(),
                modulus.wf(),
                m == modulus@,
                mm == abs_of(m) as int,
                mm > 0,
                m != 0,
                e@ >= 0,
                fmod(result@, m) == result@,
                (result@ * pow(b@, e@ as nat)) % mm == pow(x0, e0) % mm,
            decreases e@,
        {
            let ghost rv = result@;
            let ghost bv = b@;
            let ghost ev = e@ as nat;
            let ghost k = (e@ / 2) as nat;
            let odd = e.is_odd();
            if odd {
                result = result.mul(&b).mod_floor(modulus);
            }
            b = b.mul(&b).mod_floor(modulus);
            e = e.shr(1);
            proof {
                vstd::arithmetic::div_mod::lemma_fundamental_div_mod(ev as int, 2);
                lemma_pow1(2);
                lemma_div_pos_is_pos(ev as int, 2);
                lemma_div_decreases(ev as int, 2);
                lemma_pow_square(bv, k);
                lemma_fmod_congruence(bv * bv, m);
                lemma_pow_mod_noop(b@, k, mm);
                lemma_pow_mod_noop(bv * bv, k, mm);
                lemma_fdm(rv * bv, m);
                lemma_fdm(bv * bv, m);
                if odd {
                    lemma_pow_succ(bv, (2 * k) as nat);
                    lemma_fmod_small(result@, m);
                    lemma_fmod_congruence(rv * bv, m);
                    lemma_mul_mod_both(result@, rv * bv, pow(b@, k), pow(bv, (2 * k) as nat), mm);
                    assert((rv * bv) * pow(bv, (2 * k) as nat) == rv * (bv * pow(
                        bv,
                        (2 * k) as nat,
                    ))) by (nonlinear_arith);
                } else {
                    lemma_mul_mod_both(result@, rv, pow(b@, k), pow(bv, (2 * k) as nat), mm);
                }
            }
        }
        proof {
            lemma_pow0(b@);
            lemma_fmod_unique_by_class(result@, pow(x0, e0), m);
        }
        result
    }

    /// Modular inverse by the extended Euclidean algorithm: present exactly
    /// when the value and the modulus are coprime, and then the unique
    /// inverse in the canonical residue range for the modulus's sign. The
    /// modulus must be nonzero.
    pub fn modinv(&self, modulus: &Sbi) -> (res: Option<Sbi>)
        requires
            self.wf(),
            modulus.wf(),
            modulus@ != 0,
        ensures
            res is Some <==> gcd_n(abs_of(self@), abs_of(modulus@)) == 1,
            res matches Some(inv) ==> {
                &&& inv.wf()
                &&& fmod(self@ * inv@, modulus@) == fmod(1, modulus@)
                &&& modulus@ > 0 ==> 0 <= inv@ < modulus@
                &&& modulus@ < 0 ==> modulus@ < inv@ <= 0
            },
    {
        let ghost m = modulus@;
        let ghost mm = abs_of(m) as int;
        let ghost av = abs_of(self@) as int;
        let mag_m = modulus.magnitude();
        let mag_v = self.magnitude();
        proof {
            modulus.lemma_mag();
        }
        let (qv, w_ubi) = mag_v.div_rem(&mag_m);
        let ghost qq = qv.as_nat() as int;
        let ghost w = w_ubi.as_nat() as int;
        proof {
            lemma_fundamental_div_mod_converse(av, mm, qq, w);
            assert(gcd_n(abs_of(self@), abs_of(modulus@)) == gcd_n(mm as nat, w as nat));
        }
        let m_pos = Sbi::from_ubi(mag_m);
        let mut r0 = m_pos.clone();
        let mut r1 = Sbi::from_ubi(w_ubi);
        let mut t0 = Sbi::zero();
        let mut t1 = Sbi::one();
        proof {
            lemma_small_mod(0, mm as nat);
            assert(0 * w == 0) by (nonlinear_arith);
            assert(1 * w == w);
            assert((0 * w - r0@) % mm == 0) by {
                lemma_mod_multiples_vanish(-1, 0, mm);
            }
            assert((1 * w - r1@) % mm == 0);
        }
        while !r1.is_zero()
            invariant
                r0.wf(),
                r1.wf(),
                t0.wf(),
                t1.wf(),
                mm > 0,
                r0@ >= 1,
                0 <= r1@ < r0@,
                gcd_n(r0@ as nat, r1@ as nat) == gcd_n(mm as nat, w as nat),
                (t0@ * w - r0@) % mm == 0,
                (t1@ * w - r1@) % mm == 0,
            decreases r1@,
        {
            let ghost or0 = r0@;
            let ghost or1 = r1@;
            let ghost ot0 = t0@;
            let ghost ot1 = t1@;
            let (q, r2) = r0.div_rem(&r1);
            let t2 = t0.sub(&q.mul(&t1));
            proof {
                lemma_tdm(or0, or1);
                lemma_fundamental_div_mod_converse(or0, or1, q@, r2@);
                assert(t2@ * w - r2@ == (ot0 * w - or0) - q@ * (ot1 * w - or1))
                    by (nonlinear_arith)
                    requires
                        t2@ == ot0 - q@ * ot1,
                        r2@ == or0 - or1 * q@,
                ;
                lemma_comb_mod_zero(ot0 * w - or0, ot1 * w - or1, q@, mm);
            }
            r0 = r1;
            r1 = r2;
            t0 = t1;
            t1 = t2;
        }
        let is_coprime = matches!(r0.compare(&Sbi::one()), Ordering::Equal);
        if !is_coprime {
            return None;
        }
        let tt = if self.is_negative() {
            t0.neg()
        } else {
            t0
        };
        let inv0 = tt.mod_floor(&m_pos);
        proof {
            // inv0 is in [0, mm) and congruent to tt modulo mm.
            lemma_fdm(tt@, m_pos@);
            lemma_fmod_congruence(tt@, m_pos@);
            // self@ is congruent to w (self non-negative) or -w (negative).
            self.lemma_mag();
            if self@ >= 0 {
                lemma_mod_multiples_vanish(qq, w, mm);
                lemma_mul_mod_both(self@, w, inv0@, t0@, mm);
                lemma_cong_to_eq_mod(t0@ * w, 1, mm);
                assert(w * t0@ == t0@ * w) by (nonlinear_arith);
            } else {
                assert(self@ == mm * (-qq) + (-w)) by (nonlinear_arith)
                    requires
                        av == qq * mm + w,
                        self@ == -av,
                ;
                lemma_mod_multiples_vanish(-qq, -w, mm);
                lemma_mul_mod_both(self@, -w, inv0@, -t0@, mm);
                assert((-w) * (-t0@) == t0@ * w) by (nonlinear_arith);
                lemma_cong_to_eq_mod(t0@ * w, 1, mm);
            }
            // so self@ * inv0@ is congruent to 1 modulo mm.
        }
        let inv = if modulus.is_negative() && !inv0.is_zero() {
            inv0.add(modulus)
        } else {
            inv0
        };
        proof {
            if m < 0 && inv@ != inv0@ {
                lemma_mod_multiples_vanish(-1, inv0@, mm);
                assert(self@ * inv@ == self@ * inv0@ + self@ * m) by (nonlinear_arith)
                    requires
                        inv@ == inv0@ + m,
                ;
                assert(self@ * m == mm * (-self@)) by (nonlinear_arith)
                    requires
                        m == -mm,
                ;
                lemma_mod_multiples_vanish(-self@, self@ * inv0@, mm);
            }
            lemma_fmod_unique_by_class(self@ * inv@, 1, m);
        }
        Some(inv)
    }

    /// Modular exponentiation, rejecting a zero modulus as an error; the
    /// exponent must still be non-negative.
    pub fn checked_modpow(&self, exponent: &Sbi, modulus: &Sbi) -> (res: Result<
        Sbi,
        crate::div::DivisionByZero,
    >)
        requires
            self.wf(),
            exponent.wf(),
            modulus.wf(),
            exponent@ >= 0,
        ensures
            res is Ok <==> modulus@ != 0,
            res matches Ok(r) ==> r.wf() && r@ == fmod(pow(self@, exponent@ as nat), modulus@),
    {
        if modulus.is_zero() {
            Err(crate::div::DivisionByZero)
        } else {
            Ok(self.modpow(exponent, modulus))
        }
    }

    /// Modular inverse, rejecting a zero modulus as an error; an absent
    /// inverse stays a normal absent result.
    pub fn checked_modinv(&self, modulus: &Sbi) -> (res: Result<
        Option<Sbi>,
        crate::div::DivisionByZero,
    >)
        requires
            self.wf(),
            modulus.wf(),
        ensures
            res is Ok <==> modulus@ != 0,
            res matches Ok(o) ==> {
                &&& (o is Some <==> gcd_n(abs_of(self@), abs_of(modulus@)) == 1)
                &&& (o matches Some(inv) ==> {
                    &&& inv.wf()
                    &&& fmod(self@ * inv@, modulus@) == fmod(1, modulus@)
                    &&& (modulus@ > 0 ==> 0 <= inv@ < modulus@)
                    &&& (modulus@ < 0 ==> modulus@ < inv@ <= 0)
                })
            },
    {
        if modulus.is_zero() {
            Err(crate::div::DivisionByZero)
        } else {
            Ok(self.modinv(modulus))
        }
    }
}

} // verus!
