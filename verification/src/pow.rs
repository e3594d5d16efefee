//! Exponentiation by repeated squaring, and bit shifts. A left shift by `k`
//! multiplies by two to the `k` exactly; a right shift divides by two to the
//! `k`, rounding toward negative infinity on the signed type.

use vstd::prelude::*;
use vstd::arithmetic::power::pow;
use vstd::arithmetic::power::lemma_pow0;
use vstd::arithmetic::power::lemma_pow_positive;
use vstd::arithmetic::power::lemma_pow_multiplies;
use vstd::arithmetic::div_mod::lemma_fundamental_div_mod_converse;
use crate::arith::fdiv;
use crate::ubi::Ubi;
use crate::sbi::Sbi;

verus! {

/// One unfolding of `pow` (`pow` is opaque in vstd).
pub proof fn lemma_pow_succ(b: int, e: nat)
    ensures
        pow(b, e + 1) == b * pow(b, e),
{
    reveal(pow);
}

/// Squaring the base halves the exponent.
pub proof fn lemma_pow_square(b: int, k: nat)
    ensures
        pow(b * b, k) == pow(b, 2 * k),
{
    lemma_pow_multiplies(b, 2, k);
    assert(pow(b, 2) == b * (b * 1)) by {
        reveal_with_fuel(pow, 3);
    }
    assert(b * (b * 1) == b * b) by (nonlinear_arith);
}

/// Two to the power `k` as an unsigned value.
pub fn pow_of_two(k: usize) -> (r: Ubi)
    ensures
        r.wf(),
        r.as_nat() as int == pow(2, k as nat),
{
    let mut r = Ubi::one();
    let mut i: usize = 0;
    proof {
        lemma_pow0(2);
    }
    while i < k
        invariant
            i <= k,
            r.wf(),
            r.as_nat() as int == pow(2, i as nat),
        decreases k - i,
    {
        r = r.add(&r);
        proof {
            lemma_pow_succ(2, i as nat);
        }
        i += 1;
    }
    r
}

impl Ubi {
    /// The value raised to the power `e`; any value to the power zero is
    /// one, including zero.
    pub fn pow(&self, e: u32) -> (r: Ubi)
        requires
            self.wf(),
        ensures
            r.wf(),
            r.as_nat() as int == pow(self.as_nat() as int, e as nat),
    {
        let ghost x0 = self.as_nat() as int;
        let ghost e0 = e as nat;
        let mut result = Ubi::one();
        let mut b = self.clone();
        let mut e = e;
        proof {
            lemma_pow0(x0);
        }
        while e > 0
            invariant
                result.wf(),
                b.wf(),
                pow(x0, e0) == result.as_nat() as int * pow(b.as_nat() as int, e as nat),
            decreases e,
        {
            let ghost rv = result.as_nat() as int;
            let ghost bv = b.as_nat() as int;
            let ghost k = (e / 2) as nat;
            proof {
                lemma_pow_square(bv, k);
                if e % 2 == 1 {
                    lemma_pow_succ(bv, 2 * k);
                    assert((rv * bv) * pow(bv * bv, k) == rv * (bv * pow(bv * bv, k)))
                        by (nonlinear_arith);
                }
            }
            if e % 2 == 1 {
                result = result.mul(&b);
            }
            b = b.mul(&b);
            e = e / 2;
        }
        proof {
            lemma_pow0(b.as_nat() as int);
        }
        result
    }

    /// Left shift: multiplies by two to the `bits`.
    pub fn shl(&self, bits: usize) -> (r: Ubi)
        requires
            self.wf(),
        ensures
            r.wf(),
            r.as_nat() as int == self.as_nat() as int * pow(2, bits as nat),
    {
        let p = pow_of_two(bits);
        self.mul(&p)
    }

    /// Right shift: divides by two to the `bits`, discarding the low bits.
    pub fn shr(&self, bits: usize) -> (r: Ubi)
        requires
            self.wf(),
        ensures
            r.wf(),
            r.as_nat() as int == self.as_nat() as int / pow(2, bits as nat),
    {
        let p = pow_of_two(bits);
        proof {
            lemma_pow_positive(2, bits as nat);
        }
        let (q, rem) = self.div_rem(&p);
        proof {
            lemma_fundamental_div_mod_converse(
                self.as_nat() as int,
                p.as_nat() as int,
                q.as_nat() as int,
                rem.as_nat() as int,
            );
        }
        q
    }
}

impl Sbi {
    /// Left shift: multiplies by two to the `bits`.
    pub fn shl(&self, bits: usize) -> (r: Sbi)
        requires
            self.wf(),
        ensures
            r.wf(),
            r@ == self@ * pow(2, bits as nat),
    {
        let neg = self.is_negative();
        let mag = self.magnitude();
        let shifted = mag.shl(bits);
        let r = Sbi::with_sign(shifted, neg);
        proof {
            let p = pow(2, bits as nat);
            let ma = crate::arith::abs_of(self@) as int;
            lemma_pow_positive(2, bits as nat);
            if self@ < 0 {
                assert(-(ma * p) == (-ma) * p) by (nonlinear_arith);
            }
        }
        r
    }

    /// Arithmetic right shift: divides by two to the `bits`, rounding toward
    /// negative infinity, as a shift of the infinite-precision two's
    /// complement would.
    pub fn shr(&self, bits: usize) -> (r: Sbi)
        requires
            self.wf(),
        ensures
            r.wf(),
            r@ == fdiv(self@, pow(2, bits as nat)),
    {
        let p = pow_of_two(bits);
        proof {
            lemma_pow_positive(2, bits as nat);
        }
        let d = Sbi::from_ubi(p);
        let (q, _) = self.div_rem_floor(&d);
        q
    }
}

} // verus!
