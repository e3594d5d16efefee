//! Multiplication: scaling by a single digit, shifting by whole digits, and
//! the schoolbook product built from the two.

use vstd::prelude::*;
use vstd::arithmetic::power::pow;
use vstd::arithmetic::power::lemma_pow0;
use vstd::arithmetic::power::lemma_pow_adds;
use vstd::arithmetic::div_mod::lemma_fundamental_div_mod;
use crate::digits::{
    base, nat_of, is_norm, take_val, lemma_nat_of_snoc, lemma_take_val_succ, lemma_take_val_all,
    lemma_base_pow_succ, digit_at,
};
use crate::ubi::{Ubi, trim};

verus! {

/// Product of a digit vector and a single digit.
pub(crate) fn mul_digit(v: &Vec<u32>, m: u32) -> (r: Vec<u32>)
    ensures
        is_norm(r@),
        nat_of(r@) as int == nat_of(v@) as int * m,
{
    let mut out: Vec<u32> = Vec::new();
    let mut carry: u64 = 0;
    let mut i: usize = 0;
    proof {
        assert(v@.take(0) =~= Seq::<u32>::empty());
        assert(nat_of(out@) == 0);
        assert(take_val(v@, 0) == 0);
        assert(take_val(v@, 0) as int * m == 0) by (nonlinear_arith)
            requires take_val(v@, 0) == 0,
        ;
    }
    while i < v.len()
        invariant
            i <= v@.len(),
            carry < 0x1_0000_0000,
            out@.len() == i,
            nat_of(out@) as int + (carry as int) * pow(base(), i as nat) == take_val(
                v@,
                i as int,
            ) as int * m,
        decreases v@.len() - i,
    {
        let da: u64 = v[i] as u64;
        let mm: u64 = m as u64;
        proof {
            assert(da * mm <= 0xffff_ffff * 0xffff_ffff) by (nonlinear_arith)
                requires
                    da <= 0xffff_ffff,
                    mm <= 0xffff_ffff,
            ;
        }
        let t: u64 = da * mm + carry;
        let d: u32 = (t % 0x1_0000_0000) as u32;
        let ghost c0 = carry as int;
        let ghost prev = out@;
        let ghost ta = take_val(v@, i as int) as int;
        out.push(d);
        proof {
            let p = pow(base(), i as nat);
            let ti = t as int;
            lemma_fundamental_div_mod(ti, base());
            lemma_nat_of_snoc(prev, d);
            lemma_take_val_succ(v@, i as int);
            lemma_base_pow_succ(i as nat);
            vstd::arithmetic::div_mod::lemma_mod_bound(ti, base());
            assert(ti / base() < base());
            assert(da as int == digit_at(v@, i as int));
            assert(nat_of(prev) as int + (ti % base()) * p + (ti / base()) * (base() * p) == (ta
                + da * p) * m) by (nonlinear_arith)
                requires
                    nat_of(prev) as int + c0 * p == ta * m,
                    ti == da * (m as int) + c0,
                    ti == base() * (ti / base()) + (ti % base()),
            ;
        }
        carry = t / 0x1_0000_0000;
        i += 1;
    }
    if carry > 0 {
        let ghost prev = out@;
        out.push(carry as u32);
        proof {
            lemma_nat_of_snoc(prev, (carry as u32));
        }
    }
    proof {
        lemma_take_val_all(v@, v@.len() as int);
    }
    trim(out)
}

/// Shifts a digit vector up by `k` whole digits: multiplies by the base to
/// the `k`.
pub(crate) fn shift_up(v: &Vec<u32>, k: usize) -> (r: Vec<u32>)
    ensures
        is_norm(r@),
        nat_of(r@) as int == nat_of(v@) as int * pow(base(), k as nat),
{
    let mut out: Vec<u32> = Vec::new();
    let mut i: usize = 0;
    while i < k
        invariant
            i <= k,
            out@.len() == i,
            nat_of(out@) == 0,
        decreases k - i,
    {
        let ghost prev = out@;
        out.push(0);
        proof {
            lemma_nat_of_snoc(prev, 0);
        }
        i += 1;
    }
    let mut j: usize = 0;
    proof {
        assert(v@.take(0) =~= Seq::<u32>::empty());
        lemma_pow0(base());
    }
    while j < v.len()
        invariant
            j <= v@.len(),
            out@.len() == k + j,
            nat_of(out@) as int == nat_of(v@.take(j as int)) as int * pow(base(), k as nat),
        decreases v@.len() - j,
    {
        let ghost prev = out@;
        let ghost ta = nat_of(v@.take(j as int)) as int;
        out.push(v[j]);
        proof {
            lemma_nat_of_snoc(prev, v@[j as int]);
            lemma_pow_adds(base(), k as nat, j as nat);
            crate::digits::lemma_take_succ(v@, j as int);
            let pk = pow(base(), k as nat);
            let pj = pow(base(), j as nat);
            let da = v@[j as int] as int;
            assert(ta * pk + da * (pk * pj) == (ta + da * pj) * pk) by (nonlinear_arith);
        }
        j += 1;
    }
    proof {
        assert(v@.take(v@.len() as int) =~= v@);
    }
    trim(out)
}

impl Ubi {
    /// Product of two values.
    pub fn mul(&self, other: &Ubi) -> (r: Ubi)
        requires
            self.wf(),
            other.wf(),
        ensures
            r.wf(),
            r.as_nat() == self.as_nat() * other.as_nat(),
    {
        let mut acc = Ubi::zero();
        let mut i: usize = 0;
        let ghost nb = other.as_nat() as int;
        proof {
            self.lemma_view();
            other.lemma_view();
            assert(self@.take(0) =~= Seq::<u32>::empty());
            assert(nat_of(self@.take(0)) == 0);
            assert(nat_of(self@.take(0)) as int * nb == 0) by (nonlinear_arith)
                requires nat_of(self@.take(0)) == 0,
            ;
        }
        while i < self.d.len()
            invariant
                i <= self@.len(),
                self.wf(),
                other.wf(),
                acc.wf(),
                self@ == self.d@,
                other@ == other.d@,
                nb == other.as_nat() as int,
                acc.as_nat() as int == nat_of(self@.take(i as int)) as int * nb,
            decreases self@.len() - i,
        {
            let ghost ta = nat_of(self@.take(i as int)) as int;
            let part = mul_digit(&other.d, self.d[i]);
            let part = shift_up(&part, i);
            let part = Ubi::from_digits(part);
            acc = acc.add(&part);
            proof {
                let p = pow(base(), i as nat);
                let da = self@[i as int] as int;
                crate::digits::lemma_take_succ(self@, i as int);
                assert(ta * nb + (nb * da) * p == (ta + da * p) * nb) by (nonlinear_arith);
            }
            i += 1;
        }
        proof {
            assert(self@.take(self@.len() as int) =~= self@);
        }
        acc
    }
}

} // verus!
