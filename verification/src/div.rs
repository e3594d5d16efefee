//! Division with remainder: short division by a single digit, and long
//! division by an arbitrary divisor through repeated doubling and
//! subtraction.

use vstd::prelude::*;
use crate::arith::{tdiv, tmod, fdiv, fmod};
use crate::sbi::Sbi;
use vstd::arithmetic::div_mod::lemma_fundamental_div_mod;
use crate::digits::{base, nat_of, is_norm, lemma_skip_unfold};
use crate::ubi::{Ubi, trim};

verus! {

/// A zero divisor or modulus, reported to the caller as a recoverable
/// error rather than a contract violation.
#[derive(Clone, Copy, PartialEq, Eq, Structural, Debug)]
pub struct DivisionByZero;

/// Quotient and remainder of a digit vector by a single nonzero digit.
pub(crate) fn div_rem_digit(v: &Vec<u32>, dsor: u32) -> (res: (Vec<u32>, u32))
    requires
        dsor > 0,
    ensures
        is_norm(res.0@),
        res.1 < dsor,
        nat_of(v@) as int == nat_of(res.0@) as int * dsor + res.1,
{
    let n = v.len();
    let mut q: Vec<u32> = Vec::new();
    let mut i: usize = 0;
    while i < n
        invariant
            i <= n,
            q@.len() == i,
        decreases n - i,
    {
        q.push(0);
        i += 1;
    }
    let mut rem: u64 = 0;
    let mut i = n;
    proof {
        assert(v@.skip(n as int) =~= Seq::<u32>::empty());
        assert(q@.skip(n as int) =~= Seq::<u32>::empty());
        assert(nat_of(q@.skip(n as int)) as int * dsor == 0) by (nonlinear_arith)
            requires nat_of(q@.skip(n as int)) == 0,
        ;
    }
    while i > 0
        invariant
            i <= n,
            n == v@.len(),
            q@.len() == n,
            rem < dsor,
            nat_of(v@.skip(i as int)) as int == nat_of(q@.skip(i as int)) as int * dsor + rem,
        decreases i,
    {
        i -= 1;
        let t: u64 = rem * 0x1_0000_0000 + v[i] as u64;
        let qd64: u64 = t / dsor as u64;
        let rnew: u64 = t % dsor as u64;
        let ghost qprev = q@;
        let ghost r0 = rem as int;
        proof {
            let ti = t as int;
            let dd = dsor as int;
            lemma_fundamental_div_mod(ti, dd);
            vstd::arithmetic::div_mod::lemma_mod_bound(ti, dd);
            assert(ti < dd * base()) by (nonlinear_arith)
                requires
                    ti == r0 * base() + v@[i as int],
                    r0 <= dd - 1,
                    v@[i as int] < base(),
                    dd > 0,
            ;
            assert(dd * (ti / dd) <= ti);
            assert(ti / dd < base()) by (nonlinear_arith)
                requires
                    dd * (ti / dd) <= ti,
                    ti < dd * base(),
                    dd > 0,
            ;
        }
        let qd: u32 = qd64 as u32;
        q.set(i, qd);
        rem = rnew;
        proof {
            let dd = dsor as int;
            let ti = t as int;
            lemma_skip_unfold(v@, i as int);
            assert(q@.skip(i as int) =~= seq![qd].add(qprev.skip(i + 1)));
            lemma_skip_unfold(q@, i as int);
            assert(q@.skip(i + 1) =~= qprev.skip(i + 1));
            let nq = nat_of(qprev.skip(i + 1)) as int;
            assert(nat_of(v@.skip(i as int)) as int == v@[i as int] + base() * (nq * dd + r0));
            assert(v@[i as int] + base() * (nq * dd + r0) == (ti / dd + base() * nq) * dd + (ti
                % dd)) by (nonlinear_arith)
                requires
                    ti == r0 * base() + v@[i as int],
                    ti == dd * (ti / dd) + (ti % dd),
            ;
        }
    }
    proof {
        assert(v@.skip(0) =~= v@);
        assert(q@.skip(0) =~= q@);
    }
    (trim(q), rem as u32)
}

impl Ubi {
    /// Quotient and remainder: the dividend equals quotient times divisor
    /// plus remainder, and the remainder is smaller than the divisor. The
    /// divisor must be nonzero.
    pub fn div_rem(&self, other: &Ubi) -> (res: (Ubi, Ubi))
        requires
            self.wf(),
            other.wf(),
            other.as_nat() > 0,
        ensures
            res.0.wf(),
            res.1.wf(),
            self.as_nat() == res.0.as_nat() * other.as_nat() + res.1.as_nat(),
            res.1.as_nat() < other.as_nat(),
    {
        let ghost na = self.as_nat() as int;
        let ghost nb = other.as_nat() as int;
        let mut q = Ubi::zero();
        let mut r = self.clone();
        while !matches!(r.compare(other), core::cmp::Ordering::Less)
            invariant
                self.wf(),
                other.wf(),
                q.wf(),
                r.wf(),
                na == self.as_nat() as int,
                nb == other.as_nat() as int,
                nb > 0,
                q.as_nat() as int * nb + r.as_nat() as int == na,
            decreases r.as_nat(),
        {
            let ghost r_start = r.as_nat() as int;
            let mut m = other.clone();
            let mut p = Ubi::one();
            let mut m2 = m.add(&m);
            while !matches!(m2.compare(&r), core::cmp::Ordering::Greater)
                invariant
                    other.wf(),
                    m.wf(),
                    p.wf(),
                    m2.wf(),
                    r.wf(),
                    nb == other.as_nat() as int,
                    nb > 0,
                    m.as_nat() as int == p.as_nat() as int * nb,
                    p.as_nat() >= 1,
                    m.as_nat() >= 1,
                    m.as_nat() <= r.as_nat(),
                    m2.as_nat() == 2 * m.as_nat(),
                decreases r.as_nat() - m.as_nat(),
            {
                let ghost pm = p.as_nat() as int;
                m = m2;
                p = p.add(&p);
                m2 = m.add(&m);
                proof {
                    assert((pm + pm) * nb == pm * nb + pm * nb) by (nonlinear_arith);
                }
            }
            let ghost qm = q.as_nat() as int;
            let ghost pm = p.as_nat() as int;
            r = r.sub(&m);
            q = q.add(&p);
            proof {
                assert((qm + pm) * nb == qm * nb + pm * nb) by (nonlinear_arith);
                assert(pm * nb >= nb) by (nonlinear_arith)
                    requires
                        pm >= 1,
                        nb > 0,
                ;
            }
        }
        (q, r)
    }

    /// Quotient and remainder, rejecting a zero divisor as an error.
    pub fn checked_div_rem(&self, other: &Ubi) -> (res: Result<(Ubi, Ubi), DivisionByZero>)
        requires
            self.wf(),
            other.wf(),
        ensures
            res is Ok <==> other.as_nat() != 0,
            res matches Ok(p) ==> {
                &&& p.0.wf()
                &&& p.1.wf()
                &&& self.as_nat() == p.0.as_nat() * other.as_nat() + p.1.as_nat()
                &&& p.1.as_nat() < other.as_nat()
            },
    {
        if other.is_zero() {
            Err(DivisionByZero)
        } else {
            Ok(self.div_rem(other))
        }
    }
}

impl Sbi {
    /// Truncating division with remainder, rejecting a zero divisor as an
    /// error.
    pub fn checked_div_rem(&self, other: &Sbi) -> (res: Result<(Sbi, Sbi), DivisionByZero>)
        requires
            self.wf(),
            other.wf(),
        ensures
            res is Ok <==> other@ != 0,
            res matches Ok(p) ==> {
                &&& p.0.wf()
                &&& p.1.wf()
                &&& p.0@ == tdiv(self@, other@)
                &&& p.1@ == tmod(self@, other@)
            },
    {
        if other.is_zero() {
            Err(DivisionByZero)
        } else {
            Ok(self.div_rem(other))
        }
    }

    /// Floor division with remainder, rejecting a zero divisor as an error.
    pub fn checked_div_rem_floor(&self, other: &Sbi) -> (res: Result<(Sbi, Sbi), DivisionByZero>)
        requires
            self.wf(),
            other.wf(),
        ensures
            res is Ok <==> other@ != 0,
            res matches Ok(p) ==> {
                &&& p.0.wf()
                &&& p.1.wf()
                &&& p.0@ == fdiv(self@, other@)
                &&& p.1@ == fmod(self@, other@)
            },
    {
        if other.is_zero() {
            Err(DivisionByZero)
        } else {
            Ok(self.div_rem_floor(other))
        }
    }
}

} // verus!
