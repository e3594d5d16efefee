//! The signed big integer: a sign tag paired with an unsigned magnitude.
//! The sign is `Zero` exactly when the magnitude is zero, so every number has
//! one representation.

use vstd::prelude::*;
use crate::arith::{tdiv, tmod, fdiv, fmod, abs_of, sign_of, lemma_tdm, lemma_tdm_unique,
    lemma_fdm_unique};
use crate::digits::nat_of;
use crate::ubi::{Ubi, cmp_digits, digits_are_zero};
use core::cmp::Ordering;

verus! {

/// Sign of a signed big integer.
#[derive(Clone, Copy, PartialEq, Eq, Structural, Debug)]
pub enum Sign {
    Negative,
    Zero,
    Positive,
}

/// Signed arbitrary-precision integer in sign-magnitude form.
#[derive(Debug)]
pub struct Sbi {
    pub(crate) sign: Sign,
    pub(crate) mag: Ubi,
}

impl View for Sbi {
    type V = int;

    closed spec fn view(&self) -> int {
        match self.sign {
            Sign::Negative => -(self.mag.as_nat() as int),
            Sign::Zero => 0,
            Sign::Positive => self.mag.as_nat() as int,
        }
    }
}

impl Sbi {
    /// Representation invariant: the magnitude is canonical and the sign is
    /// `Zero` exactly for the zero magnitude.
    pub closed spec fn wf(&self) -> bool {
        &&& self.mag.wf()
        &&& (self.sign == Sign::Zero <==> self.mag.as_nat() == 0)
    }

    /// The magnitude of the view is the magnitude field's value.
    pub(crate) proof fn lemma_mag(&self)
        requires
            self.wf(),
        ensures
            abs_of(self@) == self.mag.as_nat(),
            self@ == 0 <==> self.sign == Sign::Zero,
            self@ > 0 <==> self.sign == Sign::Positive,
            self@ < 0 <==> self.sign == Sign::Negative,
    {
    }

    /// The zero value.
    pub fn zero() -> (r: Sbi)
        ensures
            r.wf(),
            r@ == 0,
    {
        Sbi { sign: Sign::Zero, mag: Ubi::zero() }
    }

    /// The value one.
    pub fn one() -> (r: Sbi)
        ensures
            r.wf(),
            r@ == 1,
    {
        Sbi { sign: Sign::Positive, mag: Ubi::one() }
    }

    /// Wraps an unsigned value as a non-negative signed value.
    pub fn from_ubi(u: Ubi) -> (r: Sbi)
        requires
            u.wf(),
        ensures
            r.wf(),
            r@ == u.as_nat(),
    {
        let z = u.is_zero();
        Sbi { sign: if z { Sign::Zero } else { Sign::Positive }, mag: u }
    }

    /// Builds a signed value from a magnitude and a requested sign; a zero
    /// magnitude always yields the zero value.
    pub(crate) fn with_sign(mag: Ubi, negative: bool) -> (r: Sbi)
        requires
            mag.wf(),
        ensures
            r.wf(),
            r@ == if negative {
                -(mag.as_nat() as int)
            } else {
                mag.as_nat() as int
            },
    {
        let z = mag.is_zero();
        if z {
            Sbi { sign: Sign::Zero, mag }
        } else if negative {
            Sbi { sign: Sign::Negative, mag }
        } else {
            Sbi { sign: Sign::Positive, mag }
        }
    }

    /// A copy of the magnitude as an unsigned value.
    pub fn magnitude(&self) -> (r: Ubi)
        requires
            self.wf(),
        ensures
            r.wf(),
            r.as_nat() == abs_of(self@),
    {
        proof {
            self.lemma_mag();
        }
        self.mag.clone()
    }

    /// Whether this is the zero value.
    pub fn is_zero(&self) -> (r: bool)
        requires
            self.wf(),
        ensures
            r == (self@ == 0),
    {
        proof {
            self.lemma_mag();
        }
        matches!(self.sign, Sign::Zero)
    }

    /// Whether this value is negative.
    pub fn is_negative(&self) -> (r: bool)
        requires
            self.wf(),
        ensures
            r == (self@ < 0),
    {
        proof {
            self.lemma_mag();
        }
        matches!(self.sign, Sign::Negative)
    }

    /// Whether this value is positive.
    pub fn is_positive(&self) -> (r: bool)
        requires
            self.wf(),
        ensures
            r == (self@ > 0),
    {
        proof {
            self.lemma_mag();
        }
        matches!(self.sign, Sign::Positive)
    }

    /// Whether the magnitude is odd.
    pub fn is_odd(&self) -> (r: bool)
        requires
            self.wf(),
        ensures
            r == (abs_of(self@) % 2 == 1),
    {
        proof {
            self.lemma_mag();
            self.mag.lemma_view();
            if self.mag.d@.len() > 0 {
                let d0 = self.mag.d@[0] as int;
                let rest = nat_of(self.mag.d@.skip(1)) as int;
                assert(nat_of(self.mag.d@) as int == d0 + crate::digits::base() * rest);
                assert(crate::digits::base() * rest == 2 * (0x8000_0000 * rest));
                vstd::arithmetic::div_mod::lemma_mod_multiples_vanish(
                    0x8000_0000 * rest,
                    d0,
                    2,
                );
            }
        }
        if self.mag.d.len() == 0 {
            false
        } else {
            self.mag.d[0] % 2 == 1
        }
    }

    /// The negated value.
    pub fn neg(&self) -> (r: Sbi)
        requires
            self.wf(),
        ensures
            r.wf(),
            r@ == -self@,
    {
        let sign = match self.sign {
            Sign::Negative => Sign::Positive,
            Sign::Zero => Sign::Zero,
            Sign::Positive => Sign::Negative,
        };
        Sbi { sign, mag: self.mag.clone() }
    }

    /// Sum of two values.
    pub fn add(&self, other: &Sbi) -> (r: Sbi)
        requires
            self.wf(),
            other.wf(),
        ensures
            r.wf(),
            r@ == self@ + other@,
    {
        match (self.sign, other.sign) {
            (Sign::Zero, _) => other.clone(),
            (_, Sign::Zero) => self.clone(),
            (Sign::Positive, Sign::Positive) => Sbi {
                sign: Sign::Positive,
                mag: self.mag.add(&other.mag),
            },
            (Sign::Negative, Sign::Negative) => Sbi {
                sign: Sign::Negative,
                mag: self.mag.add(&other.mag),
            },
            (Sign::Positive, Sign::Negative) => {
                match self.mag.compare(&other.mag) {
                    Ordering::Equal => Sbi::zero(),
                    Ordering::Greater => Sbi {
                        sign: Sign::Positive,
                        mag: self.mag.sub(&other.mag),
                    },
                    Ordering::Less => Sbi { sign: Sign::Negative, mag: other.mag.sub(&self.mag) },
                }
            },
            (Sign::Negative, Sign::Positive) => {
                match self.mag.compare(&other.mag) {
                    Ordering::Equal => Sbi::zero(),
                    Ordering::Greater => Sbi {
                        sign: Sign::Negative,
                        mag: self.mag.sub(&other.mag),
                    },
                    Ordering::Less => Sbi { sign: Sign::Positive, mag: other.mag.sub(&self.mag) },
                }
            },
        }
    }

    /// Difference of two values.
    pub fn sub(&self, other: &Sbi) -> (r: Sbi)
        requires
            self.wf(),
            other.wf(),
        ensures
            r.wf(),
            r@ == self@ - other@,
    {
        self.add(&other.neg())
    }

    /// Product of two values.
    pub fn mul(&self, other: &Sbi) -> (r: Sbi)
        requires
            self.wf(),
            other.wf(),
        ensures
            r.wf(),
            r@ == self@ * other@,
    {
        let ghost na = self.mag.as_nat() as int;
        let ghost nb = other.mag.as_nat() as int;
        match (self.sign, other.sign) {
            (Sign::Zero, _) => {
                proof {
                    assert(self@ * other@ == 0) by (nonlinear_arith)
                        requires
                            self@ == 0,
                    ;
                }
                Sbi::zero()
            },
            (_, Sign::Zero) => {
                proof {
                    assert(self@ * other@ == 0) by (nonlinear_arith)
                        requires
                            other@ == 0,
                    ;
                }
                Sbi::zero()
            },
            (Sign::Positive, Sign::Positive) => {
                let mag = self.mag.mul(&other.mag);
                proof {
                    assert(na * nb >= 1) by (nonlinear_arith)
                        requires
                            na >= 1,
                            nb >= 1,
                    ;
                }
                Sbi { sign: Sign::Positive, mag }
            },
            (Sign::Negative, Sign::Negative) => {
                let mag = self.mag.mul(&other.mag);
                proof {
                    assert(na * nb >= 1 && (-na) * (-nb) == na * nb) by (nonlinear_arith)
                        requires
                            na >= 1,
                            nb >= 1,
                    ;
                }
                Sbi { sign: Sign::Positive, mag }
            },
            (Sign::Positive, Sign::Negative) => {
                let mag = self.mag.mul(&other.mag);
                proof {
                    assert(na * nb >= 1 && na * (-nb) == -(na * nb)) by (nonlinear_arith)
                        requires
                            na >= 1,
                            nb >= 1,
                    ;
                }
                Sbi { sign: Sign::Negative, mag }
            },
            (Sign::Negative, Sign::Positive) => {
                let mag = self.mag.mul(&other.mag);
                proof {
                    assert(na * nb >= 1 && (-na) * nb == -(na * nb)) by (nonlinear_arith)
                        requires
                            na >= 1,
                            nb >= 1,
                    ;
                }
                Sbi { sign: Sign::Negative, mag }
            },
        }
    }

    /// Truncating division with remainder: the quotient rounds toward zero
    /// and the remainder carries the dividend's sign. The divisor must be
    /// nonzero.
    pub fn div_rem(&self, other: &Sbi) -> (res: (Sbi, Sbi))
        requires
            self.wf(),
            other.wf(),
            other@ != 0,
        ensures
            res.0.wf(),
            res.1.wf(),
            res.0@ == tdiv(self@, other@),
            res.1@ == tmod(self@, other@),
    {
        proof {
            self.lemma_mag();
            other.lemma_mag();
        }
        let (mq, mr) = self.mag.div_rem(&other.mag);
        let neg_q = matches!(self.sign, Sign::Negative) != matches!(other.sign, Sign::Negative);
        let neg_r = matches!(self.sign, Sign::Negative);
        let q = Sbi::with_sign(mq, neg_q);
        let r = Sbi::with_sign(mr, neg_r);
        proof {
            let a = self@;
            let b = other@;
            let ma = abs_of(a) as int;
            let mb = abs_of(b) as int;
            let qq = q@;
            let rr = r@;
            assert(ma == abs_of(qq) * mb + abs_of(rr));
            assert(a == b * qq + rr) by (nonlinear_arith)
                requires
                    ma == abs_of(qq) * mb + abs_of(rr),
                    ma == abs_of(a) as int,
                    mb == abs_of(b) as int,
                    a == if self@ < 0 {
                        -ma
                    } else {
                        ma
                    },
                    b == if other@ < 0 {
                        -mb
                    } else {
                        mb
                    },
                    a == self@,
                    b == other@,
                    qq == if (self@ < 0) != (other@ < 0) {
                        -(abs_of(qq) as int)
                    } else {
                        abs_of(qq) as int
                    },
                    rr == if self@ < 0 {
                        -(abs_of(rr) as int)
                    } else {
                        abs_of(rr) as int
                    },
            ;
            lemma_tdm_unique(a, b, qq, rr);
        }
        (q, r)
    }

    /// Floor division with remainder: the quotient rounds toward negative
    /// infinity and a nonzero remainder carries the divisor's sign. The
    /// divisor must be nonzero.
    pub fn div_rem_floor(&self, other: &Sbi) -> (res: (Sbi, Sbi))
        requires
            self.wf(),
            other.wf(),
            other@ != 0,
        ensures
            res.0.wf(),
            res.1.wf(),
            res.0@ == fdiv(self@, other@),
            res.1@ == fmod(self@, other@),
    {
        let (q, r) = self.div_rem(other);
        proof {
            lemma_tdm(self@, other@);
        }
        if !r.is_zero() && (r.is_negative() != other.is_negative()) {
            let qf = q.sub(&Sbi::one());
            let rf = r.add(other);
            proof {
                assert(other@ * (q@ - 1) == other@ * q@ - other@) by (nonlinear_arith);
                lemma_fdm_unique(self@, other@, qf@, rf@);
            }
            (qf, rf)
        } else {
            proof {
                lemma_fdm_unique(self@, other@, q@, r@);
            }
            (q, r)
        }
    }

    /// Remainder of floor division alone.
    pub fn mod_floor(&self, other: &Sbi) -> (r: Sbi)
        requires
            self.wf(),
            other.wf(),
            other@ != 0,
        ensures
            r.wf(),
            r@ == fmod(self@, other@),
    {
        let (_, r) = self.div_rem_floor(other);
        r
    }

    /// Orders two values numerically.
    pub fn compare(&self, other: &Sbi) -> (r: Ordering)
        ensures
            r == Ordering::Less <==> self@ < other@,
            r == Ordering::Equal <==> self@ == other@,
            r == Ordering::Greater <==> self@ > other@,
    {
        sbi_order(self, other)
    }
}

/// Orders two signed values by the numbers they stand for, whether or not
/// the sign tags are canonical.
fn sbi_order(a: &Sbi, b: &Sbi) -> (r: Ordering)
    ensures
        r == Ordering::Less <==> a@ < b@,
        r == Ordering::Equal <==> a@ == b@,
        r == Ordering::Greater <==> a@ > b@,
{
    let za = digits_are_zero(&a.mag.d);
    let zb = digits_are_zero(&b.mag.d);
    proof {
        a.mag.lemma_view();
        b.mag.lemma_view();
    }
    let ea: i32 = if za {
        0
    } else {
        match a.sign {
            Sign::Zero => 0,
            Sign::Positive => 1,
            Sign::Negative => -1,
        }
    };
    let eb: i32 = if zb {
        0
    } else {
        match b.sign {
            Sign::Zero => 0,
            Sign::Positive => 1,
            Sign::Negative => -1,
        }
    };
    proof {
        assert(ea as int == sign_of(a@));
        assert(eb as int == sign_of(b@));
    }
    if ea < eb {
        Ordering::Less
    } else if eb < ea {
        Ordering::Greater
    } else if ea == 0 {
        Ordering::Equal
    } else if ea == 1 {
        cmp_digits(&a.mag.d, &b.mag.d)
    } else {
        cmp_digits(&b.mag.d, &a.mag.d)
    }
}

impl Clone for Sbi {
    /// Duplicates the value; the copy stands for the same number.
    fn clone(&self) -> (r: Sbi)
        ensures
            r@ == self@,
            self.wf() ==> r.wf(),
    {
        Sbi { sign: self.sign, mag: self.mag.clone() }
    }
}

impl PartialEq for Sbi {
    fn eq(&self, other: &Sbi) -> (r: bool) {
        matches!(sbi_order(self, other), Ordering::Equal)
    }
}

impl vstd::std_specs::cmp::PartialEqSpecImpl for Sbi {
    open spec fn obeys_eq_spec() -> bool {
        true
    }

    open spec fn eq_spec(&self, other: &Sbi) -> bool {
        self@ == other@
    }
}

impl PartialOrd for Sbi {
    fn partial_cmp(&self, other: &Sbi) -> (r: Option<Ordering>) {
        Some(sbi_order(self, other))
    }
}

impl vstd::std_specs::cmp::PartialOrdSpecImpl for Sbi {
    open spec fn obeys_partial_cmp_spec() -> bool {
        true
    }

    open spec fn partial_cmp_spec(&self, other: &Sbi) -> Option<Ordering> {
        if self@ < other@ {
            Some(Ordering::Less)
        } else if self@ == other@ {
            Some(Ordering::Equal)
        } else {
            Some(Ordering::Greater)
        }
    }
}

} // verus!
