//! Integer root extraction: floor square root and floor cube root by
//! bisection, which narrows a bracket until it has width one — a stopping
//! rule that terminates by construction.

use vstd::prelude::*;
use crate::arith::{abs_of, sign_of};
use crate::div::div_rem_digit;
use crate::ubi::Ubi;
use crate::sbi::Sbi;
use core::cmp::Ordering;

verus! {

/// Whether the gap between two values is more than one.
fn gap_above_one(lo: &Ubi, hi: &Ubi) -> (r: bool)
    requires
        lo.wf(),
    ensures
        r == (lo.as_nat() + 1 < hi.as_nat()),
{
    let l1 = lo.add(&Ubi::one());
    matches!(l1.compare(hi), Ordering::Less)
}

impl Ubi {
    /// Floor square root: the largest value whose square does not exceed
    /// this one.
    pub fn sqrt(&self) -> (r: Ubi)
        requires
            self.wf(),
        ensures
            r.wf(),
            r.as_nat() * r.as_nat() <= self.as_nat(),
            self.as_nat() < (r.as_nat() + 1) * (r.as_nat() + 1),
    {
        let ghost x = self.as_nat();
        let mut lo = Ubi::zero();
        let mut hi = self.add(&Ubi::one());
        proof {
            assert(x < (x + 1) * (x + 1)) by (nonlinear_arith);
        }
        while gap_above_one(&lo, &hi)
            invariant
                self.wf(),
                lo.wf(),
                hi.wf(),
                x == self.as_nat(),
                lo.as_nat() < hi.as_nat(),
                lo.as_nat() * lo.as_nat() <= x,
                x < hi.as_nat() * hi.as_nat(),
            decreases hi.as_nat() - lo.as_nat(),
        {
            let sum = lo.add(&hi);
            proof {
                sum.lemma_view();
            }
            let (midv, _) = div_rem_digit(&sum.d, 2);
            let mid = Ubi::from_digits(midv);
            proof {
                let l = lo.as_nat() as int;
                let h = hi.as_nat() as int;
                let m = mid.as_nat() as int;
                assert(l < m && m < h);
            }
            let sq = mid.mul(&mid);
            if matches!(sq.compare(self), Ordering::Greater) {
                hi = mid;
            } else {
                lo = mid;
            }
        }
        lo
    }

    /// Floor cube root: the largest value whose cube does not exceed this
    /// one.
    pub fn cbrt(&self) -> (r: Ubi)
        requires
            self.wf(),
        ensures
            r.wf(),
            r.as_nat() * r.as_nat() * r.as_nat() <= self.as_nat(),
            self.as_nat() < (r.as_nat() + 1) * (r.as_nat() + 1) * (r.as_nat() + 1),
    {
        let ghost x = self.as_nat();
        let mut lo = Ubi::zero();
        let mut hi = self.add(&Ubi::one());
        proof {
            assert(x < (x + 1) * (x + 1) * (x + 1)) by (nonlinear_arith);
        }
        while gap_above_one(&lo, &hi)
            invariant
                self.wf(),
                lo.wf(),
                hi.wf(),
                x == self.as_nat(),
                lo.as_nat() < hi.as_nat(),
                lo.as_nat() * lo.as_nat() * lo.as_nat() <= x,
                x < hi.as_nat() * hi.as_nat() * hi.as_nat(),
            decreases hi.as_nat() - lo.as_nat(),
        {
            let sum = lo.add(&hi);
            proof {
                sum.lemma_view();
            }
            let (midv, _) = div_rem_digit(&sum.d, 2);
            let mid = Ubi::from_digits(midv);
            proof {
                let l = lo.as_nat() as int;
                let h = hi.as_nat() as int;
                let m = mid.as_nat() as int;
                assert(l < m && m < h);
            }
            let cube = mid.mul(&mid).mul(&mid);
            if matches!(cube.compare(self), Ordering::Greater) {
                hi = mid;
            } else {
                lo = mid;
            }
        }
        lo
    }
}

impl Sbi {
    /// Floor cube root of the magnitude, with the operand's sign: the cube
    /// root is an odd function, so the root of a negative value is the
    /// negated root of its magnitude.
    pub fn cbrt(&self) -> (r: Sbi)
        requires
            self.wf(),
        ensures
            r.wf(),
            abs_of(r@) * abs_of(r@) * abs_of(r@) <= abs_of(self@),
            abs_of(self@) < (abs_of(r@) + 1) * (abs_of(r@) + 1) * (abs_of(r@) + 1),
            sign_of(r@) == sign_of(self@),
    {
        let neg = self.is_negative();
        let mag = self.magnitude();
        let root = mag.cbrt();
        let r = Sbi::with_sign(root, neg);
        proof {
            if root.as_nat() == 0 {
                assert((root.as_nat() + 1) * (root.as_nat() + 1) * (root.as_nat() + 1) == 1)
                    by (nonlinear_arith)
                    requires
                        root.as_nat() == 0,
                ;
                assert(abs_of(self@) == 0);
            } else {
                assert(root.as_nat() * root.as_nat() * root.as_nat() >= 1) by (nonlinear_arith)
                    requires
                        root.as_nat() >= 1,
                ;
                assert(abs_of(self@) >= 1);
            }
        }
        r
    }
}

} // verus!
