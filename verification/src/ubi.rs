//! The unsigned big integer: a canonical little-endian `u32` digit vector.

use vstd::prelude::*;
use vstd::arithmetic::power::pow;
use vstd::arithmetic::div_mod::lemma_fundamental_div_mod;
use crate::digits::{
    base, nat_of, is_norm, digit_at, take_val, lemma_nat_of_bound, lemma_norm_positive,
    lemma_nat_of_snoc, lemma_drop_last_zero, lemma_take_val_succ, lemma_take_val_all,
    lemma_cmp_by_len, lemma_cmp_at_digit, lemma_base_pow_succ, lemma_nat_of_singleton,
};
use core::cmp::Ordering;

verus! {

/// Unsigned arbitrary-precision integer. The digit vector is always kept in
/// canonical form: least-significant digit first, no trailing zero digit, the
/// empty vector standing for zero.
#[derive(Debug)]
pub struct Ubi {
    pub(crate) d: Vec<u32>,
}

impl View for Ubi {
    type V = Seq<u32>;

    closed spec fn view(&self) -> Seq<u32> {
        self.d@
    }
}

impl Ubi {
    /// Representation invariant: the digit vector is canonical.
    pub open spec fn wf(&self) -> bool {
        is_norm(self@)
    }

    /// The number this value stands for.
    pub open spec fn as_nat(&self) -> nat {
        nat_of(self@)
    }
}

impl Ubi {
    /// Crate-internal hook: the view is the digit vector itself.
    pub(crate) proof fn lemma_view(&self)
        ensures
            self@ == self.d@,
    {
    }

    /// Crate-internal constructor from a raw digit vector.
    pub(crate) fn from_digits(d: Vec<u32>) -> (r: Ubi)
        ensures
            r@ == d@,
    {
        Ubi { d }
    }
}

/// Strips most-significant zero digits, keeping the value.
pub(crate) fn trim(v: Vec<u32>) -> (r: Vec<u32>)
    ensures
        is_norm(r@),
        nat_of(r@) == nat_of(v@),
{
    let mut v = v;
    let ghost orig = v@;
    while v.len() > 0 && v[v.len() - 1] == 0
        invariant
            nat_of(v@) == nat_of(orig),
        decreases v.len(),
    {
        proof {
            lemma_drop_last_zero(v@);
        }
        let _ = v.pop();
    }
    v
}

/// Duplicates a digit vector.
pub(crate) fn clone_digits(v: &Vec<u32>) -> (r: Vec<u32>)
    ensures
        r@ == v@,
{
    let mut r: Vec<u32> = Vec::new();
    let mut i: usize = 0;
    while i < v.len()
        invariant
            i <= v@.len(),
            r@ == v@.take(i as int),
        decreases v@.len() - i,
    {
        r.push(v[i]);
        proof {
            assert(v@.take(i as int).push(v@[i as int]) =~= v@.take(i + 1));
        }
        i += 1;
    }
    proof {
        assert(v@.take(v@.len() as int) =~= v@);
    }
    r
}

/// Number of digits that carry the value: the index past the most-significant
/// nonzero digit.
fn eff_len(v: &Vec<u32>) -> (n: usize)
    ensures
        n <= v@.len(),
        is_norm(v@.take(n as int)),
        nat_of(v@.take(n as int)) == nat_of(v@),
{
    let mut n = v.len();
    proof {
        assert(v@.take(v@.len() as int) =~= v@);
    }
    while n > 0 && v[n - 1] == 0
        invariant
            n <= v@.len(),
            nat_of(v@.take(n as int)) == nat_of(v@),
        decreases n,
    {
        proof {
            lemma_drop_last_zero(v@.take(n as int));
            assert(v@.take(n as int).drop_last() =~= v@.take(n - 1));
        }
        n -= 1;
    }
    n
}

/// Whether a digit vector stands for zero, whatever its trailing zeros.
pub(crate) fn digits_are_zero(v: &Vec<u32>) -> (r: bool)
    ensures
        r == (nat_of(v@) == 0),
{
    let n = eff_len(v);
    proof {
        if n > 0 {
            lemma_norm_positive(v@.take(n as int));
        } else {
            assert(v@.take(0) =~= Seq::<u32>::empty());
        }
    }
    n == 0
}

/// Orders two digit vectors by the numbers they stand for, whatever their
/// trailing zeros.
pub(crate) fn cmp_digits(a: &Vec<u32>, b: &Vec<u32>) -> (r: Ordering)
    ensures
        r == Ordering::Less <==> nat_of(a@) < nat_of(b@),
        r == Ordering::Equal <==> nat_of(a@) == nat_of(b@),
        r == Ordering::Greater <==> nat_of(a@) > nat_of(b@),
{
    let ea = eff_len(a);
    let eb = eff_len(b);
    let ghost ga = a@.take(ea as int);
    let ghost gb = b@.take(eb as int);
    if ea < eb {
        proof {
            lemma_cmp_by_len(ga, gb);
        }
        Ordering::Less
    } else if eb < ea {
        proof {
            lemma_cmp_by_len(gb, ga);
        }
        Ordering::Greater
    } else {
        let mut i = ea;
        proof {
            assert(ga.skip(ea as int) =~= gb.skip(eb as int));
        }
        while i > 0
            invariant
                i <= ea,
                ea == eb,
                ea <= a@.len(),
                eb <= b@.len(),
                ga == a@.take(ea as int),
                gb == b@.take(eb as int),
                ga.skip(i as int) == gb.skip(i as int),
                nat_of(ga) == nat_of(a@),
                nat_of(gb) == nat_of(b@),
            decreases i,
        {
            i -= 1;
            let da = a[i];
            let db = b[i];
            proof {
                assert(ga[i as int] == a@[i as int]);
                assert(gb[i as int] == b@[i as int]);
            }
            if da < db {
                proof {
                    lemma_cmp_at_digit(ga, gb, i as int);
                }
                return Ordering::Less;
            } else if db < da {
                proof {
                    lemma_cmp_at_digit(gb, ga, i as int);
                }
                return Ordering::Greater;
            }
            proof {
                assert(ga.skip(i as int) =~= gb.skip(i as int)) by {
                    assert(forall|k: int| 0 <= k < ga.skip(i as int).len() ==> #[trigger] ga.skip(
                        i as int,
                    )[k] == if k == 0 {
                        ga[i as int]
                    } else {
                        ga.skip(i + 1)[k - 1]
                    });
                    assert(forall|k: int| 0 <= k < gb.skip(i as int).len() ==> #[trigger] gb.skip(
                        i as int,
                    )[k] == if k == 0 {
                        gb[i as int]
                    } else {
                        gb.skip(i + 1)[k - 1]
                    });
                }
            }
        }
        proof {
            assert(ga.skip(0) =~= ga);
            assert(gb.skip(0) =~= gb);
        }
        Ordering::Equal
    }
}

impl Ubi {
    /// The zero value.
    pub fn zero() -> (r: Ubi)
        ensures
            r.wf(),
            r.as_nat() == 0,
    {
        Ubi { d: Vec::new() }
    }

    /// The value one.
    pub fn one() -> (r: Ubi)
        ensures
            r.wf(),
            r.as_nat() == 1,
    {
        let mut d: Vec<u32> = Vec::new();
        d.push(1);
        proof {
            assert(d@ =~= seq![1u32]);
            lemma_nat_of_singleton(1);
        }
        Ubi { d }
    }

    /// The value of a machine word.
    pub fn from_u32(x: u32) -> (r: Ubi)
        ensures
            r.wf(),
            r.as_nat() == x,
    {
        let mut d: Vec<u32> = Vec::new();
        if x > 0 {
            d.push(x);
            proof {
                assert(d@ =~= seq![x]);
                lemma_nat_of_singleton(x);
            }
        }
        Ubi { d }
    }

    /// Whether this is the zero value.
    pub fn is_zero(&self) -> (r: bool)
        requires
            self.wf(),
        ensures
            r == (self.as_nat() == 0),
    {
        proof {
            if self@.len() > 0 {
                lemma_norm_positive(self@);
            }
        }
        self.d.len() == 0
    }

    /// Orders two values numerically.
    pub fn compare(&self, other: &Ubi) -> (r: Ordering)
        ensures
            r == Ordering::Less <==> self.as_nat() < other.as_nat(),
            r == Ordering::Equal <==> self.as_nat() == other.as_nat(),
            r == Ordering::Greater <==> self.as_nat() > other.as_nat(),
    {
        cmp_digits(&self.d, &other.d)
    }

    /// Sum of two values.
    pub fn add(&self, other: &Ubi) -> (r: Ubi)
        requires
            self.wf(),
            other.wf(),
        ensures
            r.wf(),
            r.as_nat() == self.as_nat() + other.as_nat(),
    {
        let a = &self.d;
        let b = &other.d;
        let n = if a.len() > b.len() {
            a.len()
        } else {
            b.len()
        };
        let mut out: Vec<u32> = Vec::new();
        let mut carry: u64 = 0;
        let mut i: usize = 0;
        proof {
            assert(a@.take(0) =~= Seq::<u32>::empty());
            assert(b@.take(0) =~= Seq::<u32>::empty());
        }
        while i < n
            invariant
                i <= n,
                n == if a@.len() > b@.len() {
                    a@.len()
                } else {
                    b@.len()
                },
                carry <= 1,
                out@.len() == i,
                nat_of(out@) as int + (carry as int) * pow(base(), i as nat) == take_val(
                    a@,
                    i as int,
                ) as int + take_val(b@, i as int) as int,
            decreases n - i,
        {
            let da: u64 = if i < a.len() {
                a[i] as u64
            } else {
                0
            };
            let db: u64 = if i < b.len() {
                b[i] as u64
            } else {
                0
            };
            let t: u64 = da + db + carry;
            let d: u32 = (t % 0x1_0000_0000) as u32;
            let ghost c0 = carry as int;
            let ghost prev = out@;
            out.push(d);
            proof {
                let p = pow(base(), i as nat);
                let ti = t as int;
                lemma_fundamental_div_mod(ti, base());
                lemma_nat_of_snoc(prev, d);
                lemma_take_val_succ(a@, i as int);
                lemma_take_val_succ(b@, i as int);
                lemma_base_pow_succ(i as nat);
                assert(pow(base(), (i + 1) as nat) == base() * p);
                assert(da as int == digit_at(a@, i as int));
                assert(db as int == digit_at(b@, i as int));
                assert(ti * p == (ti % base()) * p + (ti / base()) * (base() * p))
                    by (nonlinear_arith)
                    requires
                        ti == base() * (ti / base()) + (ti % base()),
                ;
                assert((da as int + db as int + c0) * p == (da as int) * p + (db as int) * p + c0
                    * p) by (nonlinear_arith);
                assert(t / 0x1_0000_0000 <= 1);
            }
            carry = t / 0x1_0000_0000;
            i += 1;
        }
        if carry > 0 {
            let ghost prev = out@;
            out.push(carry as u32);
            proof {
                lemma_nat_of_snoc(prev, (carry as u32));
            }
        }
        proof {
            lemma_take_val_all(a@, n as int);
            lemma_take_val_all(b@, n as int);
        }
        Ubi { d: trim(out) }
    }

    /// Difference of two values; the subtrahend must not exceed the minuend.
    pub fn sub(&self, other: &Ubi) -> (r: Ubi)
        requires
            self.wf(),
            other.wf(),
            other.as_nat() <= self.as_nat(),
        ensures
            r.wf(),
            r.as_nat() == self.as_nat() - other.as_nat(),
    {
        let a = &self.d;
        let b = &other.d;
        proof {
            if a@.len() < b@.len() {
                lemma_cmp_by_len(a@, b@);
            }
        }
        let n = a.len();
        let mut out: Vec<u32> = Vec::new();
        let mut borrow: u64 = 0;
        let mut i: usize = 0;
        proof {
            assert(a@.take(0) =~= Seq::<u32>::empty());
            assert(b@.take(0) =~= Seq::<u32>::empty());
        }
        while i < n
            invariant
                i <= n,
                n == a@.len(),
                b@.len() <= n,
                borrow <= 1,
                out@.len() == i,
                nat_of(out@) as int == take_val(a@, i as int) as int - take_val(b@, i as int)
                    + (borrow as int) * pow(base(), i as nat),
            decreases n - i,
        {
            let da: u64 = a[i] as u64;
            let db: u64 = if i < b.len() {
                b[i] as u64
            } else {
                0
            };
            let t: u64 = 0x1_0000_0000 + da - db - borrow;
            let d: u32 = (t % 0x1_0000_0000) as u32;
            let ghost bo0 = borrow as int;
            let ghost prev = out@;
            out.push(d);
            proof {
                let p = pow(base(), i as nat);
                let ti = t as int;
                lemma_fundamental_div_mod(ti, base());
                lemma_nat_of_snoc(prev, d);
                lemma_take_val_succ(a@, i as int);
                lemma_take_val_succ(b@, i as int);
                lemma_base_pow_succ(i as nat);
                assert(pow(base(), (i + 1) as nat) == base() * p);
                assert(da as int == digit_at(a@, i as int));
                assert(db as int == digit_at(b@, i as int));
                assert(ti / base() <= 1);
                assert((ti % base() + bo0) * p == (da as int - db as int + base() - base() * (ti
                    / base())) * p) by (nonlinear_arith)
                    requires
                        ti == base() * (ti / base()) + (ti % base()),
                        ti == base() + da - db - bo0,
                ;
                assert((da as int - db as int + base() - base() * (ti / base())) * p == (da as int)
                    * p - (db as int) * p + base() * p - (ti / base()) * (base() * p))
                    by (nonlinear_arith);
                assert((ti % base() + bo0) * p == (ti % base()) * p + bo0 * p)
                    by (nonlinear_arith);
                assert((1 - ti / base()) * (base() * p) == base() * p - (ti / base()) * (base()
                    * p)) by (nonlinear_arith);
            }
            borrow = 1 - t / 0x1_0000_0000;
            i += 1;
        }
        proof {
            lemma_take_val_all(a@, n as int);
            lemma_take_val_all(b@, n as int);
            if borrow == 1 {
                lemma_nat_of_bound(out@);
            }
        }
        Ubi { d: trim(out) }
    }
}

impl Clone for Ubi {
    /// Duplicates the value; the copy stands for the same number.
    fn clone(&self) -> (r: Ubi)
        ensures
            r@ == self@,
    {
        Ubi { d: clone_digits(&self.d) }
    }
}

impl PartialEq for Ubi {
    fn eq(&self, other: &Ubi) -> (r: bool) {
        matches!(cmp_digits(&self.d, &other.d), Ordering::Equal)
    }
}

impl vstd::std_specs::cmp::PartialEqSpecImpl for Ubi {
    open spec fn obeys_eq_spec() -> bool {
        true
    }

    open spec fn eq_spec(&self, other: &Ubi) -> bool {
        nat_of(self@) == nat_of(other@)
    }
}

impl PartialOrd for Ubi {
    fn partial_cmp(&self, other: &Ubi) -> (r: Option<Ordering>) {
        Some(cmp_digits(&self.d, &other.d))
    }
}

impl vstd::std_specs::cmp::PartialOrdSpecImpl for Ubi {
    open spec fn obeys_partial_cmp_spec() -> bool {
        true
    }

    open spec fn partial_cmp_spec(&self, other: &Ubi) -> Option<Ordering> {
        if nat_of(self@) < nat_of(other@) {
            Some(Ordering::Less)
        } else if nat_of(self@) == nat_of(other@) {
            Some(Ordering::Equal)
        } else {
            Some(Ordering::Greater)
        }
    }
}

} // verus!
