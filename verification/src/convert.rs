//! Conversions to and from fixed-width machine integers: exact when the
//! value fits, an absent result on overflow.

use vstd::prelude::*;
use vstd::arithmetic::power::pow;
use vstd::arithmetic::div_mod::lemma_fundamental_div_mod;
use vstd::arithmetic::div_mod::lemma_mod_bound;
use crate::digits::{base, nat_of, lemma_nat_of_singleton, lemma_nat_of_snoc, lemma_base_pow_succ,
    lemma_nat_of_msd};
use crate::ubi::Ubi;
use crate::sbi::Sbi;

verus! {

impl Ubi {
    /// The value of a 64-bit word.
    pub fn from_u64(x: u64) -> (r: Ubi)
        ensures
            r.wf(),
            r.as_nat() == x,
    {
        proof {
            lemma_fundamental_div_mod(x as int, base());
            lemma_mod_bound(x as int, base());
        }
        let lo: u32 = (x % 0x1_0000_0000) as u32;
        let hi: u32 = (x / 0x1_0000_0000) as u32;
        let mut d: Vec<u32> = Vec::new();
        d.push(lo);
        let ghost one_word = d@;
        d.push(hi);
        proof {
            lemma_fundamental_div_mod(x as int, base());
            assert(one_word =~= seq![lo]);
            lemma_nat_of_singleton(lo);
            lemma_nat_of_snoc(one_word, hi);
            lemma_base_pow_succ(0);
            vstd::arithmetic::power::lemma_pow0(base());
            assert(pow(base(), 1) == base());
            assert(nat_of(d@) as int == lo + hi * base());
            assert(nat_of(d@) as int == x);
        }
        Ubi::from_digits(crate::ubi::trim(d))
    }

    /// The value of a 128-bit word.
    pub fn from_u128(x: u128) -> (r: Ubi)
        ensures
            r.wf(),
            r.as_nat() == x,
    {
        proof {
            lemma_fundamental_div_mod(x as int, 0x1_0000_0000_0000_0000);
            lemma_mod_bound(x as int, 0x1_0000_0000_0000_0000);
        }
        let lo: u64 = (x % 0x1_0000_0000_0000_0000) as u64;
        let hi: u64 = (x / 0x1_0000_0000_0000_0000) as u64;
        let l = Ubi::from_u64(lo);
        let h = Ubi::from_u64(hi);
        let shifted = h.shl(64);
        let r = shifted.add(&l);
        proof {
            vstd::arithmetic::power2::lemma_pow2(64);
            vstd::arithmetic::power2::lemma2_to64();
            assert(pow(2, 64) == 0x1_0000_0000_0000_0000);
        }
        r
    }

    /// The value as a 64-bit word, absent when it does not fit.
    pub fn to_u64(&self) -> (r: Option<u64>)
        requires
            self.wf(),
        ensures
            r is Some <==> self.as_nat() < 0x1_0000_0000_0000_0000,
            r matches Some(v) ==> v == self.as_nat(),
    {
        proof {
            self.lemma_view();
        }
        if self.d.len() > 2 {
            proof {
                lemma_nat_of_msd(self@);
                vstd::arithmetic::power::lemma_pow_increases(
                    0x1_0000_0000 as nat,
                    2,
                    (self@.len() - 1) as nat,
                );
                assert(pow(base(), 2) == 0x1_0000_0000_0000_0000) by {
                    lemma_base_pow_succ(1);
                    lemma_base_pow_succ(0);
                    vstd::arithmetic::power::lemma_pow0(base());
                }
            }
            None
        } else {
            let lo: u64 = if self.d.len() > 0 {
                self.d[0] as u64
            } else {
                0
            };
            let hi: u64 = if self.d.len() > 1 {
                self.d[1] as u64
            } else {
                0
            };
            let v = hi * 0x1_0000_0000 + lo;
            proof {
                if self@.len() == 0 {
                } else if self@.len() == 1 {
                    assert(self@ =~= seq![self@[0]]);
                    lemma_nat_of_singleton(self@[0]);
                } else {
                    assert(self@ =~= seq![self@[0]].push(self@[1]));
                    lemma_nat_of_singleton(self@[0]);
                    lemma_nat_of_snoc(seq![self@[0]], self@[1]);
                    lemma_base_pow_succ(0);
                    vstd::arithmetic::power::lemma_pow0(base());
                }
            }
            Some(v)
        }
    }
}

impl Sbi {
    /// The value of a signed 64-bit word.
    pub fn from_i64(x: i64) -> (r: Sbi)
        ensures
            r.wf(),
            r@ == x,
    {
        let neg = x < 0;
        let m: u64 = if x < 0 {
            (((-(x as i128))) as u64)
        } else {
            x as u64
        };
        Sbi::with_sign(Ubi::from_u64(m), neg)
    }

    /// The value of a signed 128-bit word.
    pub fn from_i128(x: i128) -> (r: Sbi)
        ensures
            r.wf(),
            r@ == x,
    {
        let neg = x < 0;
        let m: u128 = if x < 0 {
            ((-(x + 1)) as u128) + 1
        } else {
            x as u128
        };
        Sbi::with_sign(Ubi::from_u128(m), neg)
    }

    /// The value of an unsigned 128-bit word.
    pub fn from_u128(x: u128) -> (r: Sbi)
        ensures
            r.wf(),
            r@ == x,
    {
        Sbi::from_ubi(Ubi::from_u128(x))
    }

    /// The value as a signed 64-bit word, absent when it does not fit.
    pub fn to_i64(&self) -> (r: Option<i64>)
        requires
            self.wf(),
        ensures
            r is Some <==> (-0x8000_0000_0000_0000 <= self@ < 0x8000_0000_0000_0000),
            r matches Some(v) ==> v == self@,
    {
        proof {
            self.lemma_mag();
        }
        let neg = self.is_negative();
        let mag = self.magnitude();
        match mag.to_u64() {
            None => None,
            Some(m) => {
                if !neg {
                    if m < 0x8000_0000_0000_0000 {
                        Some(m as i64)
                    } else {
                        None
                    }
                } else {
                    if m <= 0x8000_0000_0000_0000 {
                        Some((-(m as i128)) as i64)
                    } else {
                        None
                    }
                }
            },
        }
    }
}

} // verus!
