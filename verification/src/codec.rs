//! The wire codec. The unsigned type's wire form is its canonical
//! little-endian word sequence, empty for zero; the signed type's is a sign
//! byte in {-1, 0, 1} followed by the magnitude's word sequence. A decoder
//! accepts any word sequence (normalizing stray high zero words) and rejects
//! any other sign byte; a zero sign byte decodes to zero whatever the words.

use vstd::prelude::*;
use crate::arith::{abs_of, sign_of};
use crate::digits::{nat_of, is_norm};
use crate::ubi::{Ubi, trim, clone_digits};
use crate::sbi::Sbi;

verus! {

/// Why a wire value was rejected.
#[derive(Clone, Copy, PartialEq, Eq, Structural, Debug)]
pub enum DecodeError {
    /// The sign byte was not -1, 0 or 1.
    InvalidSign,
}

impl Ubi {
    /// The wire form: the canonical little-endian word sequence, empty for
    /// zero.
    pub fn to_words(&self) -> (r: Vec<u32>)
        requires
            self.wf(),
        ensures
            r@ == self@,
            is_norm(r@),
            nat_of(r@) == self.as_nat(),
    {
        proof {
            self.lemma_view();
        }
        clone_digits(&self.d)
    }

    /// Decodes a word sequence, accepting non-canonical input by dropping
    /// high zero words.
    pub fn from_words(words: Vec<u32>) -> (r: Ubi)
        ensures
            r.wf(),
            r.as_nat() == nat_of(words@),
    {
        Ubi::from_digits(trim(words))
    }
}

impl Sbi {
    /// The wire sign byte: -1, 0 or 1 as the value is negative, zero or
    /// positive.
    pub fn sign_byte(&self) -> (r: i8)
        requires
            self.wf(),
        ensures
            r as int == sign_of(self@),
    {
        proof {
            self.lemma_mag();
        }
        match self.sign {
            crate::sbi::Sign::Negative => -1,
            crate::sbi::Sign::Zero => 0,
            crate::sbi::Sign::Positive => 1,
        }
    }

    /// The wire form of the magnitude: its canonical little-endian word
    /// sequence.
    pub fn to_words(&self) -> (r: Vec<u32>)
        requires
            self.wf(),
        ensures
            is_norm(r@),
            nat_of(r@) == abs_of(self@),
    {
        let mag = self.magnitude();
        mag.to_words()
    }

    /// Decodes a sign byte and a word sequence. Any sign byte outside
    /// {-1, 0, 1} is rejected; a zero sign byte decodes to zero whatever the
    /// words, as the value is the sign times the magnitude.
    pub fn from_sign_words(sign: i8, words: Vec<u32>) -> (r: Result<Sbi, DecodeError>)
        ensures
            r is Ok <==> (sign == -1 || sign == 0 || sign == 1),
            r matches Ok(v) ==> v.wf() && v@ == sign as int * nat_of(words@),
            !(sign == -1 || sign == 0 || sign == 1) ==> r == Err::<Sbi, DecodeError>(
                DecodeError::InvalidSign,
            ),
    {
        let ghost n = nat_of(words@) as int;
        if sign == 0 {
            proof {
                assert(0 * n == 0) by (nonlinear_arith);
            }
            Ok(Sbi::zero())
        } else if sign == 1 {
            let mag = Ubi::from_words(words);
            proof {
                assert(1 * n == n) by (nonlinear_arith);
            }
            Ok(Sbi::from_ubi(mag))
        } else if sign == -1 {
            let mag = Ubi::from_words(words);
            let v = Sbi::with_sign(mag, true);
            proof {
                assert((-1) * n == -n) by (nonlinear_arith);
            }
            Ok(v)
        } else {
            Err(DecodeError::InvalidSign)
        }
    }
}

} // verus!
