//! Radix conversion: rendering to and parsing from digit strings in any
//! base from 2 to 36. Rendering emits lowercase digits with no superfluous
//! leading zero; parsing is case-insensitive and accepts an optional sign
//! marker on the signed type.

use vstd::prelude::*;
use vstd::arithmetic::power::pow;
use crate::ubi::Ubi;
use crate::sbi::Sbi;
use crate::div::div_rem_digit;

verus! {

/// Numeric value of a digit character, case-insensitive; characters outside
/// every radix alphabet map to an out-of-range marker.
pub open spec fn digit_val(c: char) -> int {
    let x = c as int;
    if 48 <= x <= 57 {
        x - 48
    } else if 97 <= x <= 122 {
        x - 87
    } else if 65 <= x <= 90 {
        x - 55
    } else {
        99
    }
}

/// Whether a character is a digit of the given radix.
pub open spec fn is_digit_char(c: char, radix: int) -> bool {
    digit_val(c) < radix
}

/// Whether every character is a digit of the given radix.
pub open spec fn digits_valid(s: Seq<char>, radix: int) -> bool {
    forall|i: int| 0 <= i < s.len() ==> is_digit_char(s[i], radix)
}

/// The number a big-endian digit string stands for.
pub open spec fn str_val(s: Seq<char>, radix: int) -> nat
    decreases s.len(),
{
    if s.len() == 0 {
        0
    } else {
        (str_val(s.drop_last(), radix) * radix + digit_val(s.last())) as nat
    }
}

/// The canonical rendering of `n`: nonempty, valid digits, no leading zero
/// digit except for the single-digit zero.
pub open spec fn is_canonical_digits(s: Seq<char>, radix: int, n: nat) -> bool {
    &&& s.len() > 0
    &&& digits_valid(s, radix)
    &&& str_val(s, radix) == n
    &&& (s.len() > 1 ==> s[0] != '0')
}

/// The canonical signed rendering: a leading minus sign for negative values,
/// then the canonical rendering of the magnitude.
pub open spec fn is_canonical_signed(s: Seq<char>, radix: int, v: int) -> bool {
    if v >= 0 {
        is_canonical_digits(s, radix, v as nat)
    } else {
        &&& s.len() > 1
        &&& s[0] == '-'
        &&& is_canonical_digits(s.skip(1), radix, (-v) as nat)
    }
}

/// Whether the signed parser accepts the string: an optional sign marker
/// followed by a nonempty run of digits of the radix.
pub open spec fn parse_ok_signed(s: Seq<char>, radix: int) -> bool {
    if s.len() == 0 {
        false
    } else if s[0] == '-' || s[0] == '+' {
        s.len() > 1 && digits_valid(s.skip(1), radix)
    } else {
        digits_valid(s, radix)
    }
}

/// The value the signed parser reads from an accepted string.
pub open spec fn signed_str_val(s: Seq<char>, radix: int) -> int {
    if s.len() > 0 && s[0] == '-' {
        -(str_val(s.skip(1), radix) as int)
    } else if s.len() > 0 && s[0] == '+' {
        str_val(s.skip(1), radix) as int
    } else {
        str_val(s, radix) as int
    }
}

/// The number a little-endian (least-significant-first) digit string stands
/// for: the order in which rendering produces digits.
pub open spec fn rev_val(s: Seq<char>, radix: int) -> nat
    decreases s.len(),
{
    if s.len() == 0 {
        0
    } else {
        (digit_val(s[0]) + radix * rev_val(s.skip(1), radix)) as nat
    }
}

/// Peeling one digit off the low end of a little-endian suffix.
proof fn lemma_rev_val_skip(s: Seq<char>, i: int, radix: int)
    requires
        2 <= radix,
        0 <= i < s.len(),
    ensures
        rev_val(s.skip(i), radix) == digit_val(s[i]) + radix * rev_val(s.skip(i + 1), radix),
{
    assert(s.skip(i)[0] == s[i]);
    assert(s.skip(i).skip(1) =~= s.skip(i + 1));
    assert(radix * rev_val(s.skip(i + 1), radix) >= 0) by (nonlinear_arith)
        requires
            radix >= 2,
    ;
}

/// Appending one digit at the high end of a big-endian string multiplies by
/// the radix and adds the digit.
proof fn lemma_str_val_push(s: Seq<char>, c: char, radix: int)
    requires
        2 <= radix,
        0 <= digit_val(c),
    ensures
        str_val(s.push(c), radix) == str_val(s, radix) * radix + digit_val(c),
{
    assert(s.push(c).drop_last() =~= s);
    assert(s.push(c).last() == c);
    assert(str_val(s, radix) * radix >= 0) by (nonlinear_arith)
        requires
            radix >= 2,
    ;
}

/// The lowercase digit character for a digit value.
fn digit_to_char(d: u32) -> (r: char)
    requires
        d < 36,
    ensures
        digit_val(r) == d,
        d != 0 ==> r != '0',
{
    if d < 10 {
        let b: u8 = 48 + (d as u8);
        let c = b as char;
        proof {
            assert(c as int == 48 + d);
        }
        c
    } else {
        let b: u8 = 87 + (d as u8);
        let c = b as char;
        proof {
            assert(c as int == 87 + d);
        }
        c
    }
}

/// The digit value of a character in the given radix, if it has one.
fn char_to_digit(c: char, radix: u32) -> (r: Option<u32>)
    requires
        2 <= radix <= 36,
    ensures
        r is Some <==> is_digit_char(c, radix as int),
        r matches Some(d) ==> d == digit_val(c) && d < radix,
{
    let x = c as u32;
    let d: u32 = if 48 <= x && x <= 57 {
        x - 48
    } else if 97 <= x && x <= 122 {
        x - 87
    } else if 65 <= x && x <= 90 {
        x - 55
    } else {
        99
    };
    if d < radix {
        Some(d)
    } else {
        None
    }
}

/// Why a digit string was rejected.
#[derive(Clone, Copy, PartialEq, Eq, Structural, Debug)]
pub enum RadixError {
    /// The digit portion of the input was empty.
    Empty,
    /// A character was not a digit of the requested radix.
    InvalidDigit,
}

impl Ubi {
    /// Renders the value in the given radix, most-significant digit first,
    /// lowercase, with no superfluous leading zero.
    pub fn to_radix(&self, radix: u32) -> (r: Vec<char>)
        requires
            self.wf(),
            2 <= radix <= 36,
        ensures
            is_canonical_digits(r@, radix as int, self.as_nat()),
    {
        let ghost rx = radix as int;
        let ghost n0 = self.as_nat();
        if self.is_zero() {
            let mut out: Vec<char> = Vec::new();
            out.push('0');
            proof {
                assert(out@.drop_last() =~= Seq::<char>::empty());
                assert(str_val(Seq::<char>::empty(), rx) == 0);
                assert(out@.last() == '0');
                assert(out@[0] == '0');
                assert(digit_val('0') == 0);
                assert(0 * rx == 0) by (nonlinear_arith);
            }
            return out;
        }
        let mut rev: Vec<char> = Vec::new();
        let mut cur = self.clone();
        proof {
            vstd::arithmetic::power::lemma_pow0(rx);
        }
        while !cur.is_zero()
            invariant
                2 <= radix <= 36,
                rx == radix as int,
                cur.wf(),
                rev_val(rev@, rx) + cur.as_nat() * pow(rx, rev@.len() as nat) == n0,
                digits_valid(rev@, rx),
                (cur.as_nat() == 0 && rev@.len() > 0) ==> rev@[rev@.len() - 1] != '0',
            decreases cur.as_nat(),
        {
            let ghost cv = cur.as_nat() as int;
            proof {
                cur.lemma_view();
            }
            let (qv, d) = div_rem_digit(&cur.d, radix);
            let q = Ubi::from_digits(qv);
            let ch = digit_to_char(d);
            let ghost prev = rev@;
            rev.push(ch);
            proof {
                let qn = q.as_nat() as int;
                let p = pow(rx, prev.len() as nat);
                assert(pow(rx, (prev.len() + 1) as nat) == rx * p) by {
                    vstd::arithmetic::power::lemma_pow_adds(rx, 1, prev.len() as nat);
                    vstd::arithmetic::power::lemma_pow1(rx);
                }
                lemma_rev_val_push(prev, ch, rx);
                assert(cv * p == qn * (rx * p) + d * p) by (nonlinear_arith)
                    requires
                        cv == qn * (rx as int) + d,
                ;
                assert(qn * 2 <= qn * rx) by (nonlinear_arith)
                    requires
                        qn >= 0,
                        rx >= 2,
                ;
                if qn == 0 {
                    assert(qn * (rx as int) == 0) by (nonlinear_arith)
                        requires
                            qn == 0,
                    ;
                }
            }
            cur = q;
        }
        // reverse into most-significant-first order
        proof {
            assert(cur.as_nat() * pow(rx, rev@.len() as nat) == 0) by (nonlinear_arith)
                requires
                    cur.as_nat() == 0,
            ;
            assert(rev_val(rev@, rx) == n0);
            assert(rev@.len() > 0);
        }
        let mut out: Vec<char> = Vec::new();
        let mut i = rev.len();
        proof {
            assert(rev@.skip(rev@.len() as int) =~= Seq::<char>::empty());
        }
        while i > 0
            invariant
                i <= rev@.len(),
                rev@.len() > 0,
                2 <= radix <= 36,
                rx == radix as int,
                out@.len() == rev@.len() - i,
                str_val(out@, rx) == rev_val(rev@.skip(i as int), rx),
                digits_valid(rev@, rx),
                digits_valid(out@, rx),
                rev@[rev@.len() - 1] != '0',
                out@.len() > 0 ==> out@[0] == rev@[rev@.len() - 1],
            decreases i,
        {
            i -= 1;
            let c = rev[i];
            let ghost oprev = out@;
            out.push(c);
            proof {
                lemma_str_val_push(oprev, c, rx);
                lemma_rev_val_skip(rev@, i as int, rx);
                assert(rev_val(rev@.skip(i + 1), rx) * rx + digit_val(rev@[i as int]) == digit_val(
                    rev@[i as int],
                ) + rx * rev_val(rev@.skip(i + 1), rx)) by (nonlinear_arith);
                assert(forall|j: int| 0 <= j < out@.len() ==> out@[j] == if j
                    < oprev.len() {
                    oprev[j]
                } else {
                    c
                });
            }
        }
        proof {
            assert(rev@.skip(0) =~= rev@);
            assert(pow(rx, rev@.len() as nat) >= 0) by {
                vstd::arithmetic::power::lemma_pow_positive(rx, rev@.len() as nat);
            }
        }
        out
    }

    /// Parses a digit string in the given radix, case-insensitively. An
    /// empty input or a character outside the radix's alphabet is rejected.
    pub fn from_radix(s: &Vec<char>, radix: u32) -> (r: Result<Ubi, RadixError>)
        requires
            2 <= radix <= 36,
        ensures
            r is Ok <==> s@.len() > 0 && digits_valid(s@, radix as int),
            r matches Ok(v) ==> v.wf() && v.as_nat() == str_val(s@, radix as int),
            s@.len() == 0 ==> r == Err::<Ubi, RadixError>(RadixError::Empty),
            s@.len() > 0 && !digits_valid(s@, radix as int) ==> r == Err::<Ubi, RadixError>(
                RadixError::InvalidDigit,
            ),
    {
        let ghost rx = radix as int;
        if s.len() == 0 {
            return Err(RadixError::Empty);
        }
        let rad = Ubi::from_u32(radix);
        let mut acc = Ubi::zero();
        let mut i: usize = 0;
        proof {
            assert(s@.take(0) =~= Seq::<char>::empty());
        }
        while i < s.len()
            invariant
                2 <= radix <= 36,
                rx == radix as int,
                rad.wf(),
                rad.as_nat() == radix,
                i <= s@.len(),
                s@.len() > 0,
                acc.wf(),
                acc.as_nat() == str_val(s@.take(i as int), rx),
                digits_valid(s@.take(i as int), rx),
            decreases s@.len() - i,
        {
            let c = s[i];
            match char_to_digit(c, radix) {
                None => {
                    proof {
                        assert(!is_digit_char(s@[i as int], rx));
                    }
                    return Err(RadixError::InvalidDigit);
                },
                Some(d) => {
                    let dv = Ubi::from_u32(d);
                    acc = acc.mul(&rad).add(&dv);
                    proof {
                        assert(s@.take(i as int).push(s@[i as int]) =~= s@.take(i + 1));
                        lemma_str_val_push(s@.take(i as int), s@[i as int], rx);
                    }
                },
            }
            i += 1;
        }
        proof {
            assert(s@.take(s@.len() as int) =~= s@);
        }
        Ok(acc)
    }
}

/// Appending one digit at the high-significance end of a little-endian
/// digit string adds its value at the scale of the old length.
proof fn lemma_rev_val_push(s: Seq<char>, c: char, rx: int)
    requires
        2 <= rx,
        0 <= digit_val(c),
    ensures
        rev_val(s.push(c), rx) == rev_val(s, rx) + digit_val(c) * pow(rx, s.len() as nat),
    decreases s.len(),
{
    let d = digit_val(c);
    if s.len() == 0 {
        assert(s.push(c).skip(1) =~= Seq::<char>::empty());
        vstd::arithmetic::power::lemma_pow0(rx);
        assert(rev_val(Seq::<char>::empty(), rx) == 0);
        assert(rx * rev_val(s.push(c).skip(1), rx) == 0) by (nonlinear_arith)
            requires
                rev_val(s.push(c).skip(1), rx) == 0,
        ;
        assert(s.push(c)[0] == c);
        assert(rev_val(s.push(c), rx) == d);
        assert(d * 1 == d) by (nonlinear_arith);
    } else {
        assert(s.push(c).skip(1) =~= s.skip(1).push(c));
        lemma_rev_val_push(s.skip(1), c, rx);
        let p1 = pow(rx, (s.len() - 1) as nat);
        assert(pow(rx, s.len() as nat) == rx * p1) by {
            vstd::arithmetic::power::lemma_pow_adds(rx, 1, (s.len() - 1) as nat);
            vstd::arithmetic::power::lemma_pow1(rx);
        }
        assert(s.push(c)[0] == s[0]);
        assert(rx * (rev_val(s.skip(1), rx) + d * p1) == rx * rev_val(s.skip(1), rx) + d * (rx
            * p1)) by (nonlinear_arith);
    }
}

impl Sbi {
    /// Renders the value in the given radix: the canonical digit string of
    /// the magnitude, preceded by a minus sign when the value is negative.
    pub fn to_radix(&self, radix: u32) -> (r: Vec<char>)
        requires
            self.wf(),
            2 <= radix <= 36,
        ensures
            is_canonical_signed(r@, radix as int, self@),
    {
        let neg = self.is_negative();
        let mag = self.magnitude();
        let digits = mag.to_radix(radix);
        if !neg {
            digits
        } else {
            let mut out: Vec<char> = Vec::new();
            out.push('-');
            let mut i: usize = 0;
            while i < digits.len()
                invariant
                    i <= digits@.len(),
                    out@.len() == i + 1,
                    out@[0] == '-',
                    out@.skip(1) == digits@.take(i as int),
                decreases digits@.len() - i,
            {
                out.push(digits[i]);
                proof {
                    assert(out@.skip(1) =~= digits@.take(i + 1));
                }
                i += 1;
            }
            proof {
                assert(digits@.take(digits@.len() as int) =~= digits@);
            }
            out
        }
    }

    /// Parses a digit string in the given radix, case-insensitively, with an
    /// optional leading `-` or `+`. A missing digit portion is rejected as
    /// empty input, and a character outside the radix's alphabet as an
    /// invalid digit.
    pub fn from_radix(s: &Vec<char>, radix: u32) -> (r: Result<Sbi, RadixError>)
        requires
            2 <= radix <= 36,
        ensures
            r is Ok <==> parse_ok_signed(s@, radix as int),
            r matches Ok(v) ==> v.wf() && v@ == signed_str_val(s@, radix as int),
            (s@.len() == 0 || ((s@[0] == '-' || s@[0] == '+') && s@.len() == 1)) ==> r
                == Err::<Sbi, RadixError>(RadixError::Empty),
            !parse_ok_signed(s@, radix as int) && s@.len() > 0 && !((s@[0] == '-' || s@[0] == '+')
                && s@.len() == 1) ==> r == Err::<Sbi, RadixError>(RadixError::InvalidDigit),
    {
        let ghost rx = radix as int;
        if s.len() == 0 {
            return Err(RadixError::Empty);
        }
        let first = s[0];
        let (negative, start): (bool, usize) = if first == '-' {
            (true, 1)
        } else if first == '+' {
            (false, 1)
        } else {
            (false, 0)
        };
        let mut digits: Vec<char> = Vec::new();
        let mut i = start;
        while i < s.len()
            invariant
                start <= i <= s@.len(),
                digits@ == s@.subrange(start as int, i as int),
            decreases s@.len() - i,
        {
            digits.push(s[i]);
            proof {
                assert(s@.subrange(start as int, i as int).push(s@[i as int]) =~= s@.subrange(
                    start as int,
                    i + 1,
                ));
            }
            i += 1;
        }
        proof {
            if start == 1 {
                assert(s@.subrange(1, s@.len() as int) =~= s@.skip(1));
            } else {
                assert(s@.subrange(0, s@.len() as int) =~= s@);
            }
        }
        match Ubi::from_radix(&digits, radix) {
            Err(e) => Err(e),
            Ok(mag) => {
                let v = Sbi::with_sign(mag, negative);
                Ok(v)
            },
        }
    }
}

/// The round-trip law: any canonical rendering of a value is accepted by the
/// signed parser and reads back as exactly that value; since rendering
/// produces the canonical form, parsing a rendering is the identity.
pub proof fn lemma_radix_round_trip(s: Seq<char>, radix: int, v: int)
    requires
        2 <= radix <= 36,
        is_canonical_signed(s, radix, v),
    ensures
        parse_ok_signed(s, radix),
        signed_str_val(s, radix) == v,
{
    if v >= 0 {
        assert(is_digit_char(s[0], radix));
        assert(s[0] != '-' && s[0] != '+');
    } else {
        assert(s[0] == '-');
    }
}

} // verus!
