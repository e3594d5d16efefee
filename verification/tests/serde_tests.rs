//! Wire-format conformance of the serialization codec.
//!
//! The serialized shapes must not change whatever the internal
//! representation does: the unsigned type is a sequence of `u32` words,
//! least-significant first and trailing-zero-free; the signed type is a
//! 2-tuple of a sign byte in {-1, 0, 1} and that word sequence. The wrappers
//! here bind the library's codec to serde exactly as a consumer would, and
//! their deserializer never trusts the advertised element count for
//! pre-allocation.

use bignum::ubi::Ubi;
use bignum::sbi::Sbi;
use serde::de::{Deserializer, SeqAccess, Visitor};
use serde::ser::{Serializer, SerializeSeq, SerializeTuple};
use serde::{Deserialize, Serialize};
use serde_test::{assert_de_tokens, assert_tokens, Token};
use bignum::codec::DecodeError;

#[derive(Debug, PartialEq)]
struct WireU(Ubi);

#[derive(Debug, PartialEq)]
struct WireI(Sbi);

impl Serialize for WireU {
    fn serialize<S: Serializer>(&self, s: S) -> Result<S::Ok, S::Error> {
        let words = self.0.to_words();
        let mut seq = s.serialize_seq(Some(words.len()))?;
        for w in &words {
            seq.serialize_element(w)?;
        }
        seq.end()
    }
}

struct WordsVisitor;

impl<'de> Visitor<'de> for WordsVisitor {
    type Value = Vec<u32>;

    fn expecting(&self, f: &mut std::fmt::Formatter) -> std::fmt::Result {
        f.write_str("a sequence of 32-bit words")
    }

    fn visit_seq<A: SeqAccess<'de>>(self, mut seq: A) -> Result<Vec<u32>, A::Error> {
        // The size hint is deliberately not used for pre-allocation: a
        // hostile hint must not trigger a huge reservation, and the actual
        // element count decides.
        let mut words: Vec<u32> = Vec::new();
        while let Some(w) = seq.next_element::<u32>()? {
            words.push(w);
        }
        Ok(words)
    }
}

struct Words(Vec<u32>);

impl<'de> Deserialize<'de> for Words {
    fn deserialize<D: Deserializer<'de>>(d: D) -> Result<Words, D::Error> {
        Ok(Words(d.deserialize_seq(WordsVisitor)?))
    }
}

impl<'de> Deserialize<'de> for WireU {
    fn deserialize<D: Deserializer<'de>>(d: D) -> Result<WireU, D::Error> {
        let words = d.deserialize_seq(WordsVisitor)?;
        Ok(WireU(Ubi::from_words(words)))
    }
}

impl Serialize for WireI {
    fn serialize<S: Serializer>(&self, s: S) -> Result<S::Ok, S::Error> {
        let mut tup = s.serialize_tuple(2)?;
        tup.serialize_element(&self.0.sign_byte())?;
        tup.serialize_element(&WireU(self.0.magnitude()))?;
        tup.end()
    }
}

struct SignedVisitor;

impl<'de> Visitor<'de> for SignedVisitor {
    type Value = WireI;

    fn expecting(&self, f: &mut std::fmt::Formatter) -> std::fmt::Result {
        f.write_str("a sign byte and a sequence of 32-bit words")
    }

    fn visit_seq<A: SeqAccess<'de>>(self, mut seq: A) -> Result<WireI, A::Error> {
        let sign: i8 = match seq.next_element()? {
            Some(s) => s,
            None => return Err(serde::de::Error::custom("missing sign byte")),
        };
        let words: Words = match seq.next_element()? {
            Some(w) => w,
            None => return Err(serde::de::Error::custom("missing magnitude")),
        };
        match Sbi::from_sign_words(sign, words.0) {
            Ok(v) => Ok(WireI(v)),
            Err(_) => Err(serde::de::Error::custom("invalid sign byte")),
        }
    }
}

impl<'de> Deserialize<'de> for WireI {
    fn deserialize<D: Deserializer<'de>>(d: D) -> Result<WireI, D::Error> {
        d.deserialize_tuple(2, SignedVisitor)
    }
}

fn factorial_u(n: u32) -> Ubi {
    let mut acc = Ubi::one();
    let mut i: u32 = 1;
    while i <= n {
        acc = acc.mul(&Ubi::from_u32(i));
        i += 1;
    }
    acc
}

#[test]
fn biguint_zero() {
    let tokens = [Token::Seq { len: Some(0) }, Token::SeqEnd];
    assert_tokens(&WireU(Ubi::zero()), &tokens);
}

#[test]
fn bigint_zero() {
    let tokens = [
        Token::Tuple { len: 2 },
        Token::I8(0),
        Token::Seq { len: Some(0) },
        Token::SeqEnd,
        Token::TupleEnd,
    ];
    assert_tokens(&WireI(Sbi::zero()), &tokens);
}

#[test]
fn biguint_one() {
    let tokens = [Token::Seq { len: Some(1) }, Token::U32(1), Token::SeqEnd];
    assert_tokens(&WireU(Ubi::one()), &tokens);
}

#[test]
fn bigint_one() {
    let tokens = [
        Token::Tuple { len: 2 },
        Token::I8(1),
        Token::Seq { len: Some(1) },
        Token::U32(1),
        Token::SeqEnd,
        Token::TupleEnd,
    ];
    assert_tokens(&WireI(Sbi::one()), &tokens);
}

#[test]
fn bigint_negone() {
    let tokens = [
        Token::Tuple { len: 2 },
        Token::I8(-1),
        Token::Seq { len: Some(1) },
        Token::U32(1),
        Token::SeqEnd,
        Token::TupleEnd,
    ];
    assert_tokens(&WireI(Sbi::one().neg()), &tokens);
}

#[test]
fn biguint_factorial_100() {
    // Generated independently from the hexadecimal expansion of 100!
    let factorial_100: [u32; 17] = [
        0x00000000, 0x00000000, 0x00000000, 0x2735c61a, 0xee8b02ea, 0xb3b72ed2, 0x9420c6ec,
        0x45570cca, 0xdf103917, 0x943a321c, 0xeb21b5b2, 0x66ef9a70, 0xa40d16e9, 0x28d54bbd,
        0xdc240695, 0x964ec395, 0x1b30,
    ];
    let n = factorial_u(100);

    let mut tokens = vec![];
    tokens.push(Token::Seq { len: Some(factorial_100.len()) });
    tokens.extend(factorial_100.iter().map(|&u| Token::U32(u)));
    tokens.push(Token::SeqEnd);

    assert_tokens(&WireU(n), &tokens);
}

#[test]
fn bigint_factorial_100() {
    let factorial_100: [u32; 17] = [
        0x00000000, 0x00000000, 0x00000000, 0x2735c61a, 0xee8b02ea, 0xb3b72ed2, 0x9420c6ec,
        0x45570cca, 0xdf103917, 0x943a321c, 0xeb21b5b2, 0x66ef9a70, 0xa40d16e9, 0x28d54bbd,
        0xdc240695, 0x964ec395, 0x1b30,
    ];
    let n = Sbi::from_ubi(factorial_u(100));

    let mut tokens = vec![];
    tokens.push(Token::Tuple { len: 2 });
    tokens.push(Token::I8(1));
    tokens.push(Token::Seq { len: Some(factorial_100.len()) });
    tokens.extend(factorial_100.iter().map(|&u| Token::U32(u)));
    tokens.push(Token::SeqEnd);
    tokens.push(Token::TupleEnd);

    assert_tokens(&WireI(n), &tokens);
}

#[test]
fn big_digits() {
    // Try a few different lengths for digit coverage
    for len in 1..10u32 {
        let mut n = Ubi::zero();
        // words 1..=len, least-significant first
        let mut w = len;
        while w >= 1 {
            n = n.shl(32).add(&Ubi::from_u32(w));
            w -= 1;
        }

        let mut tokens = vec![];
        tokens.push(Token::Seq { len: Some(len as usize) });
        tokens.extend((1..=len).map(Token::U32));
        tokens.push(Token::SeqEnd);

        assert_tokens(&WireU(n.clone()), &tokens);

        let s = Sbi::from_ubi(n);
        tokens.insert(0, Token::Tuple { len: 2 });
        tokens.insert(1, Token::I8(1));
        tokens.push(Token::TupleEnd);
        assert_tokens(&WireI(s.clone()), &tokens);

        tokens[1] = Token::I8(-1);
        assert_tokens(&WireI(s.neg()), &tokens);
    }
}

#[test]
fn bad_size_hint_int() {
    bad_size_hint(
        WireI(Sbi::one()),
        &[Token::Tuple { len: 2 }, Token::I8(1)],
        &[Token::TupleEnd],
    );
}

#[test]
fn bad_size_hint_uint() {
    bad_size_hint(WireU(Ubi::one()), &[], &[]);
}

fn bad_size_hint<T: std::fmt::Debug + serde::de::DeserializeOwned + PartialEq + Serialize>(
    one: T,
    prefix: &[Token],
    suffix: &[Token],
) {
    let mut tokens = [
        prefix,
        &[Token::Seq { len: Some(1) }, Token::U32(1), Token::SeqEnd],
        suffix,
    ]
    .concat();

    assert_tokens(&one, &tokens);

    // A hostile hint must neither crash the decoder nor make it reserve
    // memory for elements that never arrive: the correctly terminated,
    // shorter sequence is still accepted.
    tokens[prefix.len()] = Token::Seq { len: Some(usize::MAX) };

    assert_de_tokens(&one, &tokens);
}

#[test]
fn decode_rejects_bad_sign_byte() {
    assert_eq!(
        Sbi::from_sign_words(2, vec![1]).unwrap_err(),
        DecodeError::InvalidSign
    );
    assert_eq!(
        Sbi::from_sign_words(-7, vec![]).unwrap_err(),
        DecodeError::InvalidSign
    );
}

#[test]
fn decode_normalizes_input() {
    // high zero words are dropped; a zero sign byte decodes to zero
    let v = Ubi::from_words(vec![5, 0, 0]);
    assert!(v == Ubi::from_u32(5));
    assert_eq!(v.to_words(), vec![5]);
    let z = Sbi::from_sign_words(0, vec![9, 9]).unwrap();
    assert!(z == Sbi::zero());
    let n = Sbi::from_sign_words(-1, vec![3]).unwrap();
    assert!(n == Sbi::from_i64(-3));
}
