//! Arithmetic behaviour of the unsigned and signed big integers on concrete
//! values: comparison, ring laws, subtraction, shifts, powers, roots,
//! modular arithmetic and radix round-trips.

use bignum::ubi::Ubi;
use bignum::sbi::Sbi;
use bignum::radix::RadixError;
use bignum::div::DivisionByZero;


fn u_samples() -> Vec<Ubi> {
    let mut v = vec![
        Ubi::zero(),
        Ubi::one(),
        Ubi::from_u32(2),
        Ubi::from_u32(0xffff_ffff),
        Ubi::from_u64(0x1_0000_0000),
        Ubi::from_u64(u64::MAX),
        Ubi::from_u128(u128::MAX),
        Ubi::from_u128(0x1234_5678_9abc_def0_1122_3344_5566_7788),
    ];
    // a value far wider than any machine word
    let mut wide = Ubi::from_u128(u128::MAX);
    wide = wide.mul(&wide);
    wide = wide.mul(&Ubi::from_u64(987_654_321));
    v.push(wide);
    v
}

fn i_samples() -> Vec<Sbi> {
    vec![
        Sbi::zero(),
        Sbi::one(),
        Sbi::one().neg(),
        Sbi::from_i64(42),
        Sbi::from_i64(-42),
        Sbi::from_i64(i64::MIN),
        Sbi::from_i64(i64::MAX),
        Sbi::from_i128(i128::MIN),
        Sbi::from_i128(i128::MAX),
        Sbi::from_i128(-1234567890123456789012345678901i128),
        Sbi::from_u128(u128::MAX),
    ]
}

#[test]
fn quickcheck_unsigned_eq_reflexive() {
    for a in u_samples() {
        assert!(a == a);
    }
}

#[test]
fn quickcheck_signed_eq_reflexive() {
    for a in i_samples() {
        assert!(a == a);
    }
}

#[test]
fn quickcheck_unsigned_eq_symmetric() {
    for a in u_samples() {
        for b in u_samples() {
            if a == b {
                assert!(b == a);
            } else {
                assert!(b != a);
            }
        }
    }
}

#[test]
fn quickcheck_signed_eq_symmetric() {
    for a in i_samples() {
        for b in i_samples() {
            if a == b {
                assert!(b == a);
            } else {
                assert!(b != a);
            }
        }
    }
}

#[test]
fn quickcheck_arith_primitive() {
    fn test_unsigned_add_primitive(a: u64, b: u64) -> bool {
        match a.checked_add(b) {
            None => true,
            Some(expected) => Ubi::from_u64(expected) == Ubi::from_u64(a).add(&Ubi::from_u64(b)),
        }
    }

    fn test_signed_add_primitive(a: i64, b: i64) -> bool {
        match a.checked_add(b) {
            None => true,
            Some(expected) => Sbi::from_i64(expected) == Sbi::from_i64(a).add(&Sbi::from_i64(b)),
        }
    }

    fn test_unsigned_mul_primitive(a: u64, b: u64) -> bool {
        // maximum value of u64 means no overflow in u128
        Ubi::from_u128(a as u128 * b as u128) == Ubi::from_u64(a).mul(&Ubi::from_u64(b))
    }

    fn test_signed_mul_primitive(a: i64, b: i64) -> bool {
        Sbi::from_i128(a as i128 * b as i128) == Sbi::from_i64(a).mul(&Sbi::from_i64(b))
    }

    fn test_unsigned_sub_primitive(a: u128, b: u128) -> bool {
        if b < a {
            Ubi::from_u128(a - b) == Ubi::from_u128(a).sub(&Ubi::from_u128(b))
        } else {
            Ubi::from_u128(b - a) == Ubi::from_u128(b).sub(&Ubi::from_u128(a))
        }
    }

    fn test_signed_sub_primitive(a: i128, b: i128) -> bool {
        match a.checked_sub(b) {
            None => true,
            Some(expected) => Sbi::from_i128(expected) == Sbi::from_i128(a).sub(&Sbi::from_i128(b)),
        }
    }

    fn test_unsigned_div_primitive(a: u128, b: u128) -> bool {
        if b == 0 {
            true
        } else {
            let (q, _) = Ubi::from_u128(a).div_rem(&Ubi::from_u128(b));
            Ubi::from_u128(a / b) == q
        }
    }

    fn test_signed_div_primitive(a: i128, b: i128) -> bool {
        if b == 0 || (a == i128::MIN && b == -1) {
            true
        } else {
            let (q, _) = Sbi::from_i128(a).div_rem(&Sbi::from_i128(b));
            Sbi::from_i128(a / b) == q
        }
    }

    let u64s: [u64; 6] = [0, 1, 7, 0xffff_ffff, 0x1_0000_0001, u64::MAX];
    let i64s: [i64; 7] = [0, 1, -1, 99, -99, i64::MIN, i64::MAX];
    let u128s: [u128; 6] = [0, 1, 12345, u64::MAX as u128 + 17, u128::MAX, u128::MAX / 3];
    let i128s: [i128; 8] = [0, 1, -1, 1000, -1000, i128::MIN, i128::MAX, -977];
    for &a in &u64s {
        for &b in &u64s {
            assert!(test_unsigned_add_primitive(a, b));
            assert!(test_unsigned_mul_primitive(a, b));
        }
    }
    for &a in &i64s {
        for &b in &i64s {
            assert!(test_signed_add_primitive(a, b));
            assert!(test_signed_mul_primitive(a, b));
        }
    }
    for &a in &u128s {
        for &b in &u128s {
            assert!(test_unsigned_sub_primitive(a, b));
            assert!(test_unsigned_div_primitive(a, b));
        }
    }
    for &a in &i128s {
        for &b in &i128s {
            assert!(test_signed_sub_primitive(a, b));
            assert!(test_signed_div_primitive(a, b));
        }
    }
}

#[test]
fn quickcheck_unsigned_add_commutative() {
    for a in u_samples() {
        for b in u_samples() {
            assert!(a.add(&b) == b.add(&a));
        }
    }
}

#[test]
fn quickcheck_signed_add_commutative() {
    for a in i_samples() {
        for b in i_samples() {
            assert!(a.add(&b) == b.add(&a));
        }
    }
}

#[test]
fn quickcheck_unsigned_add_zero() {
    for a in u_samples() {
        assert!(a == a.add(&Ubi::zero()));
    }
}

#[test]
fn quickcheck_signed_add_zero() {
    for a in i_samples() {
        assert!(a == a.add(&Sbi::zero()));
    }
}

#[test]
fn quickcheck_unsigned_add_associative() {
    for a in u_samples() {
        for b in u_samples() {
            for c in u_samples() {
                assert!(a.add(&b).add(&c) == a.add(&b.add(&c)));
            }
        }
    }
}

#[test]
fn quickcheck_signed_add_associative() {
    for a in i_samples() {
        for b in i_samples() {
            for c in i_samples() {
                assert!(a.add(&b).add(&c) == a.add(&b.add(&c)));
            }
        }
    }
}

#[test]
fn quickcheck_unsigned_mul_zero() {
    for a in u_samples() {
        assert!(a.mul(&Ubi::zero()) == Ubi::zero());
    }
}

#[test]
fn quickcheck_signed_mul_zero() {
    for a in i_samples() {
        assert!(a.mul(&Sbi::zero()) == Sbi::zero());
    }
}

#[test]
fn quickcheck_unsigned_mul_one() {
    for a in u_samples() {
        assert!(a.mul(&Ubi::one()) == a);
    }
}

#[test]
fn quickcheck_signed_mul_one() {
    for a in i_samples() {
        assert!(a.mul(&Sbi::one()) == a);
    }
}

#[test]
fn quickcheck_unsigned_mul_commutative() {
    for a in u_samples() {
        for b in u_samples() {
            assert!(a.mul(&b) == b.mul(&a));
        }
    }
}

#[test]
fn quickcheck_signed_mul_commutative() {
    for a in i_samples() {
        for b in i_samples() {
            assert!(a.mul(&b) == b.mul(&a));
        }
    }
}

#[test]
fn quickcheck_unsigned_mul_associative() {
    for a in u_samples() {
        for b in u_samples() {
            for c in u_samples() {
                assert!(a.mul(&b).mul(&c) == a.mul(&b.mul(&c)));
            }
        }
    }
}

#[test]
fn quickcheck_signed_mul_associative() {
    for a in i_samples() {
        for b in i_samples() {
            for c in i_samples() {
                assert!(a.mul(&b).mul(&c) == a.mul(&b.mul(&c)));
            }
        }
    }
}

#[test]
fn quickcheck_unsigned_distributive() {
    for a in u_samples() {
        for b in u_samples() {
            for c in u_samples() {
                assert!(a.mul(&b.add(&c)) == a.mul(&b).add(&a.mul(&c)));
            }
        }
    }
}

#[test]
fn quickcheck_signed_distributive() {
    for a in i_samples() {
        for b in i_samples() {
            for c in i_samples() {
                assert!(a.mul(&b.add(&c)) == a.mul(&b).add(&a.mul(&c)));
            }
        }
    }
}

/// Tests that exactly one of a<b a>b a=b is true
#[test]
fn quickcheck_unsigned_ge_le_eq_mut_exclusive() {
    for a in u_samples() {
        for b in u_samples() {
            let gt_lt_eq = vec![a > b, a < b, a == b];
            assert_eq!(
                gt_lt_eq.iter().fold(0, |acc, e| if *e { acc + 1 } else { acc }),
                1
            );
        }
    }
}

/// Tests that exactly one of a<b a>b a=b is true
#[test]
fn quickcheck_signed_ge_le_eq_mut_exclusive() {
    for a in i_samples() {
        for b in i_samples() {
            let gt_lt_eq = vec![a > b, a < b, a == b];
            assert_eq!(
                gt_lt_eq.iter().fold(0, |acc, e| if *e { acc + 1 } else { acc }),
                1
            );
        }
    }
}

/// Tests correctness of subtraction assuming addition is correct
#[test]
fn quickcheck_unsigned_sub() {
    for a in u_samples() {
        for b in u_samples() {
            if b < a {
                assert!(a.sub(&b).add(&b) == a);
            } else {
                assert!(b.sub(&a).add(&a) == b);
            }
        }
    }
}

/// Tests correctness of subtraction assuming addition is correct
#[test]
fn quickcheck_signed_sub() {
    for a in i_samples() {
        for b in i_samples() {
            if b < a {
                assert!(a.sub(&b).add(&b) == a);
            } else {
                assert!(b.sub(&a).add(&a) == b);
            }
        }
    }
}

#[test]
fn quickcheck_unsigned_pow_zero() {
    for a in u_samples() {
        assert!(a.pow(0_u32) == Ubi::one());
    }
}

#[test]
fn quickcheck_unsigned_pow_one() {
    for a in u_samples() {
        assert!(a.pow(1_u32) == a);
    }
}

#[test]
fn quickcheck_unsigned_sqrt() {
    for a in u_samples() {
        assert!(a.mul(&a).sqrt() == a);
    }
}

#[test]
fn quickcheck_unsigned_cbrt() {
    for a in u_samples() {
        assert!(a.mul(&a).mul(&a).cbrt() == a);
    }
}

#[test]
fn quickcheck_signed_cbrt() {
    for a in i_samples() {
        assert!(a.mul(&a).mul(&a).cbrt() == a);
    }
}

#[test]
fn quickcheck_unsigned_conversion() {
    for a in u_samples() {
        for radix in 2..=36u32 {
            let s = a.to_radix(radix);
            assert!(a == Ubi::from_radix(&s, radix).unwrap());
        }
    }
}

#[test]
fn quickcheck_signed_conversion() {
    for a in i_samples() {
        for radix in 2..=36u32 {
            let s = a.to_radix(radix);
            assert!(a == Sbi::from_radix(&s, radix).unwrap());
        }
    }
}

#[test]
fn quicktest_shift() {
    fn test_shr_unsigned(a: u64, shift: u8) -> bool {
        let shift = (shift % 64) as usize; //shift at most 64 bits
        let big_a = Ubi::from_u64(a);
        Ubi::from_u64(a >> shift) == big_a.shr(shift)
    }

    fn test_shr_signed(a: i64, shift: u8) -> bool {
        let shift = (shift % 64) as usize; //shift at most 64 bits
        let big_a = Sbi::from_i64(a);
        Sbi::from_i64(a >> shift) == big_a.shr(shift)
    }

    fn test_shl_unsigned(a: u32, shift: u8) -> bool {
        let shift = (shift % 32) as usize; //shift at most 32 bits
        let a = a as u64; //leave room for the shifted bits
        let big_a = Ubi::from_u64(a);
        Ubi::from_u64(a << shift) == big_a.shl(shift)
    }

    fn test_shl_signed(a: i32, shift: u8) -> bool {
        let shift = (shift % 32) as usize;
        let a = a as i64; //leave room for the shifted bits
        let big_a = Sbi::from_i64(a);
        Sbi::from_i64(a << shift) == big_a.shl(shift)
    }

    let u64s: [u64; 6] = [0, 1, 0xdead_beef, 0xffff_ffff_ffff_ffff, 1 << 63, 12345];
    let i64s: [i64; 7] = [0, 1, -1, i64::MIN, i64::MAX, -123456789, 987654321];
    let shifts: [u8; 8] = [0, 1, 2, 15, 31, 32, 33, 63];
    for &a in &u64s {
        for &s in &shifts {
            assert!(test_shr_unsigned(a, s));
        }
    }
    for &a in &i64s {
        for &s in &shifts {
            assert!(test_shr_signed(a, s));
        }
    }
    let u32s: [u32; 5] = [0, 1, 0xffff_ffff, 0x8000_0000, 777];
    let i32s: [i32; 6] = [0, 1, -1, i32::MIN, i32::MAX, -777];
    for &a in &u32s {
        for &s in &shifts {
            assert!(test_shl_unsigned(a, s));
        }
    }
    for &a in &i32s {
        for &s in &shifts {
            assert!(test_shl_signed(a, s));
        }
    }
}

#[test]
fn quickcheck_modpow() {
    fn simple_modpow(base: &Sbi, exponent: &Sbi, modulus: &Sbi) -> Sbi {
        assert!(!exponent.is_negative());
        let mut result = Sbi::one().mod_floor(modulus);
        let mut base = base.mod_floor(modulus);
        let mut exponent = exponent.clone();
        while !exponent.is_zero() {
            if exponent.is_odd() {
                result = result.mul(&base).mod_floor(modulus);
            }
            base = base.mul(&base).mod_floor(modulus);
            exponent = exponent.shr(1);
        }
        result
    }

    fn test_modpow(base: i128, exponent: u128, modulus: i128) -> bool {
        if modulus == 0 {
            true
        } else {
            let base = Sbi::from_i128(base);
            let exponent = Sbi::from_u128(exponent);
            let modulus = Sbi::from_i128(modulus);
            let modpow = base.modpow(&exponent, &modulus);
            let simple = simple_modpow(&base, &exponent, &modulus);
            modpow == simple
        }
    }

    let bases: [i128; 6] = [0, 1, -1, 37, -1234567, 98765432123456789];
    let exps: [u128; 5] = [0, 1, 2, 17, 1023];
    let mods: [i128; 7] = [1, -1, 2, 97, -97, 1_000_000_007, -1_000_000_007];
    for &b in &bases {
        for &e in &exps {
            for &m in &mods {
                assert!(test_modpow(b, e, m));
            }
        }
    }
}

#[test]
fn quickcheck_modinv() {
    fn test_modinv(value: i128, modulus: i128) -> bool {
        if modulus == 0 {
            true
        } else {
            let value = Sbi::from_i128(value);
            let modulus = Sbi::from_i128(modulus);
            let gcd_is_one = value.gcd(&modulus) == Sbi::one();
            match (value.modinv(&modulus), gcd_is_one) {
                (None, false) => true,
                (None, true) => false,
                (Some(_), false) => false,
                (Some(inverse), true) => {
                    // The inverse should either be in [0,m) or (m,0]
                    let zero = Sbi::zero();
                    if (modulus.is_positive() && !(zero <= inverse && inverse < modulus))
                        || (modulus.is_negative() && !(modulus < inverse && inverse <= zero))
                    {
                        return false;
                    }
                    // We don't know the expected inverse, but the product must
                    // be congruent to one
                    let product = value.mul(&inverse).mod_floor(&modulus);
                    let mod_one = Sbi::one().mod_floor(&modulus);
                    product == mod_one
                }
            }
        }
    }

    let values: [i128; 8] = [0, 1, -1, 2, 15, -15, 1234567, -89];
    let mods: [i128; 8] = [1, -1, 2, -2, 97, -97, 360, -360];
    for &v in &values {
        for &m in &mods {
            assert!(test_modinv(v, m));
        }
    }
}

#[test]
fn unsigned_div_rem_law() {
    // dividend = quotient * divisor + remainder with remainder < divisor
    for a in u_samples() {
        for b in u_samples() {
            if !b.is_zero() {
                let (q, r) = a.div_rem(&b);
                assert!(q.mul(&b).add(&r) == a);
                assert!(r < b);
            }
        }
    }
}

#[test]
fn signed_div_rem_trunc_and_floor_law() {
    for a in i_samples() {
        for b in i_samples() {
            if !b.is_zero() {
                let (q, r) = a.div_rem(&b);
                assert!(q.mul(&b).add(&r) == a);
                // truncating: the remainder is zero or carries the dividend's sign
                assert!(r.is_zero() || (r.is_negative() == a.is_negative()));
                assert!(r.magnitude() < b.magnitude());
                let (qf, rf) = a.div_rem_floor(&b);
                assert!(qf.mul(&b).add(&rf) == a);
                // floor: the remainder is zero or carries the divisor's sign
                assert!(rf.is_zero() || (rf.is_negative() == b.is_negative()));
                assert!(rf.magnitude() < b.magnitude());
            }
        }
    }
}

#[test]
fn radix_parse_rejects_bad_input() {
    let empty: Vec<char> = vec![];
    assert_eq!(Ubi::from_radix(&empty, 10).unwrap_err(), RadixError::Empty);
    assert_eq!(Sbi::from_radix(&empty, 16).unwrap_err(), RadixError::Empty);
    let sign_only: Vec<char> = vec!['-'];
    assert_eq!(Sbi::from_radix(&sign_only, 10).unwrap_err(), RadixError::Empty);
    let bad: Vec<char> = vec!['1', '2', 'z'];
    assert_eq!(Ubi::from_radix(&bad, 10).unwrap_err(), RadixError::InvalidDigit);
    let bad2: Vec<char> = vec!['-', '1', '!'];
    assert_eq!(Sbi::from_radix(&bad2, 10).unwrap_err(), RadixError::InvalidDigit);
}

#[test]
fn radix_format_examples() {
    let v = Ubi::from_u64(255);
    assert_eq!(v.to_radix(16).iter().collect::<String>(), "ff");
    assert_eq!(v.to_radix(2).iter().collect::<String>(), "11111111");
    assert_eq!(v.to_radix(10).iter().collect::<String>(), "255");
    assert_eq!(Ubi::zero().to_radix(7).iter().collect::<String>(), "0");
    let n = Sbi::from_i64(-3735928559);
    assert_eq!(n.to_radix(16).iter().collect::<String>(), "-deadbeef");
    // parsing is case-insensitive
    let upper: Vec<char> = "-DEADBEEF".chars().collect();
    assert!(Sbi::from_radix(&upper, 16).unwrap() == n);
    let plus: Vec<char> = "+Ff".chars().collect();
    assert!(Sbi::from_radix(&plus, 16).unwrap() == Sbi::from_i64(255));
}

#[test]
fn fixed_width_conversion_overflow_is_absent() {
    assert_eq!(Ubi::from_u64(u64::MAX).to_u64(), Some(u64::MAX));
    assert_eq!(Ubi::from_u128(u64::MAX as u128 + 1).to_u64(), None);
    assert_eq!(Sbi::from_i64(i64::MIN).to_i64(), Some(i64::MIN));
    assert_eq!(Sbi::from_i64(i64::MAX).to_i64(), Some(i64::MAX));
    assert_eq!(Sbi::from_i128(i64::MAX as i128 + 1).to_i64(), None);
    assert_eq!(Sbi::from_i128(i64::MIN as i128 - 1).to_i64(), None);
}

#[test]
fn division_by_zero_is_reported() {
    assert_eq!(
        Ubi::from_u64(5).checked_div_rem(&Ubi::zero()).unwrap_err(),
        DivisionByZero
    );
    assert_eq!(
        Sbi::from_i64(-5).checked_div_rem(&Sbi::zero()).unwrap_err(),
        DivisionByZero
    );
    assert_eq!(
        Sbi::from_i64(-5).checked_div_rem_floor(&Sbi::zero()).unwrap_err(),
        DivisionByZero
    );
    assert_eq!(
        Sbi::from_i64(3).checked_modpow(&Sbi::from_i64(4), &Sbi::zero()).unwrap_err(),
        DivisionByZero
    );
    assert_eq!(
        Sbi::from_i64(3).checked_modinv(&Sbi::zero()).unwrap_err(),
        DivisionByZero
    );
    let (q, r) = Sbi::from_i64(-7).checked_div_rem(&Sbi::from_i64(2)).unwrap();
    assert!(q == Sbi::from_i64(-3));
    assert!(r == Sbi::from_i64(-1));
    let (qf, rf) = Sbi::from_i64(-7).checked_div_rem_floor(&Sbi::from_i64(2)).unwrap();
    assert!(qf == Sbi::from_i64(-4));
    assert!(rf == Sbi::from_i64(1));
}

#[test]
fn gcd_examples() {
    let g = Sbi::from_i64(-12).gcd(&Sbi::from_i64(18));
    assert!(g == Sbi::from_i64(6));
    assert!(Sbi::zero().gcd(&Sbi::zero()) == Sbi::zero());
    assert!(Sbi::from_i64(17).gcd(&Sbi::from_i64(5)) == Sbi::one());
}

#[test]
fn modpow_examples() {
    // 3^4 = 81 = 16*5 + 1
    let r = Sbi::from_i64(3).modpow(&Sbi::from_i64(4), &Sbi::from_i64(5));
    assert!(r == Sbi::from_i64(1));
    // negative modulus: canonical range is (m, 0]
    let r = Sbi::from_i64(3).modpow(&Sbi::from_i64(4), &Sbi::from_i64(-5));
    assert!(r == Sbi::from_i64(-4));
    // zero exponent gives one (reduced)
    let r = Sbi::from_i64(0).modpow(&Sbi::from_i64(0), &Sbi::from_i64(7));
    assert!(r == Sbi::one());
}
