//! Integer-level specification helpers: absolute value, sign, truncating and
//! floor division with their remainders, and the Euclidean gcd. Spec-mode `/`
//! and `%` are Euclidean (the remainder is never negative), so the two
//! rounding modes the signed type offers are defined here explicitly.

use vstd::prelude::*;
use vstd::arithmetic::div_mod::lemma_fundamental_div_mod;
use vstd::arithmetic::div_mod::lemma_mod_bound;

verus! {

pub open spec fn abs_of(a: int) -> nat {
    if a >= 0 {
        a as nat
    } else {
        (-a) as nat
    }
}

pub open spec fn sign_of(a: int) -> int {
    if a > 0 {
        1
    } else if a < 0 {
        -1
    } else {
        0
    }
}

/// Quotient of truncating division: rounds toward zero.
pub open spec fn tdiv(a: int, b: int) -> int {
    if (a >= 0) == (b >= 0) {
        abs_of(a) as int / abs_of(b) as int
    } else {
        -(abs_of(a) as int / abs_of(b) as int)
    }
}

/// Remainder of truncating division: carries the dividend's sign.
pub open spec fn tmod(a: int, b: int) -> int {
    if a >= 0 {
        abs_of(a) as int % abs_of(b) as int
    } else {
        -(abs_of(a) as int % abs_of(b) as int)
    }
}

/// Quotient of floor division: rounds toward negative infinity.
pub open spec fn fdiv(a: int, b: int) -> int {
    if b >= 0 {
        a / b
    } else {
        (-a) / (-b)
    }
}

/// Remainder of floor division: carries the divisor's sign when nonzero.
pub open spec fn fmod(a: int, b: int) -> int {
    if b >= 0 {
        a % b
    } else {
        -((-a) % (-b))
    }
}

/// Truncating division and remainder satisfy the fundamental identity, the
/// remainder is smaller than the divisor in magnitude, and a nonzero
/// remainder has the dividend's sign.
pub proof fn lemma_tdm(a: int, b: int)
    requires
        b != 0,
    ensures
        a == b * tdiv(a, b) + tmod(a, b),
        abs_of(tmod(a, b)) < abs_of(b),
        tmod(a, b) == 0 || ((tmod(a, b) < 0) == (a < 0)),
        a >= 0 ==> tdiv(a, b) * sign_of(b) >= 0,
{
    let aa = abs_of(a) as int;
    let ab = abs_of(b) as int;
    let q = aa / ab;
    let r = aa % ab;
    lemma_fundamental_div_mod(aa, ab);
    lemma_mod_bound(aa, ab);
    vstd::arithmetic::div_mod::lemma_div_pos_is_pos(aa, ab);
    if a >= 0 && b > 0 {
        assert(a == b * q + r);
    } else if a >= 0 && b < 0 {
        assert(ab == -b);
        assert((-b) * q == -(b * q)) by (nonlinear_arith);
        assert(b * (-q) == -(b * q)) by (nonlinear_arith);
        assert(a == b * (-q) + r);
        assert(tdiv(a, b) == -q);
        assert((-q) * -1 >= 0);
    } else if a < 0 && b > 0 {
        assert(aa == -a);
        assert(-a == b * q + r);
        assert(b * (-q) == -(b * q)) by (nonlinear_arith);
        assert(a == b * (-q) + (-r));
    } else {
        assert(aa == -a && ab == -b);
        assert(-a == (-b) * q + r);
        assert((-b) * q == -(b * q)) by (nonlinear_arith);
        assert(a == b * q + (-r));
    }
}

/// Truncating division and remainder are the only pair satisfying the
/// fundamental identity with the remainder bounded by the divisor and
/// signed like the dividend.
pub proof fn lemma_tdm_unique(a: int, b: int, q: int, r: int)
    requires
        b != 0,
        a == b * q + r,
        abs_of(r) < abs_of(b),
        r == 0 || ((r < 0) == (a < 0)),
    ensures
        q == tdiv(a, b),
        r == tmod(a, b),
{
    lemma_tdm(a, b);
    let q0 = tdiv(a, b);
    let r0 = tmod(a, b);
    assert(b * q - b * q0 == b * (q - q0)) by (nonlinear_arith);
    assert(b * (q - q0) == r0 - r);
    if a >= 0 {
        assert(r >= 0 && r0 >= 0);
    } else {
        assert(r <= 0 && r0 <= 0);
    }
    assert(abs_of(r0 - r) < abs_of(b));
    if q != q0 {
        assert(abs_of(b * (q - q0)) >= abs_of(b)) by (nonlinear_arith)
            requires b != 0 && q - q0 != 0;
    }
}

/// Floor division and remainder satisfy the fundamental identity and the
/// remainder lies in the canonical interval for the divisor's sign.
pub proof fn lemma_fdm(a: int, b: int)
    requires
        b != 0,
    ensures
        a == b * fdiv(a, b) + fmod(a, b),
        b > 0 ==> 0 <= fmod(a, b) < b && fdiv(a, b) == a / b && fmod(a, b) == a % b,
        b < 0 ==> b < fmod(a, b) <= 0,
{
    if b > 0 {
        lemma_fundamental_div_mod(a, b);
        lemma_mod_bound(a, b);
    } else {
        let q = (-a) / (-b);
        let r = (-a) % (-b);
        lemma_fundamental_div_mod(-a, -b);
        lemma_mod_bound(-a, -b);
        assert((-b) * q == -(b * q)) by (nonlinear_arith);
        assert(a == b * q + (-r));
    }
}

/// Floor division and remainder are the only pair satisfying the fundamental
/// identity with the remainder in the canonical interval.
pub proof fn lemma_fdm_unique(a: int, b: int, q: int, r: int)
    requires
        b != 0,
        a == b * q + r,
        b > 0 ==> 0 <= r < b,
        b < 0 ==> b < r <= 0,
    ensures
        q == fdiv(a, b),
        r == fmod(a, b),
{
    lemma_fdm(a, b);
    let q0 = fdiv(a, b);
    let r0 = fmod(a, b);
    assert(b * q - b * q0 == b * (q - q0)) by (nonlinear_arith);
    assert(b * (q - q0) == r0 - r);
    assert(abs_of(r0 - r) < abs_of(b));
    if q != q0 {
        assert(abs_of(b * (q - q0)) >= abs_of(b)) by (nonlinear_arith)
            requires b != 0 && q - q0 != 0;
    }
}

/// Euclidean gcd of two natural numbers; `gcd_n(a, 0) == a`.
pub open spec fn gcd_n(a: nat, b: nat) -> nat
    decreases b,
{
    if b == 0 {
        a
    } else {
        gcd_n(b, (a as int % b as int) as nat)
    }
}

} // verus!
