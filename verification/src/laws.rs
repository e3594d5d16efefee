//! Algebraic laws of the arithmetic, stated over the mathematical model the
//! contracts use: the unsigned type's natural-number value and the signed
//! type's integer view. Each operation's `ensures` ties its result exactly to
//! that model, so every law here transfers to the types' operations.

use vstd::prelude::*;
use crate::arith::{abs_of, sign_of};

verus! {

/// Exactly one of `a < b`, `a == b`, `a > b` holds. `compare` on either type
/// returns `Less`, `Equal` or `Greater` exactly in these three cases, so for
/// any two values exactly one of the three orderings is reported.
pub proof fn lemma_order_trichotomy(a: int, b: int)
    ensures
        a < b || a == b || a > b,
        a < b ==> !(a == b) && !(a > b),
        a == b ==> !(a < b) && !(a > b),
        a > b ==> !(a < b) && !(a == b),
{
}

/// Addition and multiplication are commutative and associative, zero and one
/// are their identities, zero annihilates, and multiplication distributes
/// over addition. `add` and `mul` return exactly the model sum and product,
/// so these laws hold of the types' operations.
pub proof fn lemma_ring_laws(a: int, b: int, c: int)
    ensures
        a + b == b + a,
        (a + b) + c == a + (b + c),
        a + 0 == a,
        a * b == b * a,
        (a * b) * c == a * (b * c),
        a * 1 == a,
        a * 0 == 0,
        a * (b + c) == a * b + a * c,
{
    assert(a * b == b * a) by (nonlinear_arith);
    assert((a * b) * c == a * (b * c)) by (nonlinear_arith);
    assert(a * 1 == a) by (nonlinear_arith);
    assert(a * 0 == 0) by (nonlinear_arith);
    assert(a * (b + c) == a * b + a * c) by (nonlinear_arith);
}

/// Subtraction inverts addition: when `b < a`, `(a - b) + b == a`. `sub` on
/// either type returns exactly the model difference, so adding the
/// subtrahend back restores the minuend.
pub proof fn lemma_sub_inverts_add(a: int, b: int)
    requires
        b < a,
    ensures
        (a - b) + b == a,
{
}

/// The floor square root is exact on perfect squares: the root bracket
/// around `x * x` pins the root to `x` itself.
pub proof fn lemma_sqrt_of_square(r: nat, x: nat)
    requires
        r * r <= x * x,
        x * x < (r + 1) * (r + 1),
    ensures
        r == x,
{
    if r < x {
        assert((r + 1) * (r + 1) <= x * x) by (nonlinear_arith)
            requires
                r + 1 <= x,
        ;
    }
    if x < r {
        assert(x * x < r * r) by (nonlinear_arith)
            requires
                x < r,
        ;
    }
}

/// The floor cube root is exact on perfect cubes.
pub proof fn lemma_cbrt_of_cube(r: nat, x: nat)
    requires
        r * r * r <= x * x * x,
        x * x * x < (r + 1) * (r + 1) * (r + 1),
    ensures
        r == x,
{
    if r < x {
        assert((r + 1) * (r + 1) * (r + 1) <= x * x * x) by (nonlinear_arith)
            requires
                r + 1 <= x,
        ;
    }
    if x < r {
        assert(x * x * x < r * r * r) by (nonlinear_arith)
            requires
                x < r,
        ;
    }
}

/// The signed floor cube root is exact on cubes: a signed root whose
/// magnitude brackets the cube's magnitude and whose sign matches the cube's
/// sign is the cubed value itself — the sign-magnitude contract of the
/// signed cube root composed with cubing is the identity.
pub proof fn lemma_cbrt_of_cube_signed(r: int, x: int)
    requires
        abs_of(r) * abs_of(r) * abs_of(r) <= abs_of(x * x * x),
        abs_of(x * x * x) < (abs_of(r) + 1) * (abs_of(r) + 1) * (abs_of(r) + 1),
        sign_of(r) == sign_of(x * x * x),
    ensures
        r == x,
{
    let ax = abs_of(x) as int;
    let c = x * x * x;
    assert(c == if x >= 0 {
        ax * ax * ax
    } else {
        -(ax * ax * ax)
    }) by (nonlinear_arith)
        requires
            c == x * x * x,
            ax == if x >= 0 {
                x
            } else {
                -x
            },
    ;
    assert(ax * ax * ax >= 0) by (nonlinear_arith)
        requires
            ax >= 0,
    ;
    assert(abs_of(c) == abs_of(x) * abs_of(x) * abs_of(x));
    lemma_cbrt_of_cube(abs_of(r), abs_of(x));
    if x > 0 {
        assert(c > 0) by (nonlinear_arith)
            requires
                c == x * x * x,
                x > 0,
        ;
    }
    if x < 0 {
        assert(c < 0) by (nonlinear_arith)
            requires
                c == x * x * x,
                x < 0,
        ;
    }
}

} // verus!
