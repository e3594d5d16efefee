//! The digit-vector model: the value a little-endian `u32` digit sequence
//! stands for, the canonical (trailing-zero-free) form, and the lemmas that
//! relate sequence operations to arithmetic on that value.

use vstd::prelude::*;
use vstd::arithmetic::power::pow;
use vstd::arithmetic::power::lemma_pow0;
use vstd::arithmetic::power::lemma_pow_positive;
use vstd::arithmetic::div_mod::lemma_fundamental_div_mod_converse;

verus! {

/// Radix of the digit representation: digits are `u32`, so magnitudes are
/// stored in base 2^32, least-significant digit first.
pub open spec fn base() -> int {
    0x1_0000_0000
}

/// The number a little-endian digit sequence stands for.
pub open spec fn nat_of(s: Seq<u32>) -> nat
    decreases s.len(),
{
    if s.len() == 0 {
        0
    } else {
        (s[0] + base() * nat_of(s.skip(1))) as nat
    }
}

/// Canonical form: no trailing (most-significant) zero digit; the empty
/// sequence is the canonical zero.
pub open spec fn is_norm(s: Seq<u32>) -> bool {
    s.len() == 0 || s[s.len() - 1] != 0
}

/// One unfolding of `pow` at the base radix (`pow` is opaque in vstd).
pub proof fn lemma_base_pow_succ(e: nat)
    ensures
        pow(base(), e + 1) == base() * pow(base(), e),
{
    reveal(pow);
}

/// The value of a single digit.
pub proof fn lemma_nat_of_singleton(d: u32)
    ensures
        nat_of(seq![d]) == d,
{
    reveal_with_fuel(nat_of, 3);
    assert(seq![d].skip(1) =~= Seq::<u32>::empty());
}

/// Peeling one digit off the low end of a suffix.
pub proof fn lemma_skip_unfold(s: Seq<u32>, i: int)
    requires
        0 <= i < s.len(),
    ensures
        nat_of(s.skip(i)) == s[i] + base() * nat_of(s.skip(i + 1)),
{
    assert(s.skip(i)[0] == s[i]);
    assert(s.skip(i).skip(1) =~= s.skip(i + 1));
}

/// A digit sequence is bounded by the power of the base at its length.
pub proof fn lemma_nat_of_bound(s: Seq<u32>)
    ensures
        nat_of(s) < pow(base(), s.len() as nat),
    decreases s.len(),
{
    if s.len() == 0 {
        lemma_pow0(base());
    } else {
        lemma_nat_of_bound(s.skip(1));
        lemma_base_pow_succ((s.len() - 1) as nat);
        assert(pow(base(), s.len() as nat) == base() * pow(base(), (s.len() - 1) as nat));
        assert(s[0] < base());
        assert(nat_of(s.skip(1)) <= pow(base(), (s.len() - 1) as nat) - 1);
    }
}

/// A sequence with a nonzero most-significant digit is at least the power of
/// the base at one less than its length.
pub proof fn lemma_nat_of_msd(s: Seq<u32>)
    requires
        s.len() > 0,
        s[s.len() - 1] != 0,
    ensures
        nat_of(s) >= pow(base(), (s.len() - 1) as nat),
    decreases s.len(),
{
    if s.len() == 1 {
        lemma_pow0(base());
    } else {
        assert(s.skip(1)[s.len() - 2] == s[s.len() - 1]);
        lemma_nat_of_msd(s.skip(1));
        lemma_base_pow_succ((s.len() - 2) as nat);
        assert(pow(base(), (s.len() - 1) as nat) == base() * pow(base(), (s.len() - 2) as nat));
    }
}

/// A nonempty canonical sequence stands for a positive number.
pub proof fn lemma_norm_positive(s: Seq<u32>)
    requires
        is_norm(s),
        s.len() > 0,
    ensures
        nat_of(s) >= 1,
{
    lemma_nat_of_msd(s);
    lemma_pow_positive(base(), (s.len() - 1) as nat);
}

/// Appending a digit at the most-significant end adds its value scaled by the
/// power of the base at the old length.
pub proof fn lemma_nat_of_snoc(s: Seq<u32>, d: u32)
    ensures
        nat_of(s.push(d)) == nat_of(s) + d * pow(base(), s.len() as nat),
    decreases s.len(),
{
    if s.len() == 0 {
        lemma_pow0(base());
        assert(s.push(d) =~= seq![d]);
        lemma_nat_of_singleton(d);
    } else {
        assert(s.push(d).skip(1) =~= s.skip(1).push(d));
        lemma_nat_of_snoc(s.skip(1), d);
        let p = pow(base(), (s.len() - 1) as nat);
        lemma_base_pow_succ((s.len() - 1) as nat);
        assert(pow(base(), s.len() as nat) == base() * p);
        assert(base() * (d * p) == d * (base() * p)) by (nonlinear_arith);
        assert(s.push(d)[0] == s[0]);
    }
}

/// Dropping a most-significant zero digit keeps the value.
pub proof fn lemma_drop_last_zero(s: Seq<u32>)
    requires
        s.len() > 0,
        s[s.len() - 1] == 0,
    ensures
        nat_of(s.drop_last()) == nat_of(s),
{
    assert(s.drop_last().push(s[s.len() - 1]) =~= s);
    lemma_nat_of_snoc(s.drop_last(), s[s.len() - 1]);
}

/// Splitting a sequence at any index splits its value.
pub proof fn lemma_nat_of_split(s: Seq<u32>, i: int)
    requires
        0 <= i <= s.len(),
    ensures
        nat_of(s) == nat_of(s.take(i)) + pow(base(), i as nat) * nat_of(s.skip(i)),
    decreases i,
{
    if i == 0 {
        lemma_pow0(base());
        assert(s.take(0) =~= Seq::<u32>::empty());
        assert(s.skip(0) =~= s);
    } else {
        lemma_nat_of_split(s, i - 1);
        lemma_skip_unfold(s, i - 1);
        let p = pow(base(), (i - 1) as nat);
        lemma_base_pow_succ((i - 1) as nat);
        assert(pow(base(), i as nat) == base() * p);
        assert(s.take(i - 1).push(s[i - 1]) =~= s.take(i));
        lemma_nat_of_snoc(s.take(i - 1), s[i - 1]);
        let lo = nat_of(s.skip(i)) as int;
        assert(p * (s[i - 1] + base() * lo) == s[i - 1] * p + (base() * p) * lo)
            by (nonlinear_arith);
    }
}

/// Taking one more digit adds that digit scaled by the power of the base at
/// its position.
pub proof fn lemma_take_succ(s: Seq<u32>, i: int)
    requires
        0 <= i < s.len(),
    ensures
        nat_of(s.take(i + 1)) == nat_of(s.take(i)) + s[i] * pow(base(), i as nat),
{
    assert(s.take(i).push(s[i]) =~= s.take(i + 1));
    lemma_nat_of_snoc(s.take(i), s[i]);
}

/// The digit at a position, reading positions past the end as zero.
pub open spec fn digit_at(s: Seq<u32>, i: int) -> u32 {
    if 0 <= i < s.len() {
        s[i]
    } else {
        0
    }
}

/// Index clamped into the sequence's length range.
pub open spec fn clamp_len(s: Seq<u32>, i: int) -> int {
    if i < 0 {
        0
    } else if i <= s.len() {
        i
    } else {
        s.len() as int
    }
}

/// Value of the low `i` digits, reading digits past the end as zero.
pub open spec fn take_val(s: Seq<u32>, i: int) -> nat {
    nat_of(s.take(clamp_len(s, i)))
}

/// Extending the padded prefix by one position adds that position's digit at
/// its scale.
pub proof fn lemma_take_val_succ(s: Seq<u32>, i: int)
    requires
        0 <= i,
    ensures
        take_val(s, i + 1) == take_val(s, i) + digit_at(s, i) * pow(base(), i as nat),
{
    if i < s.len() {
        lemma_take_succ(s, i);
    } else {
        assert(digit_at(s, i) == 0);
        assert(digit_at(s, i) * pow(base(), i as nat) == 0);
    }
}

/// Once every digit is covered, the padded prefix is the whole value.
pub proof fn lemma_take_val_all(s: Seq<u32>, i: int)
    requires
        i >= s.len(),
    ensures
        take_val(s, i) == nat_of(s),
{
    assert(s.take(s.len() as int) =~= s);
}

/// Comparison by length: a canonical sequence with fewer digits stands for a
/// smaller number.
pub proof fn lemma_cmp_by_len(s: Seq<u32>, t: Seq<u32>)
    requires
        is_norm(s),
        is_norm(t),
        s.len() < t.len(),
    ensures
        nat_of(s) < nat_of(t),
{
    lemma_nat_of_bound(s);
    lemma_nat_of_msd(t);
    vstd::arithmetic::power::lemma_pow_increases(
        0x1_0000_0000 as nat,
        s.len() as nat,
        (t.len() - 1) as nat,
    );
}

/// Comparison at the highest differing digit: with equal lengths and equal
/// digits above position `i`, the sequence with the smaller digit at `i`
/// stands for the smaller number.
pub proof fn lemma_cmp_at_digit(s: Seq<u32>, t: Seq<u32>, i: int)
    requires
        s.len() == t.len(),
        0 <= i < s.len(),
        s.skip(i + 1) == t.skip(i + 1),
        s[i] < t[i],
    ensures
        nat_of(s) < nat_of(t),
{
    lemma_nat_of_split(s, i + 1);
    lemma_nat_of_split(t, i + 1);
    lemma_take_succ(s, i);
    lemma_take_succ(t, i);
    lemma_nat_of_bound(s.take(i));
    let p = pow(base(), i as nat);
    lemma_pow_positive(base(), i as nat);
    assert(nat_of(s.take(i)) < p);
    vstd::arithmetic::mul::lemma_mul_inequality(s[i] + 1, t[i] as int, p);
    assert((s[i] + 1) * p == s[i] * p + p) by (nonlinear_arith);
    assert(nat_of(s.take(i + 1)) < nat_of(t.take(i + 1)));
}

/// Two canonical digit sequences standing for the same number are equal:
/// the canonical form is unique.
pub proof fn lemma_nat_of_injective(s: Seq<u32>, t: Seq<u32>)
    requires
        is_norm(s),
        is_norm(t),
        nat_of(s) == nat_of(t),
    ensures
        s == t,
    decreases s.len(),
{
    if s.len() == 0 {
        if t.len() > 0 {
            lemma_norm_positive(t);
        }
        assert(s =~= t);
    } else if t.len() == 0 {
        lemma_norm_positive(s);
    } else {
        let x = nat_of(s) as int;
        lemma_fundamental_div_mod_converse(x, base(), nat_of(s.skip(1)) as int, s[0] as int);
        lemma_fundamental_div_mod_converse(x, base(), nat_of(t.skip(1)) as int, t[0] as int);
        assert(s[0] == t[0]);
        assert(nat_of(s.skip(1)) == nat_of(t.skip(1)));
        if s.len() > 1 {
            assert(s.skip(1)[s.len() - 2] == s[s.len() - 1]);
        }
        if t.len() > 1 {
            assert(t.skip(1)[t.len() - 2] == t[t.len() - 1]);
        }
        lemma_nat_of_injective(s.skip(1), t.skip(1));
        assert forall|k: int| 0 <= k < s.len() implies s[k] == t[k] by {
            if k > 0 {
                assert(s[k] == s.skip(1)[k - 1]);
                assert(t[k] == t.skip(1)[k - 1]);
            }
        };
        assert(s =~= t);
    }
}

} // verus!
