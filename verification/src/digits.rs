//! Positional notation: the base-`b` digits of an integer, one by one and as
//! a sequence, and how they behave under division and reduction.

use vstd::arithmetic::div_mod::*;
use vstd::arithmetic::mul::*;
use vstd::arithmetic::power::*;
use vstd::prelude::*;

verus! {

/// The digit of `x` at position `i`, least significant first. Positions past
/// the leading digit hold zero.
pub open spec fn digit(x: int, b: int, i: nat) -> int {
    (x / pow(b, i)) % b
}

/// The digits of `x`, least significant first, without leading zeros; zero
/// has no digits.
pub open spec fn digits(x: int, b: int) -> Seq<int>
    decreases x,
{
    if x <= 0 || b < 2 {
        Seq::empty()
    } else {
        proof {
            lemma_div_decreases(x, b);
        }
        seq![x % b] + digits(x / b, b)
    }
}

/// The sum of a sequence of integers.
pub open spec fn sum(s: Seq<int>) -> int
    decreases s.len(),
{
    if s.len() == 0 {
        0
    } else {
        s[0] + sum(s.drop_first())
    }
}

/// A power one step up is the base times the power.
pub proof fn lemma_pow_step(b: int, i: nat)
    requires
        b > 0,
    ensures
        pow(b, 0) == 1,
        pow(b, 1) == b,
        pow(b, i + 1) == b * pow(b, i),
        pow(b, i) > 0,
{
    reveal(pow);
    lemma_pow0(b);
    lemma_pow1(b);
    lemma_pow_positive(b, i);
}

/// A digit lies below its base.
pub proof fn lemma_digit_range(x: int, b: int, i: nat)
    requires
        x >= 0,
        b >= 2,
    ensures
        0 <= digit(x, b, i) < b,
{
    lemma_mod_bound(x / pow(b, i), b);
}

/// The sequence of digits lists `digit` at each of its positions.
pub proof fn lemma_digits_index(x: int, b: int, i: nat)
    requires
        x >= 0,
        b >= 2,
        i < digits(x, b).len(),
    ensures
        digits(x, b)[i as int] == digit(x, b, i),
    decreases i,
{
    lemma_pow_step(b, 0);
    if i == 0 {
        lemma_div_basics(x);
    } else {
        let j = (i - 1) as nat;
        lemma_div_pos_is_pos(x, b);
        lemma_digits_index(x / b, b, j);
        lemma_pow_step(b, j);
        lemma_div_denominator(x, b, pow(b, j));
    }
}

/// `x` has more than `i` digits exactly when it reaches `b^i`.
pub proof fn lemma_digits_len(x: int, b: int, i: nat)
    requires
        x >= 0,
        b >= 2,
    ensures
        i < digits(x, b).len() <==> x >= pow(b, i),
    decreases i,
{
    lemma_pow_step(b, i);
    if i > 0 && x > 0 {
        let j = (i - 1) as nat;
        lemma_div_pos_is_pos(x, b);
        lemma_digits_len(x / b, b, j);
        lemma_pow_step(b, j);
        let p = pow(b, j);
        lemma_fundamental_div_mod(x, b);
        lemma_mod_bound(x, b);
        let q = x / b;
        assert(q >= p <==> x >= b * p) by (nonlinear_arith)
            requires
                x == b * q + x % b,
                0 <= x % b < b,
                b > 0,
        ;
    }
}

/// Dividing by `b^k` drops the `k` lowest digits.
pub proof fn lemma_digit_shift(x: int, b: int, k: nat, i: nat)
    requires
        x >= 0,
        b >= 2,
    ensures
        digit(x / pow(b, k), b, i) == digit(x, b, k + i),
{
    lemma_pow_positive(b, k);
    lemma_pow_positive(b, i);
    lemma_pow_adds(b, k, i);
    lemma_div_denominator(x, pow(b, k), pow(b, i));
}

/// The `k` lowest digits of `x` are those of `x mod b^k`.
pub proof fn lemma_digit_low(x: int, b: int, k: nat, i: nat)
    requires
        x >= 0,
        b >= 2,
        i < k,
    ensures
        digit(x, b, i) == digit(x % pow(b, k), b, i),
{
    let p = pow(b, i);
    let rest = pow(b, (k - i - 1) as nat);
    let m = pow(b, k);
    lemma_pow_positive(b, i);
    lemma_pow_positive(b, k);
    lemma_pow_step(b, (k - i - 1) as nat);
    lemma_pow_adds(b, i, (k - i) as nat);
    assert(m == p * (b * rest));
    let q = x / m;
    let r = x % m;
    lemma_fundamental_div_mod(x, m);
    assert(x == p * ((b * rest) * q) + r) by (nonlinear_arith)
        requires
            x == m * q + r,
            m == p * (b * rest),
    ;
    lemma_mod_bound(x, m);
    lemma_hoist_over_denominator(r, (b * rest) * q, p as nat);
    assert(x == r + ((b * rest) * q) * p) by (nonlinear_arith)
        requires
            x == p * ((b * rest) * q) + r,
    ;
    assert(x / p == r / p + (b * rest) * q);
    assert((b * rest) * q == (rest * q) * b) by (nonlinear_arith);
    lemma_mod_multiples_vanish(rest * q, r / p, b);
    assert(b * (rest * q) == (rest * q) * b) by (nonlinear_arith);
}

/// Every digit of the sequence lies below the base.
pub proof fn lemma_digits_range(x: int, b: int)
    requires
        x >= 0,
        b >= 2,
    ensures
        forall|i: int| 0 <= i < digits(x, b).len() ==> 0 <= #[trigger] digits(x, b)[i] < b,
{
    assert forall|i: int| 0 <= i < digits(x, b).len() implies 0 <= #[trigger] digits(x, b)[i]
        < b by {
        lemma_digits_index(x, b, i as nat);
        lemma_digit_range(x, b, i as nat);
    }
}

/// Splitting `x` at `b^k` splits its digit sequence at position `k`.
pub proof fn lemma_digits_skip(x: int, b: int, k: nat)
    requires
        x >= 0,
        b >= 2,
        k <= digits(x, b).len(),
    ensures
        digits(x / pow(b, k), b) == digits(x, b).skip(k as int),
    decreases k,
{
    lemma_pow_step(b, 0);
    if k == 0 {
        lemma_div_basics(x);
        assert(digits(x, b).skip(0) =~= digits(x, b));
    } else {
        let j = (k - 1) as nat;
        lemma_div_pos_is_pos(x, b);
        lemma_digits_skip(x / b, b, j);
        lemma_pow_step(b, j);
        lemma_div_denominator(x, b, pow(b, j));
        assert(digits(x, b).skip(k as int) =~= digits(x / b, b).skip(j as int));
    }
}

/// Casting out: a number and the sum of its digits leave the same remainder
/// by `b - 1`.
pub proof fn lemma_digit_sum(x: int, b: int)
    requires
        x >= 0,
        b >= 2,
    ensures
        sum(digits(x, b)) % (b - 1) == x % (b - 1),
    decreases x,
{
    if x > 0 {
        let m = b - 1;
        let q = x / b;
        lemma_div_decreases(x, b);
        lemma_div_pos_is_pos(x, b);
        lemma_digit_sum(q, b);
        assert(digits(x, b).drop_first() =~= digits(q, b));
        lemma_fundamental_div_mod(x, b);
        assert(x == m * q + (q + x % b)) by (nonlinear_arith)
            requires
                x == b * q + x % b,
                m == b - 1,
        ;
        lemma_mod_multiples_vanish(q, q + x % b, m);
        lemma_add_mod_noop(q, x % b, m);
        lemma_add_mod_noop(sum(digits(q, b)), x % b, m);
    }
}

/// `base^k`, or `None` where it exceeds `u32::MAX`.
pub fn checked_pow(base: u32, k: u32) -> (r: Option<u32>)
    requires
        base >= 1,
    ensures
        match r {
            Some(p) => p == pow(base as int, k as nat),
            None => pow(base as int, k as nat) > u32::MAX,
        },
{
    let mut p: u32 = 1;
    let mut i: u32 = 0;
    proof {
        lemma_pow_step(base as int, 0);
    }
    while i < k
        invariant
            base >= 1,
            i <= k,
            p == pow(base as int, i as nat),
        decreases k - i,
    {
        proof {
            lemma_pow_step(base as int, i as nat);
            lemma_mul_is_commutative(p as int, base as int);
            lemma_pow_increases(base as nat, (i + 1) as nat, k as nat);
        }
        match p.checked_mul(base) {
            Some(q) => {
                p = q;
            },
            None => {
                return None;
            },
        }
        i = i + 1;
    }
    Some(p)
}

} // verus!
