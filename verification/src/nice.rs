//! What it means for a number to be nice, and what every nice number
//! satisfies: the facts on which the residue, low-digit and middle-digit
//! filters rest.

use vstd::arithmetic::div_mod::*;
use vstd::arithmetic::mul::*;
use vstd::arithmetic::power::*;
use vstd::prelude::*;
use vstd::seq_lib::*;
use vstd::set_lib::*;

use crate::digits;

verus! {

/// The digits of `n²` followed by those of `n³`.
pub open spec fn output_digits(n: int, b: int) -> Seq<int> {
    digits::digits(n * n, b) + digits::digits(n * n * n, b)
}

/// `n` is nice in base `b` when its square and cube together use every digit
/// of the base exactly once.
pub open spec fn is_nice(n: int, b: int) -> bool {
    let s = output_digits(n, b);
    &&& s.no_duplicates()
    &&& forall|d: int| 0 <= d < b ==> #[trigger] s.contains(d)
}

/// The `k` lowest digits of `n²` followed by the `k` lowest digits of `n³`.
pub open spec fn low_digits(n: int, b: int, k: nat) -> Seq<int> {
    Seq::new(
        2 * k,
        |i: int|
            if i < k {
                digits::digit(n * n, b, i as nat)
            } else {
                digits::digit(n * n * n, b, (i - k) as nat)
            },
    )
}

/// The remainder by `b - 1` of the sum of all digits of base `b`.
pub open spec fn target_residue(b: int) -> int {
    (b * (b - 1) / 2) % (b - 1)
}

/// Whether `n² + n³` leaves the remainder by `b - 1` that the sum of all
/// digits of the base leaves.
pub open spec fn passes_residue(n: int, b: int) -> bool {
    (n * n + n * n * n) % (b - 1) == target_residue(b)
}

/// Whether the `2k` lowest digits of `n²` and `n³` are pairwise distinct.
pub open spec fn passes_lsd(n: int, b: int, k: nat) -> bool {
    low_digits(n, b, k).no_duplicates()
}

/// Whether `n` survives both the residue filter and the low-digit filter of
/// depth `k`.
pub open spec fn is_candidate(n: int, b: int, k: nat) -> bool {
    passes_residue(n, b) && passes_lsd(n, b, k)
}

proof fn lemma_sum_append(s: Seq<int>, t: Seq<int>)
    ensures
        digits::sum(s + t) == digits::sum(s) + digits::sum(t),
    decreases s.len(),
{
    if s.len() == 0 {
        assert(s + t =~= t);
    } else {
        lemma_sum_append(s.drop_first(), t);
        assert((s + t).drop_first() =~= s.drop_first() + t);
    }
}

proof fn lemma_sum_remove(s: Seq<int>, i: int)
    requires
        0 <= i < s.len(),
    ensures
        digits::sum(s) == s[i] + digits::sum(s.remove(i)),
    decreases i,
{
    if i == 0 {
        assert(s.remove(0) =~= s.drop_first());
    } else {
        lemma_sum_remove(s.drop_first(), i - 1);
        assert(s.remove(i).drop_first() =~= s.drop_first().remove(i - 1));
    }
}

/// A sequence that lists `0..b` in some order, each once, sums to
/// `b (b - 1) / 2`.
proof fn lemma_sum_of_all_digits(s: Seq<int>, b: int)
    requires
        b >= 0,
        s.no_duplicates(),
        forall|i: int| 0 <= i < s.len() ==> 0 <= #[trigger] s[i] < b,
        forall|d: int| 0 <= d < b ==> #[trigger] s.contains(d),
    ensures
        2 * digits::sum(s) == b * (b - 1),
    decreases b,
{
    if b == 0 {
        if s.len() > 0 {
            assert(0 <= s[0] < b);
        }
    } else {
        assert(s.contains(b - 1));
        let i = choose|i: int| 0 <= i < s.len() && s[i] == b - 1;
        let t = s.remove(i);
        lemma_sum_remove(s, i);
        assert forall|j: int| 0 <= j < t.len() implies 0 <= #[trigger] t[j] < b - 1 by {
            let l = if j < i { j } else { j + 1 };
            assert(t[j] == s[l]);
            assert(s[l] != s[i]);
        }
        assert forall|d: int| 0 <= d < b - 1 implies #[trigger] t.contains(d) by {
            assert(s.contains(d));
            let l = choose|l: int| 0 <= l < s.len() && s[l] == d;
            assert(t[if l < i { l } else { l - 1 }] == d);
        }
        lemma_sum_of_all_digits(t, b - 1);
        assert(b * (b - 1) == (b - 1) * (b - 2) + 2 * (b - 1)) by (nonlinear_arith);
    }
}

/// A nice number has exactly `b` digits in its square and cube together.
pub proof fn lemma_nice_len(n: int, b: int)
    requires
        n >= 0,
        b >= 2,
        is_nice(n, b),
    ensures
        output_digits(n, b).len() == b,
{
    let s = output_digits(n, b);
    lemma_output_range(n, b);
    s.unique_seq_to_set();
    lemma_int_range(0, b);
    assert(s.to_set() =~= set_int_range(0, b)) by {
        assert forall|d: int| s.to_set().contains(d) implies set_int_range(0, b).contains(d) by {
            assert(s.contains(d));
            let i = choose|i: int| 0 <= i < s.len() && s[i] == d;
            assert(0 <= s[i] < b);
        }
        assert forall|d: int| set_int_range(0, b).contains(d) implies s.to_set().contains(d) by {
            assert(s.contains(d));
        }
    }
}

/// The converse of [`lemma_nice_len`]: `b` output digits without a repeat
/// make a number nice.
pub proof fn lemma_distinct_is_nice(n: int, b: int)
    requires
        n >= 0,
        b >= 2,
        output_digits(n, b).no_duplicates(),
        output_digits(n, b).len() == b,
    ensures
        is_nice(n, b),
{
    let s = output_digits(n, b);
    lemma_output_range(n, b);
    s.unique_seq_to_set();
    lemma_int_range(0, b);
    let all = set_int_range(0, b);
    assert(s.to_set().subset_of(all)) by {
        assert forall|d: int| s.to_set().contains(d) implies all.contains(d) by {
            assert(s.contains(d));
            let i = choose|i: int| 0 <= i < s.len() && s[i] == d;
            assert(0 <= s[i] < b);
        }
    }
    lemma_subset_equality(s.to_set(), all);
    assert forall|d: int| 0 <= d < b implies #[trigger] s.contains(d) by {
        assert(all.contains(d));
        assert(s.to_set().contains(d));
    }
}

/// Every output digit lies below the base.
pub proof fn lemma_output_range(n: int, b: int)
    requires
        n >= 0,
        b >= 2,
    ensures
        n * n >= 0,
        n * n * n >= 0,
        forall|i: int|
            0 <= i < output_digits(n, b).len() ==> 0 <= #[trigger] output_digits(n, b)[i] < b,
{
    lemma_powers_nonnegative(n);
    digits::lemma_digits_range(n * n, b);
    digits::lemma_digits_range(n * n * n, b);
}

/// Squares and cubes of naturals are naturals.
pub proof fn lemma_powers_nonnegative(n: int)
    requires
        n >= 0,
    ensures
        n * n >= 0,
        n * n * n >= 0,
        n * n * n >= n * n || n == 0,
{
    assert(n * n >= 0) by (nonlinear_arith)
        requires
            n >= 0,
    ;
    let m = n * n;
    assert(m * n >= 0) by (nonlinear_arith)
        requires
            n >= 0,
            m >= 0,
    ;
    if n > 0 {
        assert(m * n >= m) by (nonlinear_arith)
            requires
                n >= 1,
                m >= 0,
        ;
    }
}

/// The cube has at least as many digits as the square.
pub proof fn lemma_cube_len(n: int, b: int)
    requires
        n >= 0,
        b >= 2,
    ensures
        digits::digits(n * n, b).len() <= digits::digits(n * n * n, b).len(),
{
    lemma_powers_nonnegative(n);
    let l = digits::digits(n * n, b).len();
    if l > 0 {
        digits::lemma_digits_len(n * n, b, (l - 1) as nat);
        digits::lemma_digits_len(n * n * n, b, (l - 1) as nat);
    }
}

/// When the square and cube of `n` have `b` digits together, the square has at
/// least two fifths of them, but for rounding: `n⁶` is the cube of the square
/// and the square of the cube.
pub proof fn lemma_square_len(n: int, b: int)
    requires
        n >= 0,
        b >= 2,
        output_digits(n, b).len() == b,
    ensures
        5 * digits::digits(n * n, b).len() + 1 >= 2 * b,
        digits::digits(n * n, b).len() >= 2 * (b / 5),
        b >= 15 ==> digits::digits(n * n, b).len() >= 6,
{
    lemma_powers_nonnegative(n);
    let sq = n * n;
    let cu = n * n * n;
    let l = digits::digits(sq, b).len();
    let m = digits::digits(cu, b).len();
    if m > 0 {
        let p = pow(b, l);
        let q = pow(b, (m - 1) as nat);
        digits::lemma_digits_len(sq, b, l);
        digits::lemma_digits_len(cu, b, (m - 1) as nat);
        lemma_pow_positive(b, (m - 1) as nat);
        lemma_pow_adds(b, l, l);
        lemma_pow_adds(b, l + l, l);
        lemma_pow_adds(b, (m - 1) as nat, (m - 1) as nat);
        assert(cu * cu == sq * sq * sq) by (nonlinear_arith)
            requires
                sq == n * n,
                cu == n * n * n,
        ;
        assert(sq * sq <= p * p && p * p > 0) by (nonlinear_arith)
            requires
                0 <= sq < p,
        ;
        let sq2 = sq * sq;
        let p2 = p * p;
        assert(sq2 * sq < p2 * p) by (nonlinear_arith)
            requires
                0 <= sq < p,
                0 <= sq2 <= p2,
                0 < p2,
        ;
        assert(q * q <= cu * cu) by (nonlinear_arith)
            requires
                0 < q <= cu,
        ;
        lemma_pow_strictly_increases_converse(b as nat, (m - 1 + m - 1) as nat, l + l + l);
    }
}

/// The square of a nice number has at least two fifths of the `b` digits, but
/// for rounding.
pub proof fn lemma_nice_square_len(n: int, b: int)
    requires
        n >= 0,
        b >= 2,
        is_nice(n, b),
    ensures
        5 * digits::digits(n * n, b).len() + 1 >= 2 * b,
        digits::digits(n * n, b).len() >= 2 * (b / 5),
{
    lemma_nice_len(n, b);
    lemma_square_len(n, b);
}

/// In a nice number two different positions of the output hold different
/// digits. `fst` and `snd` pick a power, 0 for the square and 1 for the cube.
pub proof fn lemma_nice_positions(n: int, b: int, fst: int, i: nat, snd: int, j: nat)
    requires
        n >= 0,
        b >= 2,
        output_digits(n, b).no_duplicates(),
        fst == 0 || fst == 1,
        snd == 0 || snd == 1,
        fst != snd || i != j,
        i < digits::digits(power(n, fst), b).len(),
        j < digits::digits(power(n, snd), b).len(),
    ensures
        digits::digit(power(n, fst), b, i) != digits::digit(power(n, snd), b, j),
{
    let s = output_digits(n, b);
    let l = digits::digits(n * n, b).len();
    lemma_powers_nonnegative(n);
    digits::lemma_digits_index(power(n, fst), b, i);
    digits::lemma_digits_index(power(n, snd), b, j);
    let x = if fst == 0 { i as int } else { (l + i) as int };
    let y = if snd == 0 { j as int } else { (l + j) as int };
    assert(s[x] == digits::digit(power(n, fst), b, i));
    assert(s[y] == digits::digit(power(n, snd), b, j));
}

/// The square for 0, the cube for 1.
pub open spec fn power(n: int, which: int) -> int {
    if which == 0 {
        n * n
    } else {
        n * n * n
    }
}

/// A nice number passes the residue filter: its output digits add up to the
/// sum of all digits of the base.
pub proof fn lemma_nice_passes_residue(n: int, b: int)
    requires
        n >= 0,
        b >= 2,
        is_nice(n, b),
    ensures
        passes_residue(n, b),
{
    let s = output_digits(n, b);
    let m = b - 1;
    lemma_output_range(n, b);
    lemma_sum_of_all_digits(s, b);
    lemma_sum_append(digits::digits(n * n, b), digits::digits(n * n * n, b));
    digits::lemma_digit_sum(n * n, b);
    digits::lemma_digit_sum(n * n * n, b);
    lemma_add_mod_noop(n * n, n * n * n, m);
    lemma_add_mod_noop(
        digits::sum(digits::digits(n * n, b)),
        digits::sum(digits::digits(n * n * n, b)),
        m,
    );
    assert(b * (b - 1) / 2 == digits::sum(s));
}

/// A nice number whose square has at least `k` digits passes the low-digit
/// filter of depth `k`.
pub proof fn lemma_nice_passes_lsd(n: int, b: int, k: nat)
    requires
        n >= 0,
        b >= 2,
        output_digits(n, b).no_duplicates(),
        k <= digits::digits(n * n, b).len(),
    ensures
        passes_lsd(n, b, k),
{
    lemma_cube_len(n, b);
    let s = low_digits(n, b, k);
    assert forall|x: int, y: int| 0 <= x < s.len() && 0 <= y < s.len() && x != y implies s[x]
        != s[y] by {
        let fst: int = if x < k { 0 } else { 1 };
        let snd: int = if y < k { 0 } else { 1 };
        let i = (if x < k { x } else { x - k }) as nat;
        let j = (if y < k { y } else { y - k }) as nat;
        lemma_nice_positions(n, b, fst, i, snd, j);
    }
}

/// A nice number is a candidate at every depth up to the digit count of its
/// square, and so at every depth up to two fifths of the base: no filter ever
/// drops it.
pub proof fn lemma_nice_is_candidate(n: int, b: int, k: nat)
    requires
        n >= 0,
        b >= 2,
        is_nice(n, b),
        k <= digits::digits(n * n, b).len() || 5 * k <= 2 * b + 3,
    ensures
        is_candidate(n, b, k),
{
    lemma_nice_square_len(n, b);
    lemma_nice_passes_residue(n, b);
    lemma_nice_passes_lsd(n, b, k);
}

/// Whether the square of every nice number from `lo` on has at least `k`
/// digits: all squares from `lo` on are that long, or `k` is at most two fifths
/// of the base.
pub open spec fn has_long_squares(lo: int, b: int, k: nat) -> bool {
    ||| k == 0
    ||| lo * lo >= pow(b, (k - 1) as nat)
    ||| 5 * k <= 2 * b + 3
}

/// What [`has_long_squares`] says of a nice number.
pub proof fn lemma_long_square(n: int, lo: int, b: int, k: nat)
    requires
        0 <= lo <= n,
        b >= 2,
        is_nice(n, b),
        has_long_squares(lo, b, k),
    ensures
        k <= digits::digits(n * n, b).len() <= digits::digits(n * n * n, b).len(),
{
    lemma_nice_square_len(n, b);
    lemma_cube_len(n, b);
    if k > 0 && lo * lo >= pow(b, (k - 1) as nat) {
        assert(lo * lo <= n * n) by (nonlinear_arith)
            requires
                0 <= lo <= n,
        ;
        digits::lemma_digits_len(n * n, b, (k - 1) as nat);
    }
}

/// Squares that are long enough for a depth are so for every lesser depth.
pub proof fn lemma_long_squares_weaken(lo: int, b: int, k: nat, deeper: nat)
    requires
        b >= 2,
        k <= deeper,
        has_long_squares(lo, b, deeper),
    ensures
        has_long_squares(lo, b, k),
{
    if 0 < k && lo * lo >= pow(b, (deeper - 1) as nat) {
        lemma_pow_increases(b as nat, (k - 1) as nat, (deeper - 1) as nat);
    }
}

/// Deeper low-digit filtering only removes candidates, it never adds one.
pub proof fn lemma_deeper_candidates_are_fewer(n: int, b: int, j: nat, k: nat)
    requires
        n >= 0,
        b >= 2,
        j <= k,
        is_candidate(n, b, k),
    ensures
        is_candidate(n, b, j),
{
    let s = low_digits(n, b, j);
    let t = low_digits(n, b, k);
    assert forall|x: int, y: int| 0 <= x < s.len() && 0 <= y < s.len() && x != y implies s[x]
        != s[y] by {
        let u = if x < j { x } else { x - j + k };
        let v = if y < j { y } else { y - j + k };
        assert(s[x] == t[u]);
        assert(s[y] == t[v]);
    }
}

/// Squares and cubes respect congruence.
pub proof fn lemma_powers_mod(n: int, m: int)
    requires
        m > 0,
    ensures
        ((n % m) * (n % m)) % m == (n * n) % m,
        ((n % m) * (n % m) * (n % m)) % m == (n * n * n) % m,
{
    let r = n % m;
    lemma_mul_mod_noop(n, n, m);
    lemma_mul_mod_noop(n * n, n, m);
    lemma_mul_mod_noop(r * r, r, m);
    lemma_mod_twice(n, m);
}

/// The `k` lowest digits of the powers of `n` depend on `n mod b^k` alone.
pub proof fn lemma_low_digit_periodic(n: int, b: int, k: nat, i: nat)
    requires
        n >= 0,
        b >= 2,
        i < k,
    ensures
        digits::digit(n * n, b, i) == digits::digit(
            (n % pow(b, k)) * (n % pow(b, k)),
            b,
            i,
        ),
        digits::digit(n * n * n, b, i) == digits::digit(
            (n % pow(b, k)) * (n % pow(b, k)) * (n % pow(b, k)),
            b,
            i,
        ),
{
    let m = pow(b, k);
    lemma_pow_positive(b, k);
    let r = n % m;
    lemma_mod_bound(n, m);
    lemma_powers_mod(n, m);
    lemma_powers_nonnegative(n);
    lemma_powers_nonnegative(r);
    digits::lemma_digit_low(n * n, b, k, i);
    digits::lemma_digit_low(r * r, b, k, i);
    digits::lemma_digit_low(n * n * n, b, k, i);
    digits::lemma_digit_low(r * r * r, b, k, i);
}

/// The sequence of low digits depends on `n mod b^k` alone.
pub proof fn lemma_low_digits_periodic(n: int, b: int, k: nat)
    requires
        n >= 0,
        b >= 2,
    ensures
        low_digits(n, b, k) == low_digits(n % pow(b, k), b, k),
{
    assert forall|i: int| 0 <= i < 2 * k implies #[trigger] low_digits(n, b, k)[i] == low_digits(
        n % pow(b, k),
        b,
        k,
    )[i] by {
        lemma_low_digit_periodic(n, b, k, (if i < k { i } else { i - k }) as nat);
    }
    assert(low_digits(n, b, k) =~= low_digits(n % pow(b, k), b, k));
}

/// Whether `n` passes the residue filter depends on `n mod (b - 1)` alone.
pub proof fn lemma_residue_periodic(n: int, b: int)
    requires
        b >= 2,
    ensures
        passes_residue(n, b) == passes_residue(n % (b - 1), b),
{
    let m = b - 1;
    let r = n % m;
    lemma_powers_mod(n, m);
    lemma_add_mod_noop(n * n, n * n * n, m);
    lemma_add_mod_noop(r * r, r * r * r, m);
}

/// Whether `n` is a candidate depends on `n mod (b - 1) b^k` alone.
pub proof fn lemma_candidate_periodic(n: int, b: int, k: nat)
    requires
        n >= 0,
        b >= 2,
    ensures
        (b - 1) * pow(b, k) > 0,
        is_candidate(n, b, k) == is_candidate(n % ((b - 1) * pow(b, k)), b, k),
        low_digits(n, b, k) == low_digits(n % ((b - 1) * pow(b, k)), b, k),
{
    let c = b - 1;
    let p = pow(b, k);
    lemma_pow_positive(b, k);
    lemma_mul_strictly_positive(c, p);
    let r = n % (c * p);
    lemma_mod_bound(n, c * p);
    lemma_mod_mod(n, c, p);
    lemma_mul_is_commutative(c, p);
    lemma_mod_mod(n, p, c);
    lemma_residue_periodic(n, b);
    lemma_residue_periodic(r, b);
    lemma_low_digits_periodic(n, b, k);
    lemma_low_digits_periodic(r, b, k);
}

} // verus!
