//! Affine middle-digit filter for cross-end survivors.
//!
//! Write a candidate as `n = s + B·t` with `B = b^3`, so that `s = n mod B` is
//! its suffix and `t = n div B`. Then
//!
//! ```text
//! n² = s² + 2sB·t + B²t²          n³ = s³ + 3s²B·t + 3sB²t² + B³t³
//! ```
//!
//! Modulo `B² = b^6` every term that carries `B²` vanishes, so the six lowest
//! digits of both powers depend on `n mod b^6` alone. The lowest three are the
//! stride table's low digits. The next three, output positions 3 to 5 of each
//! power, are the base-`b` digits of
//!
//! ```text
//! q = (⌊s²/B⌋ + 2s·t) mod B        c = (⌊s³/B⌋ + 3s²·t) mod B
//! ```
//!
//! For `b <= 64` everything fits in a `u64` when `n` has been reduced modulo
//! `b^6`, so the six digits cost no multi-limb work.
//!
//! A candidate that reaches this filter carries a mask of digits that are
//! certainly present elsewhere in the output. One of the six digits that
//! meets that mask, or another of the six, shows a repeat before the full
//! check runs.

use vstd::arithmetic::div_mod::*;
use vstd::arithmetic::mul::*;
use vstd::arithmetic::power::*;
use vstd::prelude::*;

use crate::digits;
use crate::guarantees;
use crate::mask;
use crate::nice;

verus! {

/// The bases that have a specialized path.
pub open spec fn is_specialized(base: u32) -> bool {
    ||| base == 40
    ||| 42 <= base <= 45
    ||| 47 <= base <= 50
    ||| 52 <= base <= 55
    ||| 57 <= base <= 60
    ||| base == 62
    ||| base == 64
}

/// The digits of `n²` at positions 3, 4 and 5, then those of `n³` at the same
/// positions.
pub open spec fn middle(n: int, b: int) -> Seq<int> {
    Seq::new(
        6,
        |i: int|
            if i < 3 {
                digits::digit(n * n, b, (3 + i) as nat)
            } else {
                digits::digit(n * n * n, b, i as nat)
            },
    )
}

/// Whether the digits of `m` are pairwise distinct and avoid `known`.
pub open spec fn is_clear(m: Seq<int>, known: u64) -> bool {
    &&& m.no_duplicates()
    &&& forall|i: int| 0 <= i < m.len() ==> !mask::holds(known, #[trigger] m[i])
}

/// Whether the filter keeps a candidate that is `nmod` modulo `base^6`: its
/// six middle digits are pairwise distinct and avoid `known`. Bases without a
/// specialized path keep everything.
pub open spec fn keeps(base: u32, nmod: int, known: u64) -> bool {
    is_specialized(base) ==> is_clear(middle(nmod, base as int), known)
}

/// Whether the word arithmetic of the filter stays below `2^64` on `nmod`. It
/// does for every base up to 64 below `2^44`, which is far above `base^6`.
pub open spec fn fits_words(base: int, nmod: int) -> bool {
    ||| base <= 64 && nmod < 0x1000_0000_0000
    ||| fits_words_exactly(base, nmod)
}

/// The terms of the affine formula, bounded one by one.
pub open spec fn fits_words_exactly(base: int, nmod: int) -> bool {
    let cube = base * base * base;
    let s = nmod % cube;
    let t = nmod / cube;
    &&& cube <= u64::MAX
    &&& s * s * s <= u64::MAX
    &&& s * s / cube + 2 * s * t <= u64::MAX
    &&& s * s * s / cube + 3 * (s * s) * t <= u64::MAX
}

/// Reduced candidates of every base up to 64 fit in words.
pub proof fn lemma_reduced_fits(base: int, nmod: int)
    requires
        2 <= base <= 64,
        0 <= nmod < pow(base, 6),
    ensures
        fits_words(base, nmod),
{
    let cube = base * base * base;
    lemma_cube(base);
    lemma_pow_adds(base, 3, 3);
    lemma_cube_bound(base);
    assert(cube * cube <= 262144 * 262144) by (nonlinear_arith)
        requires
            0 < cube <= 262144,
    ;
}

proof fn lemma_cube_bound(base: int)
    requires
        0 < base <= 64,
    ensures
        0 < base * base * base <= 262144,
{
    assert(0 < base * base * base <= 262144) by (nonlinear_arith)
        requires
            0 < base <= 64,
    ;
}

/// The simple bound implies the exact ones.
proof fn lemma_small_fits_exactly(base: int, nmod: int)
    requires
        0 < base <= 64,
        0 <= nmod < 0x1000_0000_0000,
    ensures
        fits_words_exactly(base, nmod),
{
    let cube = base * base * base;
    lemma_cube_bound(base);
    let s = nmod % cube;
    let t = nmod / cube;
    lemma_mod_bound(nmod, cube);
    lemma_fundamental_div_mod(nmod, cube);
    lemma_div_pos_is_pos(nmod, cube);
    let st = s * t;
    assert(0 <= st <= cube * t) by (nonlinear_arith)
        requires
            0 <= s < cube,
            t >= 0,
            st == s * t,
    ;
    let s2 = s * s;
    assert(0 <= s2 <= 262144 * 262144) by (nonlinear_arith)
        requires
            0 <= s <= 262144,
            s2 == s * s,
    ;
    assert(0 <= s2 * s <= 262144 * 262144 * 262144) by (nonlinear_arith)
        requires
            0 <= s <= 262144,
            0 <= s2 <= 262144 * 262144,
    ;
    assert(2 * s * t == 2 * st) by (nonlinear_arith)
        requires
            st == s * t,
    ;
    assert(3 * s2 * t == 3 * (s * st)) by (nonlinear_arith)
        requires
            st == s * t,
            s2 == s * s,
    ;
    assert(0 <= s * st <= 262144 * 0x1000_0000_0000) by (nonlinear_arith)
        requires
            0 <= s <= 262144,
            0 <= st <= 0x1000_0000_0000,
    ;
    lemma_div_nonincreasing(s2, cube);
    assert(s2 * s / cube <= s2) by {
        lemma_div_nonincreasing(s2 * s, cube);
        assert(s2 * s <= s2 * cube) by (nonlinear_arith)
            requires
                0 <= s < cube,
                s2 >= 0,
        ;
        lemma_div_is_ordered(s2 * s, s2 * cube, cube);
        lemma_div_by_multiple(s2, cube);
    }
}

proof fn lemma_cube(b: int)
    requires
        b > 0,
    ensures
        pow(b, 3) == b * b * b,
        pow(b, 3) > 0,
        pow(b, 2) == b * b,
{
    digits::lemma_pow_step(b, 0);
    digits::lemma_pow_step(b, 1);
    digits::lemma_pow_step(b, 2);
    lemma_pow_positive(b, 3);
    assert(b * (b * b) == b * b * b) by (nonlinear_arith);
}

/// The affine formula: the middle three digits of both powers of `x`, as one
/// number below `B` each.
proof fn lemma_affine(x: int, cube: int)
    requires
        x >= 0,
        cube > 0,
    ensures
        ({
            let s = x % cube;
            let t = x / cube;
            &&& (x * x / cube) % cube == (s * s / cube + 2 * s * t) % cube
            &&& (x * x * x / cube) % cube == (s * s * s / cube + 3 * (s * s) * t) % cube
        }),
{
    let s = x % cube;
    let t = x / cube;
    lemma_fundamental_div_mod(x, cube);
    let j2 = 2 * s * t + cube * (t * t);
    assert(x * x == s * s + j2 * cube) by (nonlinear_arith)
        requires
            x == cube * t + s,
            j2 == 2 * s * t + cube * (t * t),
    ;
    lemma_hoist_over_denominator(s * s, j2, cube as nat);
    lemma_mod_multiples_vanish(t * t, s * s / cube + 2 * s * t, cube);
    let u = 3 * s * (t * t) + cube * (t * t * t);
    let j3 = 3 * (s * s) * t + cube * u;
    let p = s * s;
    let w = t * t;
    let y = p * t + j2 * s + cube * (j2 * t);
    assert((p + j2 * cube) * (cube * t + s) == p * s + y * cube) by {
        let l = j2 * cube;
        let r = cube * t;
        assert((p + l) * (r + s) == p * s + p * r + l * s + l * r) by (nonlinear_arith);
        assert(p * r == (p * t) * cube) by (nonlinear_arith)
            requires
                r == cube * t,
        ;
        assert(l * s == (j2 * s) * cube) by (nonlinear_arith)
            requires
                l == j2 * cube,
        ;
        assert(l * r == (cube * (j2 * t)) * cube) by (nonlinear_arith)
            requires
                l == j2 * cube,
                r == cube * t,
        ;
        lemma_mul_is_distributive_add_other_way(cube, p * t, j2 * s);
        lemma_mul_is_distributive_add_other_way(cube, p * t + j2 * s, cube * (j2 * t));
    }
    assert(j2 * s == 2 * (p * t) + cube * (s * w)) by (nonlinear_arith)
        requires
            j2 == 2 * s * t + cube * w,
            p == s * s,
    ;
    assert(j2 * t == 2 * (s * w) + cube * (w * t)) by (nonlinear_arith)
        requires
            j2 == 2 * s * t + cube * w,
            w == t * t,
    ;
    assert(cube * (s * w) + cube * (2 * (s * w) + cube * (w * t)) == cube * u)
        by (nonlinear_arith)
        requires
            u == 3 * s * w + cube * (w * t),
    ;
    assert(3 * p * t == 3 * (p * t)) by (nonlinear_arith);
    assert(x * x * x == s * s * s + j3 * cube);
    lemma_hoist_over_denominator(s * s * s, j3, cube as nat);
    lemma_mod_multiples_vanish(u, s * s * s / cube + 3 * (s * s) * t, cube);
}

/// The digits of `v mod b^3`, where `v` is `x` without its three lowest
/// digits, are the digits of `x` at positions 3 to 5.
proof fn lemma_middle_digit(x: int, b: int, q: int, i: nat)
    requires
        x >= 0,
        b >= 2,
        i < 3,
        q == (x / pow(b, 3)) % pow(b, 3),
    ensures
        digits::digit(x, b, 3 + i) == digits::digit(q, b, i),
{
    lemma_cube(b);
    lemma_div_pos_is_pos(x, pow(b, 3));
    digits::lemma_digit_shift(x, b, 3, i);
    digits::lemma_digit_low(x / pow(b, 3), b, 3, i);
}

/// The three digits of a number below `b^3`, by division.
proof fn lemma_three_digits(q: int, b: int)
    requires
        b >= 2,
        0 <= q < b * b * b,
    ensures
        digits::digit(q, b, 0) == q % b,
        digits::digit(q, b, 1) == (q / b) % b,
        digits::digit(q, b, 2) == (q / b / b) % b,
        0 <= q / b / b < b,
        (q / b / b) % b == q / b / b,
{
    lemma_cube(b);
    digits::lemma_pow_step(b, 0);
    lemma_div_basics(q);
    lemma_div_denominator(q, b, b);
    lemma_div_pos_is_pos(q, b);
    lemma_div_pos_is_pos(q / b, b);
    assert(0 < b * b) by (nonlinear_arith)
        requires
            b >= 2,
    ;
    let v = q / (b * b);
    lemma_fundamental_div_mod(q, b * b);
    lemma_mod_bound(q, b * b);
    assert(v < b) by (nonlinear_arith)
        requires
            q == (b * b) * v + q % (b * b),
            q % (b * b) >= 0,
            q < b * b * b,
            b * b > 0,
    ;
    lemma_small_mod(v as nat, b as nat);
}

/// The middle digits of a number depend on its remainder by `b^6` alone.
pub proof fn lemma_middle_periodic(n: int, b: int)
    requires
        n >= 0,
        b >= 2,
    ensures
        middle(n, b) == middle(n % pow(b, 6), b),
{
    let r = n % pow(b, 6);
    assert forall|i: int| 0 <= i < 6 implies #[trigger] middle(n, b)[i] == middle(r, b)[i] by {
        nice::lemma_low_digit_periodic(n, b, 6, (if i < 3 { 3 + i } else { i }) as nat);
    }
    assert(middle(n, b) =~= middle(r, b));
}

/// Whether digit `d` occurs in a power of `n` at a position other than the
/// middle ones.
pub open spec fn occurs_outside_middle(n: int, b: int, d: int) -> bool {
    exists|i: nat, which: int|
        {
            &&& i < 3 || i >= 6
            &&& which == 0 || which == 1
            &&& i < digits::digits(nice::power(n, which), b).len()
            &&& d == #[trigger] digits::digit(nice::power(n, which), b, i)
        }
}

/// The filter only ever rejects on a genuine repeat: when both powers of `n`
/// have their six low digits, no digit occurs twice in them, and every digit
/// of `known` stands somewhere outside the middle positions, `n` is kept.
pub proof fn lemma_rejects_only_repeats(n: int, base: u32, known: u64)
    requires
        n >= 0,
        n * n >= pow(base as int, 5),
        nice::output_digits(n, base as int).no_duplicates(),
        forall|d: int| #[trigger]
            mask::holds(known, d) ==> occurs_outside_middle(n, base as int, d),
    ensures
        keeps(base, n % pow(base as int, 6), known),
{
    let b = base as int;
    let m = middle(n, b);
    if is_specialized(base) {
        digits::lemma_digits_len(n * n, b, 5);
        nice::lemma_cube_len(n, b);
        assert forall|x: int| 0 <= x < 6 implies !mask::holds(known, #[trigger] m[x]) by {
            let d = m[x];
            if mask::holds(known, d) {
                let (i, which) = choose|i: nat, which: int|
                    {
                        &&& i < 3 || i >= 6
                        &&& which == 0 || which == 1
                        &&& i < digits::digits(nice::power(n, which), b).len()
                        &&& d == #[trigger] digits::digit(nice::power(n, which), b, i)
                    };
                let fst: int = if x < 3 { 0 } else { 1 };
                let j = (if x < 3 { 3 + x } else { x }) as nat;
                nice::lemma_nice_positions(n, b, fst, j, which, i);
            }
        }
        lemma_keeps_distinct(n, base, known);
    }
}

/// Where no digit occurs twice in the powers of `n`, its six middle digits are
/// distinct, so only `known` can make the filter reject it.
pub proof fn lemma_keeps_distinct(n: int, base: u32, known: u64)
    requires
        n >= 0,
        is_specialized(base),
        n * n >= pow(base as int, 5),
        nice::output_digits(n, base as int).no_duplicates(),
        forall|i: int|
            0 <= i < 6 ==> !mask::holds(known, #[trigger] middle(n, base as int)[i]),
    ensures
        keeps(base, n % pow(base as int, 6), known),
{
    let b = base as int;
    let m = middle(n, b);
    lemma_middle_periodic(n, b);
    digits::lemma_digits_len(n * n, b, 5);
    nice::lemma_cube_len(n, b);
    assert forall|x: int, y: int| 0 <= x < 6 && 0 <= y < 6 && x != y implies m[x] != m[y] by {
        let fst: int = if x < 3 { 0 } else { 1 };
        let snd: int = if y < 3 { 0 } else { 1 };
        let i = (if x < 3 { 3 + x } else { x }) as nat;
        let j = (if y < 3 { 3 + y } else { y }) as nat;
        nice::lemma_nice_positions(n, b, fst, i, snd, j);
    }
}

/// The six digits of a pair as [`middle_digits`] returns it, in one sequence.
pub open spec fn six_digits(pair: ([u32; 3], [u32; 3])) -> Seq<int> {
    Seq::new(6, |i: int| if i < 3 { pair.0@[i] as int } else { pair.1@[i - 3] as int })
}

/// The verdict is the one on the digits themselves: [`survives`], and with it
/// [`survives_const`] for its base, keeps a reduced candidate exactly when the
/// six digits that [`middle_digits`] returns for it are pairwise distinct and
/// avoid `known`.
pub proof fn lemma_verdict_on_digits(
    base: u32,
    nmod: u64,
    known: u64,
    pair: ([u32; 3], [u32; 3]),
)
    requires
        is_specialized(base),
        nmod < pow(base as int, 6),
        six_digits(pair) == middle(nmod as int, base as int),
    ensures
        fits_words(base as int, nmod as int),
        keeps(base, nmod as int, known) == is_clear(middle(nmod as int, base as int), known),
        keeps(base, nmod as int, known) == is_clear(six_digits(pair), known),
{
    lemma_reduced_fits(base as int, nmod as int);
}

/// Whether the affine filter has a sound, specialized path for this base and
/// stride depth. When this is false, callers must skip the filter.
pub fn supports(base: u32, k: u32) -> (r: bool)
    ensures
        r == (k == 3 && is_specialized(base)),
        r == (k == 3 && 40 <= base <= 64 && base % 5 != 1 && base != 63),
{
    k == 3 && (base == 40 || (42 <= base && base <= 45) || (47 <= base && base <= 50) || (52 <= base
        && base <= 55) || (57 <= base && base <= 60) || base == 62 || base == 64)
}

/// Test the six middle digits of `n²` and `n³` against `known`.
///
/// `nmod` is `n mod base^6` and `known` the union of the residue's low-digit
/// mask and the range's high certificate. Returns `true` when the candidate
/// survives, that is when the six digits are pairwise distinct and avoid
/// `known`.
///
/// Callers must check [`supports`] first; other bases return `true` (no
/// filtering).
pub fn survives(base: u32, nmod: u64, known: u64) -> (r: bool)
    requires
        is_specialized(base) ==> fits_words(base as int, nmod as int),
    ensures
        r == keeps(base, nmod as int, known),
        !(40 <= base <= 64 && base % 5 != 1 && base != 63) ==> r,
        ({
            let b = base as int;
            let n = nmod as int;
            40 <= base <= 64 && base % 5 != 1 && base != 63 ==> (r <==> {
                &&& forall|i: nat, j: nat|
                    #![trigger pow(b, i), pow(b, j)]
                    3 <= i < 6 && 3 <= j < 6 ==> {
                        &&& n * n / pow(b, i) % b != n * n * n / pow(b, j) % b
                        &&& i != j ==> n * n / pow(b, i) % b != n * n / pow(b, j) % b
                        &&& i != j ==> n * n * n / pow(b, i) % b != n * n * n / pow(b, j) % b
                    }
                &&& forall|i: nat|
                    #![trigger pow(b, i)]
                    3 <= i < 6 ==> {
                        &&& known & (1u64 << ((n * n / pow(b, i) % b) as u64)) == 0
                        &&& known & (1u64 << ((n * n * n / pow(b, i) % b) as u64)) == 0
                    }
            })
        }),
{
    proof {
        if 40 <= base <= 64 && base % 5 != 1 && base != 63 {
            guarantees::law_supported_bases_filter(base, nmod as int, known);
        }
    }
    match base {
        40 => survives_const::<40>(nmod, known),
        42 => survives_const::<42>(nmod, known),
        43 => survives_const::<43>(nmod, known),
        44 => survives_const::<44>(nmod, known),
        45 => survives_const::<45>(nmod, known),
        47 => survives_const::<47>(nmod, known),
        48 => survives_const::<48>(nmod, known),
        49 => survives_const::<49>(nmod, known),
        50 => survives_const::<50>(nmod, known),
        52 => survives_const::<52>(nmod, known),
        53 => survives_const::<53>(nmod, known),
        54 => survives_const::<54>(nmod, known),
        55 => survives_const::<55>(nmod, known),
        57 => survives_const::<57>(nmod, known),
        58 => survives_const::<58>(nmod, known),
        59 => survives_const::<59>(nmod, known),
        60 => survives_const::<60>(nmod, known),
        62 => survives_const::<62>(nmod, known),
        64 => survives_const::<64>(nmod, known),
        _ => true,
    }
}

/// Body of [`survives`] for a base known at compile time, so that every
/// division is by a constant.
pub fn survives_const<const BASE: u32>(nmod: u64, known: u64) -> (r: bool)
    requires
        15 <= BASE <= 64,
        fits_words(BASE as int, nmod as int),
    ensures
        r == is_clear(middle(nmod as int, BASE as int), known),
{
    let (mq, mc) = middle_masks_const::<BASE>(nmod);
    proof {
        lemma_verdict(nmod as int, BASE as int, mq, mc, known);
    }
    ((mq | mc) & known) == 0 && (mq & mc) == 0 && mask::count_digits(mq) == 3
        && mask::count_digits(mc) == 3
}

/// What the masks of the middle digits say about the digits.
proof fn lemma_verdict(x: int, b: int, mq: u64, mc: u64, known: u64)
    requires
        x >= 0,
        2 <= b <= 64,
        mask::is_mask_of(mq, middle(x, b).take(3)),
        mask::is_mask_of(mc, middle(x, b).skip(3)),
    ensures
        is_clear(middle(x, b), known) == ({
            &&& (mq | mc) & known == 0
            &&& mq & mc == 0
            &&& mask::digit_set(mq).len() == 3
            &&& mask::digit_set(mc).len() == 3
        }),
{
    let m = middle(x, b);
    let sq = m.take(3);
    let cu = m.skip(3);
    nice::lemma_powers_nonnegative(x);
    assert forall|i: int| 0 <= i < 6 implies 0 <= #[trigger] m[i] < 64 by {
        digits::lemma_digit_range(x * x, b, (3 + i) as nat);
        digits::lemma_digit_range(x * x * x, b, i as nat);
    }
    assert(forall|i: int| 0 <= i < 3 ==> sq[i] == m[i]);
    assert(forall|i: int| 0 <= i < 3 ==> cu[i] == m[i + 3]);
    mask::lemma_mask_size(mq, sq);
    mask::lemma_mask_size(mc, cu);
    mask::lemma_disjoint(mq | mc, known);
    mask::lemma_disjoint(mq, mc);
    assert forall|i: int| 0 <= i < 6 implies mask::holds(mq | mc, #[trigger] m[i]) by {
        mask::lemma_holds_bitops(mq, mc, m[i]);
        if i < 3 {
            assert(sq.contains(sq[i]));
            assert(mask::holds(mq, m[i]));
        } else {
            assert(cu.contains(cu[i - 3]));
            assert(mask::holds(mc, m[i]));
        }
    }
    assert forall|d: int| mask::holds(mq | mc, d) implies exists|i: int|
        0 <= i < 6 && #[trigger] m[i] == d by {
        mask::lemma_holds_bitops(mq, mc, d);
        if mask::holds(mq, d) {
            let i = choose|i: int| 0 <= i < sq.len() && sq[i] == d;
            assert(m[i] == d);
        } else {
            let i = choose|i: int| 0 <= i < cu.len() && cu[i] == d;
            assert(m[i + 3] == d);
        }
    }
    if m.no_duplicates() {
        assert(sq.no_duplicates());
        assert(cu.no_duplicates());
        assert forall|d: int| !(#[trigger] mask::holds(mq, d) && mask::holds(mc, d)) by {
            if mask::holds(mq, d) && mask::holds(mc, d) {
                let i = choose|i: int| 0 <= i < sq.len() && sq[i] == d;
                let j = choose|j: int| 0 <= j < cu.len() && cu[j] == d;
                assert(m[i] == m[j + 3]);
            }
        }
    }
    if sq.no_duplicates() && cu.no_duplicates() && mq & mc == 0 {
        assert forall|i: int, j: int| 0 <= i < 6 && 0 <= j < 6 && i != j implies m[i] != m[j] by {
            if i < 3 {
                assert(sq.contains(sq[i]));
                assert(mask::holds(mq, m[i]));
            } else {
                assert(cu.contains(cu[i - 3]));
                assert(mask::holds(mc, m[i]));
            }
            if j < 3 {
                assert(sq.contains(sq[j]));
                assert(mask::holds(mq, m[j]));
            } else {
                assert(cu.contains(cu[j - 3]));
                assert(mask::holds(mc, m[j]));
            }
            if i < 3 && j < 3 {
                assert(sq[i] != sq[j]);
            } else if i >= 3 && j >= 3 {
                assert(cu[i - 3] != cu[j - 3]);
            }
        }
    }
}

/// The numbers whose three digits are the middle digits of the square and of
/// the cube.
fn middle_words(base: u64, nmod: u64) -> (r: (u64, u64))
    requires
        0 < base <= u32::MAX,
        fits_words(base as int, nmod as int),
    ensures
        ({
            let x = nmod as int;
            let cube = (base * base * base) as int;
            &&& r.0 == (x * x / cube) % cube
            &&& r.1 == (x * x * x / cube) % cube
            &&& r.0 < cube
            &&& r.1 < cube
        }),
{
    proof {
        if base <= 64 && nmod < 0x1000_0000_0000 {
            lemma_small_fits_exactly(base as int, nmod as int);
        }
        let b = base as int;
        assert(b * b <= 0xffff_ffff * 0xffff_ffff) by (nonlinear_arith)
            requires
                0 < b <= 0xffff_ffff,
        ;
        assert(0 < b * b * b) by (nonlinear_arith)
            requires
                0 < b,
        ;
    }
    let bk: u64 = base * base * base;
    let suffix: u64 = nmod % bk;
    let quot: u64 = nmod / bk;
    proof {
        let s = suffix as int;
        let t = quot as int;
        lemma_affine(nmod as int, bk as int);
        if s >= 0x40_0000 {
            assert(s * s * s > 0xffff_ffff_ffff_ffff) by (nonlinear_arith)
                requires
                    s >= 0x40_0000,
            ;
        }
        assert(0 <= s * s <= 0x40_0000 * 0x40_0000) by (nonlinear_arith)
            requires
                0 <= s <= 0x40_0000,
        ;
        nice::lemma_powers_nonnegative(s);
        lemma_div_pos_is_pos(s * s, bk as int);
        lemma_div_pos_is_pos(s * s * s, bk as int);
    }
    let suffix2: u64 = suffix * suffix;
    let suffix3: u64 = suffix2 * suffix;
    let sq_mid: u64 = (suffix2 / bk + 2 * suffix * quot) % bk;
    let cu_mid: u64 = (suffix3 / bk + 3 * suffix2 * quot) % bk;
    (sq_mid, cu_mid)
}

/// Digit masks of output positions 3 to 5 of `n²` (first) and `n³` (second),
/// from `nmod = n mod BASE^6`. A repeated digit within one power shows up as
/// a mask with fewer than three bits.
fn middle_masks_const<const BASE: u32>(nmod: u64) -> (r: (u64, u64))
    requires
        2 <= BASE <= 64,
        fits_words(BASE as int, nmod as int),
    ensures
        mask::is_mask_of(r.0, middle(nmod as int, BASE as int).take(3)),
        mask::is_mask_of(r.1, middle(nmod as int, BASE as int).skip(3)),
{
    let base: u64 = BASE as u64;
    let (sq_mid, cu_mid) = middle_words(base, nmod);
    let ghost b = BASE as int;
    let ghost x = nmod as int;
    proof {
        lemma_cube(b);
        nice::lemma_powers_nonnegative(x);
        lemma_three_digits(sq_mid as int, b);
        lemma_three_digits(cu_mid as int, b);
        lemma_middle_digit(x * x, b, sq_mid as int, 0);
        lemma_middle_digit(x * x, b, sq_mid as int, 1);
        lemma_middle_digit(x * x, b, sq_mid as int, 2);
        lemma_middle_digit(x * x * x, b, cu_mid as int, 0);
        lemma_middle_digit(x * x * x, b, cu_mid as int, 1);
        lemma_middle_digit(x * x * x, b, cu_mid as int, 2);
    }
    let mask_sq: u64 = mask_of_three(sq_mid, base);
    let mask_cu: u64 = mask_of_three(cu_mid, base);
    proof {
        let m = middle(x, b);
        assert(m.take(3) =~= seq![
            digits::digit(sq_mid as int, b, 0),
            digits::digit(sq_mid as int, b, 1),
            digits::digit(sq_mid as int, b, 2),
        ]);
        assert(m.skip(3) =~= seq![
            digits::digit(cu_mid as int, b, 0),
            digits::digit(cu_mid as int, b, 1),
            digits::digit(cu_mid as int, b, 2),
        ]);
    }
    (mask_sq, mask_cu)
}

/// The mask of the three digits of a number below `base^3`.
fn mask_of_three(q: u64, base: u64) -> (m: u64)
    requires
        2 <= base <= 64,
        q < base * base * base,
    ensures
        mask::is_mask_of(
            m,
            seq![
                digits::digit(q as int, base as int, 0),
                digits::digit(q as int, base as int, 1),
                digits::digit(q as int, base as int, 2),
            ],
        ),
{
    let d0: u64 = q % base;
    let d12: u64 = q / base;
    let d1: u64 = d12 % base;
    let d2: u64 = d12 / base;
    proof {
        lemma_three_digits(q as int, base as int);
        let e = Seq::<int>::empty();
        mask::lemma_mask_of_empty();
        mask::lemma_mask_push(0, e, d0);
        assert(0u64 | (1u64 << d0) == 1u64 << d0) by (bit_vector);
        mask::lemma_mask_push(1u64 << d0, e.push(d0 as int), d1);
        mask::lemma_mask_push(
            (1u64 << d0) | (1u64 << d1),
            e.push(d0 as int).push(d1 as int),
            d2,
        );
        assert(e.push(d0 as int).push(d1 as int).push(d2 as int) =~= seq![
            d0 as int,
            d1 as int,
            d2 as int,
        ]);
    }
    (1u64 << d0) | (1u64 << d1) | (1u64 << d2)
}

/// The six middle digits themselves:
/// `(n² digits at positions 3, 4, 5, n³ digits at positions 3, 4, 5)`.
pub fn middle_digits(base: u32, nmod: u64) -> (r: ([u32; 3], [u32; 3]))
    requires
        base > 0,
        fits_words(base as int, nmod as int),
    ensures
        six_digits(r) == middle(nmod as int, base as int),
        forall|i: int|
            0 <= i < 3 ==> #[trigger] r.0@[i] == digits::digit(
                nmod * nmod,
                base as int,
                (3 + i) as nat,
            ),
        forall|i: int|
            0 <= i < 3 ==> #[trigger] r.1@[i] == digits::digit(
                nmod * nmod * nmod,
                base as int,
                (3 + i) as nat,
            ),
{
    let wide_base: u64 = base as u64;
    let (sq_mid, cu_mid) = middle_words(wide_base, nmod);
    let sq: [u32; 3] = [
        (sq_mid % wide_base) as u32,
        (sq_mid / wide_base % wide_base) as u32,
        (sq_mid / wide_base / wide_base % wide_base) as u32,
    ];
    let cu: [u32; 3] = [
        (cu_mid % wide_base) as u32,
        (cu_mid / wide_base % wide_base) as u32,
        (cu_mid / wide_base / wide_base % wide_base) as u32,
    ];
    proof {
        let b = base as int;
        let x = nmod as int;
        nice::lemma_powers_nonnegative(x);
        if b >= 2 {
            lemma_cube(b);
            lemma_three_digits(sq_mid as int, b);
            lemma_three_digits(cu_mid as int, b);
            lemma_middle_digit(x * x, b, sq_mid as int, 0);
            lemma_middle_digit(x * x, b, sq_mid as int, 1);
            lemma_middle_digit(x * x, b, sq_mid as int, 2);
            lemma_middle_digit(x * x * x, b, cu_mid as int, 0);
            lemma_middle_digit(x * x * x, b, cu_mid as int, 1);
            lemma_middle_digit(x * x * x, b, cu_mid as int, 2);
        }
    }
    (sq, cu)
}

} // verus!
