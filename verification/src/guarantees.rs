//! What the operations guarantee, in plain arithmetic: each law says what a
//! result satisfies in terms of powers, quotients, remainders and bits of its
//! inputs alone.

use vstd::arithmetic::div_mod::*;
use vstd::arithmetic::power::*;
use vstd::prelude::*;
use vstd::set_lib::*;

use crate::affine_filter;
use crate::certificate;
use crate::digits;
use crate::listing;
use crate::mask;
use crate::nice;
use crate::phase1;
use crate::phase1::{Cursor, SurvivorBufs};
use crate::stride_filter::StrideTable;
use crate::{FieldSize, NiceNumberSimple};

verus! {

/// A number has a digit at position `i` exactly when it reaches `b^i`, and
/// that digit is its quotient by `b^i`, reduced by the base.
pub proof fn law_digits(x: int, b: int, i: nat)
    requires
        x >= 0,
        b >= 2,
    ensures
        i < digits::digits(x, b).len() <==> x >= pow(b, i),
        i < digits::digits(x, b).len() ==> digits::digits(x, b)[i as int] == x / pow(b, i) % b,
{
    digits::lemma_digits_len(x, b, i);
    if i < digits::digits(x, b).len() {
        digits::lemma_digits_index(x, b, i);
    }
}

/// The digit at a position is the quotient by that power, reduced by the base,
/// also past the leading digit.
pub proof fn law_digit(x: int, b: int, i: nat)
    ensures
        digits::digit(x, b, i) == x / pow(b, i) % b,
{
}

/// The residue filter is a congruence: `n² + n³` and the sum `b (b - 1) / 2` of
/// all digits agree modulo `b - 1`.
pub proof fn law_residue_filter(n: int, b: int)
    ensures
        nice::passes_residue(n, b) <==> (n * n + n * n * n) % (b - 1) == (b * (b - 1) / 2) % (b
            - 1),
{
}

/// The low-digit filter of depth `k`, in every base: the digits of `n²` and of
/// `n³` at the positions below `k` are pairwise distinct, within each power and
/// across the two.
pub proof fn law_lsd_filter(n: int, b: int, k: nat)
    ensures
        nice::passes_lsd(n, b, k) <==> (forall|i: nat, j: nat|
            #![trigger pow(b, i), pow(b, j)]
            i < k && j < k ==> {
                &&& n * n / pow(b, i) % b != n * n * n / pow(b, j) % b
                &&& i != j ==> n * n / pow(b, i) % b != n * n / pow(b, j) % b
                &&& i != j ==> n * n * n / pow(b, i) % b != n * n * n / pow(b, j) % b
            }),
{
    let s = nice::low_digits(n, b, k);
    if nice::passes_lsd(n, b, k) {
        assert forall|i: nat, j: nat|
            #![trigger pow(b, i), pow(b, j)]
            i < k && j < k implies {
            &&& n * n / pow(b, i) % b != n * n * n / pow(b, j) % b
            &&& i != j ==> n * n / pow(b, i) % b != n * n / pow(b, j) % b
            &&& i != j ==> n * n * n / pow(b, i) % b != n * n * n / pow(b, j) % b
        } by {
            assert(s[i as int] != s[(k + j) as int]);
            assert(i != j ==> s[i as int] != s[j as int]);
            assert(i != j ==> s[(k + i) as int] != s[(k + j) as int]);
        }
    }
    if forall|i: nat, j: nat|
        #![trigger pow(b, i), pow(b, j)]
        i < k && j < k ==> {
            &&& n * n / pow(b, i) % b != n * n * n / pow(b, j) % b
            &&& i != j ==> n * n / pow(b, i) % b != n * n / pow(b, j) % b
            &&& i != j ==> n * n * n / pow(b, i) % b != n * n * n / pow(b, j) % b
        } {
        assert forall|x: int, y: int| 0 <= x < s.len() && 0 <= y < s.len() && x != y implies s[x]
            != s[y] by {
            let i = (if x < k { x } else { x - k }) as nat;
            let j = (if y < k { y } else { y - k }) as nat;
            assert(pow(b, i) == pow(b, i) && pow(b, j) == pow(b, j));
        }
    }
}

/// A candidate passes both filters: the congruence and the distinct low digits.
pub proof fn law_candidate(n: int, b: int, k: nat)
    ensures
        nice::is_candidate(n, b, k) <==> {
            &&& (n * n + n * n * n) % (b - 1) == (b * (b - 1) / 2) % (b - 1)
            &&& forall|i: nat, j: nat|
                #![trigger pow(b, i), pow(b, j)]
                i < k && j < k ==> {
                    &&& n * n / pow(b, i) % b != n * n * n / pow(b, j) % b
                    &&& i != j ==> n * n / pow(b, i) % b != n * n / pow(b, j) % b
                    &&& i != j ==> n * n * n / pow(b, i) % b != n * n * n / pow(b, j) % b
                }
        },
{
    law_residue_filter(n, b);
    law_lsd_filter(n, b, k);
}

/// Nice, for a number whose square has `l` digits and whose cube has `m`: there
/// are as many digits as the base has, and no two of them are equal.
pub proof fn law_nice(n: int, b: int, l: nat, m: nat)
    requires
        n >= 1,
        b >= 2,
        l >= 1,
        m >= 1,
        pow(b, (l - 1) as nat) <= n * n < pow(b, l),
        pow(b, (m - 1) as nat) <= n * n * n < pow(b, m),
    ensures
        nice::is_nice(n, b) <==> {
            &&& l + m == b
            &&& forall|i: nat, j: nat|
                #![trigger pow(b, i), pow(b, j)]
                i < l && j < l && i != j ==> n * n / pow(b, i) % b != n * n / pow(b, j) % b
            &&& forall|i: nat, j: nat|
                #![trigger pow(b, i), pow(b, j)]
                i < m && j < m && i != j ==> n * n * n / pow(b, i) % b != n * n * n / pow(b, j) % b
            &&& forall|i: nat, j: nat|
                #![trigger pow(b, i), pow(b, j)]
                i < l && j < m ==> n * n / pow(b, i) % b != n * n * n / pow(b, j) % b
        },
{
    let s = nice::output_digits(n, b);
    nice::lemma_powers_nonnegative(n);
    digits::lemma_digits_len(n * n, b, l);
    digits::lemma_digits_len(n * n, b, (l - 1) as nat);
    digits::lemma_digits_len(n * n * n, b, m);
    digits::lemma_digits_len(n * n * n, b, (m - 1) as nat);
    assert(s.len() == l + m);
    assert forall|i: nat| i < l implies s[i as int] == n * n / #[trigger] pow(b, i) % b by {
        digits::lemma_digits_index(n * n, b, i);
    }
    assert forall|i: nat| i < m implies s[(l + i) as int] == n * n * n / #[trigger] pow(b, i) % b by {
        digits::lemma_digits_index(n * n * n, b, i);
    }
    if nice::is_nice(n, b) {
        nice::lemma_nice_len(n, b);
        assert forall|i: nat, j: nat|
            #![trigger pow(b, i), pow(b, j)]
            i < l && j < l && i != j implies n * n / pow(b, i) % b != n * n / pow(b, j) % b by {
            assert(s[i as int] != s[j as int]);
        }
        assert forall|i: nat, j: nat|
            #![trigger pow(b, i), pow(b, j)]
            i < m && j < m && i != j implies n * n * n / pow(b, i) % b != n * n * n / pow(b, j)
            % b by {
            assert(s[(l + i) as int] != s[(l + j) as int]);
        }
        assert forall|i: nat, j: nat|
            #![trigger pow(b, i), pow(b, j)]
            i < l && j < m implies n * n / pow(b, i) % b != n * n * n / pow(b, j) % b by {
            assert(s[i as int] != s[(l + j) as int]);
        }
    }
    if {
        &&& l + m == b
        &&& forall|i: nat, j: nat|
            #![trigger pow(b, i), pow(b, j)]
            i < l && j < l && i != j ==> n * n / pow(b, i) % b != n * n / pow(b, j) % b
        &&& forall|i: nat, j: nat|
            #![trigger pow(b, i), pow(b, j)]
            i < m && j < m && i != j ==> n * n * n / pow(b, i) % b != n * n * n / pow(b, j) % b
        &&& forall|i: nat, j: nat|
            #![trigger pow(b, i), pow(b, j)]
            i < l && j < m ==> n * n / pow(b, i) % b != n * n * n / pow(b, j) % b
    } {
        assert forall|x: int, y: int| 0 <= x < s.len() && 0 <= y < s.len() && x != y implies s[x]
            != s[y] by {
            let i = (if x < l { x } else { x - l }) as nat;
            let j = (if y < l { y } else { y - l }) as nat;
            let (p, q) = (pow(b, i), pow(b, j));
        }
        nice::lemma_distinct_is_nice(n, b);
    }
}

/// Every digit of the base occurs in the output of a nice number: some position
/// `i` of the square or the cube holds it.
pub proof fn law_nice_uses_every_digit(n: int, b: int, d: int) -> (at: (bool, nat))
    requires
        n >= 0,
        b >= 2,
        nice::is_nice(n, b),
        0 <= d < b,
    ensures
        at.0 ==> n * n >= pow(b, at.1) && n * n / pow(b, at.1) % b == d,
        !at.0 ==> n * n * n >= pow(b, at.1) && n * n * n / pow(b, at.1) % b == d,
{
    let s = nice::output_digits(n, b);
    let l = digits::digits(n * n, b).len();
    nice::lemma_powers_nonnegative(n);
    assert(s.contains(d));
    let x = choose|x: int| 0 <= x < s.len() && s[x] == d;
    if x < l {
        law_digits(n * n, b, x as nat);
        (true, x as nat)
    } else {
        law_digits(n * n * n, b, (x - l) as nat);
        (false, (x - l) as nat)
    }
}

/// Zero is nice in no base.
pub proof fn law_zero_is_not_nice(b: int)
    requires
        b >= 1,
    ensures
        !nice::is_nice(0, b),
{
    if nice::is_nice(0, b) {
        assert(nice::output_digits(0, b) =~= Seq::<int>::empty());
        assert(nice::output_digits(0, b).contains(0));
    }
}

/// A mask holds a digit exactly when that bit is set.
pub proof fn law_mask_bit(mask: u64, d: u64)
    requires
        d < 64,
    ensures
        mask::holds(mask, d as int) <==> (mask >> d) & 1 == 1,
        mask::holds(mask, d as int) <==> mask & (1u64 << d) != 0,
{
    assert(mask & (1u64 << d) != 0 <==> (mask >> d) & 1 == 1) by (bit_vector)
        requires
            d < 64,
    ;
}

/// No mask holds a digit from 64 on.
pub proof fn law_mask_ends(mask: u64, d: int)
    requires
        d < 0 || d >= 64,
    ensures
        !mask::holds(mask, d),
{
}

/// The count of a mask is 0 for the empty mask and grows by one with every bit
/// that is newly set.
pub proof fn law_mask_count(mask: u64, d: u64)
    requires
        d < 64,
        (mask >> d) & 1 == 0,
    ensures
        mask::digit_set(0).len() == 0,
        mask::digit_set(mask | (1u64 << d)).len() == mask::digit_set(mask).len() + 1,
{
    law_mask_bit(mask, d);
    assert forall|e: int| !mask::holds(0, e) by {
        mask::lemma_holds_zero(e);
    }
    assert(mask::digit_set(0) =~= Set::empty());
    assert forall|e: int| mask::holds(mask | (1u64 << d), e) == (mask::holds(mask, e) || e == d) by {
        mask::lemma_holds_bitops(mask, 1u64 << d, e);
        mask::lemma_holds_bit(d, e);
    }
    lemma_int_range(0, 64);
    assert(mask::digit_set(mask).finite());
    assert(mask::digit_set(mask | (1u64 << d)) =~= mask::digit_set(mask).insert(d as int));
}

/// The bases with a specialized path: 40 to 64, but for 63 and those that leave
/// 1 by 5.
pub proof fn law_supported_bases(base: u32)
    ensures
        affine_filter::is_specialized(base) <==> 40 <= base <= 64 && base % 5 != 1 && base != 63,
{
}

/// The six middle digits: those of the square at positions 3, 4 and 5, then
/// those of the cube.
pub proof fn law_middle(n: int, b: int)
    ensures
        affine_filter::middle(n, b) == seq![
            n * n / pow(b, 3) % b,
            n * n / pow(b, 4) % b,
            n * n / pow(b, 5) % b,
            n * n * n / pow(b, 3) % b,
            n * n * n / pow(b, 4) % b,
            n * n * n / pow(b, 5) % b,
        ],
{
    assert(affine_filter::middle(n, b) =~= seq![
        n * n / pow(b, 3) % b,
        n * n / pow(b, 4) % b,
        n * n / pow(b, 5) % b,
        n * n * n / pow(b, 3) % b,
        n * n * n / pow(b, 4) % b,
        n * n * n / pow(b, 5) % b,
    ]);
}

/// Digits below 64 are clear of a mask exactly when no two of them are equal
/// and none of their bits is set.
pub proof fn law_is_clear(m: Seq<int>, known: u64)
    requires
        forall|i: int| 0 <= i < m.len() ==> 0 <= #[trigger] m[i] < 64,
    ensures
        affine_filter::is_clear(m, known) <==> {
            &&& forall|i: int, j: int|
                0 <= i < j < m.len() ==> #[trigger] m[i] != #[trigger] m[j]
            &&& forall|i: int|
                0 <= i < m.len() ==> known & (1u64 << (#[trigger] m[i] as u64)) == 0
        },
{
    if affine_filter::is_clear(m, known) {
        assert forall|i: int| 0 <= i < m.len() implies known & (1u64 << (#[trigger] m[i] as u64))
            == 0 by {
            assert(!mask::holds(known, m[i]));
        }
    }
}

/// A base without a specialized path is never filtered, whatever the candidate
/// and the known digits.
pub proof fn law_unsupported_bases_survive(base: u32, nmod: int, known: u64)
    requires
        !(40 <= base <= 64 && base % 5 != 1 && base != 63),
    ensures
        affine_filter::keeps(base, nmod, known),
{
}

/// In a base with a specialized path a candidate survives exactly when the
/// digits of its square and cube at positions 3, 4 and 5 are pairwise distinct
/// and none of their bits is set in `known`.
pub proof fn law_supported_bases_filter(base: u32, n: int, known: u64)
    requires
        40 <= base <= 64 && base % 5 != 1 && base != 63,
        n >= 0,
    ensures
        ({
            let b = base as int;
            affine_filter::keeps(base, n, known) <==> {
                &&& forall|i: nat, j: nat|
                    #![trigger pow(b, i), pow(b, j)]
                    3 <= i < 6 && 3 <= j < 6 ==> {
                        &&& n * n / pow(b, i) % b != n * n * n / pow(b, j) % b
                        &&& i != j ==> n * n / pow(b, i) % b != n * n / pow(b, j) % b
                        &&& i != j ==> n * n * n / pow(b, i) % b != n * n * n / pow(b, j) % b
                    }
                &&& forall|i: nat|
                    #![trigger pow(b, i)]
                    3 <= i < 6 ==> {
                        &&& known & (1u64 << ((n * n / pow(b, i) % b) as u64)) == 0
                        &&& known & (1u64 << ((n * n * n / pow(b, i) % b) as u64)) == 0
                    }
            }
        }),
        affine_filter::keeps(base, n % pow(base as int, 6), known) == affine_filter::keeps(
            base,
            n,
            known,
        ),
{
    let b = base as int;
    let m = affine_filter::middle(n, b);
    nice::lemma_powers_nonnegative(n);
    affine_filter::lemma_middle_periodic(n, b);
    assert forall|i: nat| 3 <= i < 6 implies {
        &&& m[i as int - 3] == n * n / #[trigger] pow(b, i) % b
        &&& m[i as int] == n * n * n / pow(b, i) % b
        &&& 0 <= m[i as int - 3] < 64
        &&& 0 <= m[i as int] < 64
    } by {
        digits::lemma_digit_range(n * n, b, i);
        digits::lemma_digit_range(n * n * n, b, i);
    }
    if affine_filter::keeps(base, n, known) {
        assert forall|i: nat, j: nat|
            #![trigger pow(b, i), pow(b, j)]
            3 <= i < 6 && 3 <= j < 6 implies {
            &&& n * n / pow(b, i) % b != n * n * n / pow(b, j) % b
            &&& i != j ==> n * n / pow(b, i) % b != n * n / pow(b, j) % b
            &&& i != j ==> n * n * n / pow(b, i) % b != n * n * n / pow(b, j) % b
        } by {
            assert(m[i as int - 3] != m[j as int]);
            assert(i != j ==> m[i as int - 3] != m[j as int - 3]);
            assert(i != j ==> m[i as int] != m[j as int]);
        }
        assert forall|i: nat|
            #![trigger pow(b, i)]
            3 <= i < 6 implies {
            &&& known & (1u64 << ((n * n / pow(b, i) % b) as u64)) == 0
            &&& known & (1u64 << ((n * n * n / pow(b, i) % b) as u64)) == 0
        } by {
            assert(!mask::holds(known, m[i as int - 3]));
            assert(!mask::holds(known, m[i as int]));
        }
    }
    if {
        &&& forall|i: nat, j: nat|
            #![trigger pow(b, i), pow(b, j)]
            3 <= i < 6 && 3 <= j < 6 ==> {
                &&& n * n / pow(b, i) % b != n * n * n / pow(b, j) % b
                &&& i != j ==> n * n / pow(b, i) % b != n * n / pow(b, j) % b
                &&& i != j ==> n * n * n / pow(b, i) % b != n * n * n / pow(b, j) % b
            }
        &&& forall|i: nat|
            #![trigger pow(b, i)]
            3 <= i < 6 ==> {
                &&& known & (1u64 << ((n * n / pow(b, i) % b) as u64)) == 0
                &&& known & (1u64 << ((n * n * n / pow(b, i) % b) as u64)) == 0
            }
    } {
        assert forall|x: int, y: int| 0 <= x < 6 && 0 <= y < 6 && x != y implies m[x]
            != m[y] by {
            let i = (if x < 3 { x + 3 } else { x }) as nat;
            let j = (if y < 3 { y + 3 } else { y }) as nat;
            let (p, q) = (pow(b, i), pow(b, j));
        }
        assert forall|x: int| 0 <= x < 6 implies !mask::holds(known, #[trigger] m[x]) by {
            let i = (if x < 3 { x + 3 } else { x }) as nat;
            let p = pow(b, i);
        }
    }
}

/// Known digits add up: a candidate survives a union of known digits exactly
/// when it survives each part.
pub proof fn law_survives_a_union(base: u32, nmod: int, a: u64, c: u64)
    ensures
        affine_filter::keeps(base, nmod, a | c) <==> affine_filter::keeps(base, nmod, a)
            && affine_filter::keeps(base, nmod, c),
{
    let m = affine_filter::middle(nmod, base as int);
    assert forall|i: int| 0 <= i < m.len() implies mask::holds(a | c, #[trigger] m[i]) == (
    mask::holds(a, m[i]) || mask::holds(c, m[i])) by {
        mask::lemma_holds_bitops(a, c, m[i]);
    }
}

/// The words of the filter hold every reduced candidate of a base up to 64.
pub proof fn law_reduced_candidates_fit(base: int, nmod: int)
    requires
        2 <= base <= 64,
        0 <= nmod < pow(base, 6),
    ensures
        affine_filter::fits_words(base, nmod),
{
    affine_filter::lemma_reduced_fits(base, nmod);
}

/// The words of the filter hold a candidate of any base when the terms of the
/// affine formula do: with `B = b^3`, `s = nmod mod B` and `t = nmod div B`, the
/// cube of `s` and the two sums `s^2 / B + 2 s t` and `s^3 / B + 3 s^2 t`.
pub proof fn law_words_fit(base: int, nmod: int)
    requires
        ({
            let cube = base * base * base;
            let s = nmod % cube;
            let t = nmod / cube;
            &&& cube <= u64::MAX
            &&& s * s * s <= u64::MAX
            &&& s * s / cube + 2 * s * t <= u64::MAX
            &&& s * s * s / cube + 3 * (s * s) * t <= u64::MAX
        }),
    ensures
        affine_filter::fits_words(base, nmod),
{
}

/// Which residues a table lists, and where: every residue below
/// `M = (b - 1) b^k` that satisfies the congruence and has distinct low digits,
/// in ascending order.
pub proof fn law_table_residues(table: StrideTable, base: u32)
    requires
        table.tabulates(base),
    ensures
        base >= 2,
        table.modulus == (base - 1) * pow(base as int, table.k as nat),
        table.gap_table@.len() == table.valid_residues@.len(),
        base <= 64 ==> table.low_digit_masks@.len() == table.valid_residues@.len(),
        base > 64 ==> table.low_digit_masks@.len() == 0,
        forall|i: int, j: int|
            0 <= i < j < table.valid_residues@.len() ==> table.valid_residues@[i]
                < table.valid_residues@[j],
        forall|r: u32| #[trigger]
            table.valid_residues@.contains(r) <==> {
                let n = r as int;
                let b = base as int;
                &&& n < table.modulus
                &&& (n * n + n * n * n) % (b - 1) == (b * (b - 1) / 2) % (b - 1)
                &&& forall|i: nat, j: nat|
                    #![trigger pow(b, i), pow(b, j)]
                    i < table.k && j < table.k ==> {
                        &&& n * n / pow(b, i) % b != n * n * n / pow(b, j) % b
                        &&& i != j ==> n * n / pow(b, i) % b != n * n / pow(b, j) % b
                        &&& i != j ==> n * n * n / pow(b, i) % b != n * n * n / pow(b, j) % b
                    }
            },
{
    let b = base as int;
    assert forall|r: u32| #[trigger] table.valid_residues@.contains(r) <==> {
        let n = r as int;
        &&& n < table.modulus
        &&& (n * n + n * n * n) % (b - 1) == (b * (b - 1) / 2) % (b - 1)
        &&& forall|i: nat, j: nat|
            #![trigger pow(b, i), pow(b, j)]
            i < table.k && j < table.k ==> {
                &&& n * n / pow(b, i) % b != n * n * n / pow(b, j) % b
                &&& i != j ==> n * n / pow(b, i) % b != n * n / pow(b, j) % b
                &&& i != j ==> n * n * n / pow(b, i) % b != n * n * n / pow(b, j) % b
            }
    } by {
        law_candidate(r as int, b, table.k as nat);
    }
}

/// The gap table: from each residue its gap leads to the next one, and from the
/// last around the modulus to the first.
pub proof fn law_table_gaps(table: StrideTable, base: u32, i: int)
    requires
        table.tabulates(base),
        0 <= i < table.valid_residues@.len(),
    ensures
        table.gap_table@.len() == table.valid_residues@.len(),
        table.gap_table@[i] > 0,
        i + 1 < table.valid_residues@.len() ==> table.valid_residues@[i] + table.gap_table@[i]
            == table.valid_residues@[i + 1],
        i + 1 == table.valid_residues@.len() ==> table.valid_residues@[i] + table.gap_table@[i]
            == table.modulus + table.valid_residues@[0],
{
    assert(table.gap_table@[i] == table.gap_table@[i]);
    if i + 1 < table.valid_residues@.len() {
        assert(table.valid_residues@[i] < table.valid_residues@[i + 1]);
    }
}

/// The mask table: above base 64 it is empty, and up to base 64 bit `d` of a
/// residue's mask is set exactly when `d` is one of the `k` low digits of its
/// square or of its cube.
pub proof fn law_table_masks(table: StrideTable, base: u32, i: int, d: u64)
    requires
        table.tabulates(base),
        0 <= i < table.valid_residues@.len(),
        d < 64,
    ensures
        base > 64 ==> table.low_digit_masks@.len() == 0,
        base <= 64 ==> table.low_digit_masks@.len() == table.valid_residues@.len(),
        base <= 64 ==> ({
            let n = table.valid_residues@[i] as int;
            let b = base as int;
            (table.low_digit_masks@[i] >> d) & 1 == 1 <==> exists|j: nat|
                #![trigger pow(b, j)]
                j < table.k && (n * n / pow(b, j) % b == d || n * n * n / pow(b, j) % b == d)
        }),
{
    if base <= 64 {
        law_low_mask(
            table.low_digit_masks@[i],
            table.valid_residues@[i] as int,
            base as int,
            table.k as nat,
            d,
        );
    }
}

/// A mask of low digits has bit `d` set exactly when `d` is one of the `k` low
/// digits of the square or of the cube.
pub proof fn law_low_mask(low: u64, n: int, b: int, k: nat, d: u64)
    requires
        mask::is_mask_of(low, nice::low_digits(n, b, k)),
        d < 64,
    ensures
        (low >> d) & 1 == 1 <==> exists|j: nat|
            {
                &&& j < k
                &&& n * n / #[trigger] pow(b, j) % b == d || n * n * n / pow(b, j) % b == d
            },
{
    let s = nice::low_digits(n, b, k);
    law_mask_bit(low, d);
    assert(mask::holds(low, d as int) <==> s.contains(d as int));
    if s.contains(d as int) {
        let x = choose|x: int| 0 <= x < s.len() && s[x] == d;
        let j = (if x < k { x } else { x - k }) as nat;
        assert(j < k && (n * n / pow(b, j) % b == d || n * n * n / pow(b, j) % b == d));
    }
    if exists|j: nat|
        {
            &&& j < k
            &&& n * n / #[trigger] pow(b, j) % b == d || n * n * n / pow(b, j) % b == d
        } {
        let j = choose|j: nat|
            {
                &&& j < k
                &&& n * n / #[trigger] pow(b, j) % b == d || n * n * n / pow(b, j) % b == d
            };
        assert(s[j as int] == d || s[(k + j) as int] == d);
    }
}

/// A mask whose bits are set exactly for the low digits is a mask of them.
pub proof fn law_low_mask_from_bits(low: u64, n: int, b: int, k: nat)
    requires
        forall|d: u64|
            d < 64 ==> (#[trigger] (low >> d) & 1 == 1 <==> exists|j: nat|
                #![trigger pow(b, j)]
                j < k && (n * n / pow(b, j) % b == d || n * n * n / pow(b, j) % b == d)),
    ensures
        mask::is_mask_of(low, nice::low_digits(n, b, k)),
{
    let s = nice::low_digits(n, b, k);
    assert forall|d: int| 0 <= d < 64 implies (#[trigger] mask::holds(low, d) <==> s.contains(
        d,
    )) by {
        let e = d as u64;
        law_mask_bit(low, e);
        assert((low >> e) & 1 == 1 <==> exists|j: nat|
            #![trigger pow(b, j)]
            j < k && (n * n / pow(b, j) % b == e || n * n * n / pow(b, j) % b == e));
        if s.contains(d) {
            let x = choose|x: int| 0 <= x < s.len() && s[x] == d;
            let j = (if x < k { x } else { x - k }) as nat;
            assert(j < k && (n * n / pow(b, j) % b == e || n * n * n / pow(b, j) % b == e));
        }
        if mask::holds(low, d) {
            let j = choose|j: nat|
                #![trigger pow(b, j)]
                j < k && (n * n / pow(b, j) % b == e || n * n * n / pow(b, j) % b == e);
            assert(s[j as int] == d || s[(k + j) as int] == d);
        }
    }
}

/// The mask of a residue is unique: two masks that hold the same low digits are
/// equal.
pub proof fn law_low_masks_agree(a: u64, c: u64, n: int, b: int, k: nat)
    requires
        mask::is_mask_of(a, nice::low_digits(n, b, k)),
        mask::is_mask_of(c, nice::low_digits(n, b, k)),
    ensures
        a == c,
{
    let s = nice::low_digits(n, b, k);
    let over = a & !c;
    let under = c & !a;
    assert forall|d: int| !mask::holds(over, d) && !mask::holds(under, d) by {
        if 0 <= d < 64 {
            let e = d as u64;
            assert(mask::holds(a, d) <==> s.contains(d));
            assert(mask::holds(c, d) <==> s.contains(d));
            assert((a & !c) & (1u64 << e) == 0 && (c & !a) & (1u64 << e) == 0) by (bit_vector)
                requires
                    e < 64,
                    a & (1u64 << e) != 0 <==> c & (1u64 << e) != 0,
            ;
        }
    }
    mask::lemma_zero_iff_empty(over);
    mask::lemma_zero_iff_empty(under);
    assert(a == c) by (bit_vector)
        requires
            a & !c == 0,
            c & !a == 0,
    ;
}

/// The numbers that a table visits, however large: those that satisfy the
/// congruence and have distinct low digits. The first valid candidate at or
/// after a start is the first such number.
pub proof fn law_table_visits(table: StrideTable, base: u32, n: int)
    requires
        table.tabulates(base),
        n >= 0,
    ensures
        ({
            let b = base as int;
            table.visits(n) <==> {
                &&& (n * n + n * n * n) % (b - 1) == (b * (b - 1) / 2) % (b - 1)
                &&& forall|i: nat, j: nat|
                    #![trigger pow(b, i), pow(b, j)]
                    i < table.k && j < table.k ==> {
                        &&& n * n / pow(b, i) % b != n * n * n / pow(b, j) % b
                        &&& i != j ==> n * n / pow(b, i) % b != n * n / pow(b, j) % b
                        &&& i != j ==> n * n * n / pow(b, i) % b != n * n * n / pow(b, j) % b
                    }
            }
        }),
        table.visits(n) <==> exists|i: int|
            0 <= i < table.valid_residues@.len() && #[trigger] table.valid_residues@[i] == n
                % table.modulus as int,
{
    table.lemma_visits_candidates(base, n);
    law_candidate(n, base as int, table.k as nat);
    lemma_mod_bound(n, table.modulus as int);
}

/// The first valid candidate at or after a start passes both filters, and no
/// number from the start up to it does.
pub proof fn law_first_valid(table: StrideTable, base: u32, start: int, first: int, x: int)
    requires
        table.tabulates(base),
        0 <= start <= first,
        table.visits(first),
        forall|y: int| start <= y < first ==> !#[trigger] table.visits(y),
        x >= 0,
    ensures
        ({
            let b = base as int;
            let n = first;
            &&& (n * n + n * n * n) % (b - 1) == (b * (b - 1) / 2) % (b - 1)
            &&& forall|i: nat, j: nat|
                    #![trigger pow(b, i), pow(b, j)]
                    i < table.k && j < table.k ==> {
                        &&& n * n / pow(b, i) % b != n * n * n / pow(b, j) % b
                        &&& i != j ==> n * n / pow(b, i) % b != n * n / pow(b, j) % b
                        &&& i != j ==> n * n * n / pow(b, i) % b != n * n * n / pow(b, j) % b
                    }
        }),
        ({
            let b = base as int;
            start <= x < first ==> !({
                &&& (x * x + x * x * x) % (b - 1) == (b * (b - 1) / 2) % (b - 1)
                &&& forall|i: nat, j: nat|
                        #![trigger pow(b, i), pow(b, j)]
                        i < table.k && j < table.k ==> {
                            &&& x * x / pow(b, i) % b != x * x * x / pow(b, j) % b
                            &&& i != j ==> x * x / pow(b, i) % b != x * x / pow(b, j) % b
                            &&& i != j ==> x * x * x / pow(b, i) % b != x * x * x / pow(b, j) % b
                        }
            })
        }),
{
    law_table_visits(table, base, first);
    law_table_visits(table, base, x);
    assert(start <= x < first ==> !table.visits(x));
}

/// A gap leads from a candidate to the next one: that passes both filters, and
/// no number between the two does.
pub proof fn law_next_candidate(table: StrideTable, base: u32, n: int, i: int, x: int)
    requires
        table.tabulates(base),
        n >= 0,
        0 <= i < table.valid_residues@.len(),
        n % table.modulus as int == table.valid_residues@[i],
        n < x <= n + table.gap_table@[i],
    ensures
        ({
            let b = base as int;
            x == n + table.gap_table@[i] <==> {
                &&& (x * x + x * x * x) % (b - 1) == (b * (b - 1) / 2) % (b - 1)
                &&& forall|i: nat, j: nat|
                        #![trigger pow(b, i), pow(b, j)]
                        i < table.k && j < table.k ==> {
                            &&& x * x / pow(b, i) % b != x * x * x / pow(b, j) % b
                            &&& i != j ==> x * x / pow(b, i) % b != x * x / pow(b, j) % b
                            &&& i != j ==> x * x * x / pow(b, i) % b != x * x * x / pow(b, j) % b
                        }
            }
        }),
{
    table.lemma_step(n, i);
    law_table_visits(table, base, x);
}

/// A mask is clear of the low digits of a number exactly when no bit of theirs
/// is set in it.
pub proof fn law_clear(n: int, b: int, depth: nat, high_mask: u64)
    requires
        n >= 0,
        2 <= b <= 64 || depth == 0,
    ensures
        certificate::clear_below(n, b, depth, high_mask) <==> (forall|i: nat|
            #![trigger pow(b, i)]
            i < depth ==> {
                &&& high_mask & (1u64 << ((n * n / pow(b, i) % b) as u64)) == 0
                &&& high_mask & (1u64 << ((n * n * n / pow(b, i) % b) as u64)) == 0
            }),
{
    nice::lemma_powers_nonnegative(n);
    assert forall|i: nat| #![trigger pow(b, i)] i < depth implies (certificate::clear_at(
        n,
        b,
        i,
        high_mask,
    ) <==> {
        &&& high_mask & (1u64 << ((n * n / pow(b, i) % b) as u64)) == 0
        &&& high_mask & (1u64 << ((n * n * n / pow(b, i) % b) as u64)) == 0
    }) by {
        digits::lemma_digit_range(n * n, b, i);
        digits::lemma_digit_range(n * n * n, b, i);
    }
    if certificate::clear_below(n, b, depth, high_mask) {
        assert forall|i: nat| #![trigger pow(b, i)] i < depth implies {
            &&& high_mask & (1u64 << ((n * n / pow(b, i) % b) as u64)) == 0
            &&& high_mask & (1u64 << ((n * n * n / pow(b, i) % b) as u64)) == 0
        } by {
            assert(certificate::clear_at(n, b, i, high_mask));
        }
    }
    if forall|i: nat|
        #![trigger pow(b, i)]
        i < depth ==> {
            &&& high_mask & (1u64 << ((n * n / pow(b, i) % b) as u64)) == 0
            &&& high_mask & (1u64 << ((n * n * n / pow(b, i) % b) as u64)) == 0
        } {
        assert forall|i: nat| i < depth implies #[trigger] certificate::clear_at(
            n,
            b,
            i,
            high_mask,
        ) by {
            let p = pow(b, i);
        }
    }
}

/// How deep a search tests digits against the high mask: not at all above base
/// 64, six positions where it may use the affine filter, has a table of depth 3
/// in a supported base and a range below `2^62`, and else as many as the table
/// is deep.
pub proof fn law_tested_depth(table: StrideTable, range: FieldSize, base: u32, use_affine: bool)
    ensures
        table.tested_depth(range, base, use_affine) == if base > 64 {
            0nat
        } else if use_affine && table.k == 3 && base >= 40 && base % 5 != 1 && base != 63
            && range.hi() - range.lo() < 0x4000_0000_0000_0000 {
            6nat
        } else {
            table.k as nat
        },
        table.is_two_phase(range, base) <==> {
            &&& table.k == 3
            &&& 40 <= base <= 64 && base % 5 != 1 && base != 63
            &&& range.hi() - range.lo() < 0x4000_0000_0000_0000
        },
{
}

/// What a search with a high mask lists: in ascending order and with as many
/// distinct digits as the base has, exactly the nice numbers of the range that
/// satisfy the congruence, have distinct low digits, and have no bit of their
/// low digits, to the tested depth, set in the mask.
pub proof fn law_masked_search(
    table: StrideTable,
    results: Seq<NiceNumberSimple>,
    range: FieldSize,
    base: u32,
    high_mask: u64,
    use_affine: bool,
    n: int,
)
    requires
        table.tabulates(base),
        listing::lists(
            results,
            base,
            range.lo(),
            range.hi(),
            |n: int|
                certificate::is_kept(
                    n,
                    base as int,
                    table.k as nat,
                    table.tested_depth(range, base, use_affine),
                    high_mask,
                ),
        ),
    ensures
        forall|i: int, j: int|
            0 <= i < j < results.len() ==> (#[trigger] results[i]).number < (
            #[trigger] results[j]).number,
        forall|i: int| 0 <= i < results.len() ==> (#[trigger] results[i]).num_uniques == base,
        ({
            let b = base as int;
            let depth = if base > 64 {
                0nat
            } else if use_affine && table.k == 3 && base >= 40 && base % 5 != 1 && base != 63
                && range.hi() - range.lo() < 0x4000_0000_0000_0000 {
                6nat
            } else {
                table.k as nat
            };
            (exists|i: int| 0 <= i < results.len() && (#[trigger] results[i]).number == n) <==> {
                &&& range.lo() <= n < range.hi()
                &&& nice::is_nice(n, b)
                &&& (n * n + n * n * n) % (b - 1) == (b * (b - 1) / 2) % (b - 1)
                &&& forall|i: nat, j: nat|
                        #![trigger pow(b, i), pow(b, j)]
                        i < table.k && j < table.k ==> {
                            &&& n * n / pow(b, i) % b != n * n * n / pow(b, j) % b
                            &&& i != j ==> n * n / pow(b, i) % b != n * n / pow(b, j) % b
                            &&& i != j ==> n * n * n / pow(b, i) % b != n * n * n / pow(b, j) % b
                        }
                &&& forall|i: nat|
                        #![trigger pow(b, i)]
                        i < depth ==> {
                            &&& high_mask & (1u64 << ((n * n / pow(b, i) % b) as u64)) == 0
                            &&& high_mask & (1u64 << ((n * n * n / pow(b, i) % b) as u64)) == 0
                        }
            }
        }),
{
    let b = base as int;
    let k = table.k as nat;
    let depth = table.tested_depth(range, base, use_affine);
    range.lemma_bounds();
    law_tested_depth(table, range, base, use_affine);
    if range.lo() <= n < range.hi() {
        law_candidate(n, b, k);
        law_clear(n, b, depth, high_mask);
    }
    assert(listing::contains_number(results, n) <==> (range.lo() <= n < range.hi()
        && certificate::is_kept(n, b, k, depth, high_mask)));
}

/// What a search without a mask lists: in ascending order and with as many
/// distinct digits as the base has, exactly the nice numbers of the range that
/// satisfy the congruence and have distinct low digits.
pub proof fn law_search(
    table: StrideTable,
    results: Seq<NiceNumberSimple>,
    range: FieldSize,
    base: u32,
    n: int,
)
    requires
        table.tabulates(base),
        listing::lists(
            results,
            base,
            range.lo(),
            range.hi(),
            |n: int|
                nice::is_candidate(n, base as int, table.k as nat) && nice::is_nice(
                    n,
                    base as int,
                ),
        ),
    ensures
        forall|i: int, j: int|
            0 <= i < j < results.len() ==> (#[trigger] results[i]).number < (
            #[trigger] results[j]).number,
        forall|i: int| 0 <= i < results.len() ==> (#[trigger] results[i]).num_uniques == base,
        ({
            let b = base as int;
            (exists|i: int| 0 <= i < results.len() && (#[trigger] results[i]).number == n) <==> {
                &&& range.lo() <= n < range.hi()
                &&& nice::is_nice(n, b)
                &&& (n * n + n * n * n) % (b - 1) == (b * (b - 1) / 2) % (b - 1)
                &&& forall|i: nat, j: nat|
                    #![trigger pow(b, i), pow(b, j)]
                    i < table.k && j < table.k ==> {
                        &&& n * n / pow(b, i) % b != n * n * n / pow(b, j) % b
                        &&& i != j ==> n * n / pow(b, i) % b != n * n / pow(b, j) % b
                        &&& i != j ==> n * n * n / pow(b, i) % b != n * n * n / pow(b, j) % b
                    }
            }
        }),
{
    let b = base as int;
    let k = table.k as nat;
    law_candidate(n, b, k);
    assert(listing::contains_number(results, n) <==> (range.lo() <= n < range.hi()
        && nice::is_candidate(n, b, k) && nice::is_nice(n, b)));
}

/// A search without a mask misses no nice number of the range when its table is
/// no deeper than two fifths of the base.
pub proof fn law_search_misses_none(
    table: StrideTable,
    results: Seq<NiceNumberSimple>,
    range: FieldSize,
    base: u32,
    n: int,
)
    requires
        table.tabulates(base),
        listing::lists(
            results,
            base,
            range.lo(),
            range.hi(),
            |n: int|
                nice::is_candidate(n, base as int, table.k as nat) && nice::is_nice(
                    n,
                    base as int,
                ),
        ),
        5 * table.k <= 2 * base + 3 || n * n >= pow(base as int, table.k as nat),
        range.lo() <= n < range.hi(),
        nice::is_nice(n, base as int),
    ensures
        exists|i: int| 0 <= i < results.len() && (#[trigger] results[i]).number == n,
{
    let b = base as int;
    range.lemma_bounds();
    nice::lemma_powers_nonnegative(n);
    digits::lemma_digits_len(n * n, b, table.k as nat);
    nice::lemma_nice_is_candidate(n, b, table.k as nat);
    assert(listing::contains_number(results, n));
}

/// A masked search misses no nice number that has each digit of the mask at a
/// position beyond those tested.
pub proof fn law_masked_search_misses_none(
    table: StrideTable,
    results: Seq<NiceNumberSimple>,
    range: FieldSize,
    base: u32,
    high_mask: u64,
    use_affine: bool,
    n: int,
)
    requires
        table.tabulates(base),
        listing::lists(
            results,
            base,
            range.lo(),
            range.hi(),
            |n: int|
                certificate::is_kept(
                    n,
                    base as int,
                    table.k as nat,
                    table.tested_depth(range, base, use_affine),
                    high_mask,
                ),
        ),
        5 * table.k <= 2 * base + 3 || n * n >= pow(base as int, table.k as nat),
        range.lo() <= n < range.hi(),
        nice::is_nice(n, base as int),
        ({
            let b = base as int;
            let depth = if base > 64 {
                0nat
            } else if use_affine && table.k == 3 && base >= 40 && base % 5 != 1 && base != 63
                && range.hi() - range.lo() < 0x4000_0000_0000_0000 {
                6nat
            } else {
                table.k as nat
            };
            forall|d: u64|
                d < 64 && high_mask & #[trigger] (1u64 << d) != 0 ==> exists|i: nat|
                    #![trigger pow(b, i)]
                    i >= depth && {
                        ||| n * n >= pow(b, i) && n * n / pow(b, i) % b == d
                        ||| n * n * n >= pow(b, i) && n * n * n / pow(b, i) % b == d
                    }
        }),
    ensures
        exists|i: int| 0 <= i < results.len() && (#[trigger] results[i]).number == n,
{
    let b = base as int;
    let k = table.k as nat;
    let depth = table.tested_depth(range, base, use_affine);
    range.lemma_bounds();
    law_tested_depth(table, range, base, use_affine);
    nice::lemma_powers_nonnegative(n);
    digits::lemma_digits_len(n * n, b, k);
    nice::lemma_nice_is_candidate(n, b, k);
    if depth == k && n * n >= pow(b, k) && k > 0 {
        lemma_pow_increases(b as nat, (k - 1) as nat, k);
    }
    assert(nice::has_long_squares(n, b, depth));
    assert forall|x: int, d: int|
        n <= x < n + 1 && mask::holds(high_mask, d) implies #[trigger] certificate::occurs_from(
        x,
        b,
        depth,
        d,
    ) by {
        let e = d as u64;
        assert(high_mask & (1u64 << e) != 0);
        let i = choose|i: nat|
            #![trigger pow(b, i)]
            i >= depth && {
                ||| n * n >= pow(b, i) && n * n / pow(b, i) % b == e
                ||| n * n * n >= pow(b, i) && n * n * n / pow(b, i) % b == e
            };
        digits::lemma_digits_len(n * n, b, i);
        digits::lemma_digits_len(n * n * n, b, i);
        let which: int = if n * n >= pow(b, i) && n * n / pow(b, i) % b == e {
            0
        } else {
            1
        };
        assert(d == digits::digit(nice::power(n, which), b, i));
    }
    certificate::lemma_certified_is_clear(n, b, depth, high_mask);
    assert(certificate::is_kept(n, b, k, depth, high_mask));
    assert(listing::contains_number(results, n));
}

/// A table visits a number exactly when it lists the remainder of the number by
/// the modulus.
pub proof fn law_visits(table: StrideTable, n: int)
    requires
        table.is_cycle(),
    ensures
        table.visits(n) <==> exists|i: int|
            0 <= i < table.valid_residues@.len() && #[trigger] table.valid_residues@[i] == n
                % table.modulus as int,
{
    lemma_mod_bound(n, table.modulus as int);
}

/// A table that lists a residue reaches a `u128` from `x` on exactly when it
/// visits one there, and always when a turn around it fits.
pub proof fn law_reaches(table: StrideTable, x: int)
    requires
        table.is_cycle(),
        table.valid_residues@.len() > 0,
        x >= 0,
    ensures
        table.reaches(x) <==> exists|n: u128| x <= n && #[trigger] table.visits(n as int),
        x + table.modulus <= u128::MAX ==> table.reaches(x),
{
    if x + table.modulus <= u128::MAX {
        let m = table.modulus as int;
        let r = table.valid_residues@[0] as int;
        lemma_mod_bound(r - x, m);
        lemma_add_mod_noop_right(x, r - x, m);
        lemma_small_mod(r as nat, m as nat);
        let n = (x + (r - x) % m) as u128;
        assert(n as int % m == r);
        assert(table.valid_residues@.contains(r as u32));
        assert(x <= n && table.visits(n as int));
    }
}

/// When a search can run: the table lists some residue, and some number that it
/// visits, at or after the start of the range for the walk in offsets and at or
/// after its end for the other, fits in a `u128`.
pub proof fn law_can_walk(table: StrideTable, range: FieldSize, base: u32, use_affine: bool)
    requires
        table.tabulates(base),
    ensures
        ({
            let from = if use_affine && table.k == 3 && 40 <= base <= 64 && base % 5 != 1 && base != 63
                && range.hi() - range.lo() < 0x4000_0000_0000_0000 {
                range.lo()
            } else {
                range.hi()
            };
            &&& table.can_walk(range, base, use_affine) <==> {
                &&& table.valid_residues@.len() > 0
                &&& exists|n: u128| from <= n && #[trigger] table.visits(n as int)
            }
            &&& table.valid_residues@.len() > 0 && from + table.modulus <= u128::MAX
                ==> table.can_walk(range, base, use_affine)
        }),
{
    let from = if use_affine && table.is_two_phase(range, base) {
        range.lo()
    } else {
        range.hi()
    };
    range.lemma_bounds();
    law_tested_depth(table, range, base, use_affine);
    if table.valid_residues@.len() > 0 {
        law_reaches(table, from);
    }
}

/// The cross-end survivors of a range: the numbers that satisfy the congruence,
/// have distinct low digits, and have no bit of those digits set in the mask.
pub proof fn law_cross_end(lo: int, hi: int, b: int, k: nat, high_mask: u64, n: int)
    requires
        lo >= 0,
        2 <= b <= 64,
    ensures
        certificate::cross_end_survivors(lo, hi, b, k, high_mask).contains(n) <==> {
            &&& lo <= n < hi
            &&& (n * n + n * n * n) % (b - 1) == (b * (b - 1) / 2) % (b - 1)
            &&& forall|i: nat, j: nat|
                #![trigger pow(b, i), pow(b, j)]
                i < k && j < k ==> {
                    &&& n * n / pow(b, i) % b != n * n * n / pow(b, j) % b
                    &&& i != j ==> n * n / pow(b, i) % b != n * n / pow(b, j) % b
                    &&& i != j ==> n * n * n / pow(b, i) % b != n * n * n / pow(b, j) % b
                }
            &&& forall|i: nat|
                #![trigger pow(b, i)]
                i < k ==> {
                    &&& high_mask & (1u64 << ((n * n / pow(b, i) % b) as u64)) == 0
                    &&& high_mask & (1u64 << ((n * n * n / pow(b, i) % b) as u64)) == 0
                }
        },
{
    if lo <= n < hi {
        law_candidate(n, b, k);
        law_clear(n, b, k, high_mask);
    }
}

/// Steps along the gap table: none leads nowhere, and one more adds the gap of
/// the residue it starts from, around the table.
pub proof fn law_reach(gaps: Seq<u32>, idx: int, m: nat)
    ensures
        phase1::reach(gaps, idx, 0) == 0,
        phase1::reach(gaps, idx, m + 1) == phase1::reach(gaps, idx, m) + gaps[(idx + m) % (
        gaps.len() as int)],
{
}

/// Candidate `j` of a walk lies `j` gaps past the cursor, and comes with its
/// remainder and with the mask of its residue.
pub proof fn law_walk_candidate(gaps: Seq<u32>, masks: Seq<u64>, cur: Cursor, b2k: u64, j: nat)
    ensures
        ({
            let c = phase1::candidate(gaps, masks, cur, b2k, j);
            let far = phase1::reach(gaps, cur.idx as int, j);
            &&& c.off == cur.off + far
            &&& c.nmod == (cur.nmod + far) % (b2k as int)
            &&& c.low == masks[(cur.idx + j) % (gaps.len() as int)]
        }),
{
}

/// What one more candidate adds to the survivors of a walk: itself, as its
/// offset, its remainder and its mask, when it lies in the range and its mask
/// meets no bit of the high mask, and else nothing.
pub proof fn law_survivors(
    gaps: Seq<u32>,
    masks: Seq<u64>,
    cur: Cursor,
    end_off: u64,
    b2k: u64,
    high_mask: u64,
    m: nat,
)
    ensures
        phase1::survivors(gaps, masks, cur, end_off, b2k, high_mask, 0).len() == 0,
        ({
            let before = phase1::survivors(gaps, masks, cur, end_off, b2k, high_mask, m);
            let after = phase1::survivors(gaps, masks, cur, end_off, b2k, high_mask, m + 1);
            let far = phase1::reach(gaps, cur.idx as int, m);
            let low = masks[(cur.idx + m) % (gaps.len() as int)];
            if cur.off + far < end_off && low & high_mask == 0 {
                &&& after.len() == before.len() + 1
                &&& after.drop_last() == before
                &&& after.last().off == cur.off + far
                &&& after.last().nmod == (cur.nmod + far) % (b2k as int)
                &&& after.last().low == low
            } else {
                after == before
            }
        }),
{
    let before = phase1::survivors(gaps, masks, cur, end_off, b2k, high_mask, m);
    let after = phase1::survivors(gaps, masks, cur, end_off, b2k, high_mask, m + 1);
    if after.len() > before.len() {
        assert(after.drop_last() =~= before);
    }
}

/// What a call of phase 1 over `m` candidates leaves: the survivors in the
/// buffers from slot `cnt` on, their number added to the count, and the cursor
/// `m` steps on.
pub proof fn law_phase1_call(
    gaps: Seq<u32>,
    masks: Seq<u64>,
    cur: Cursor,
    end_off: u64,
    b2k: u64,
    high_mask: u64,
    bufs: SurvivorBufs,
    cnt: usize,
    m: nat,
    r: (usize, Cursor),
)
    requires
        phase1::is_walked(gaps, masks, cur, end_off, b2k, high_mask, bufs, cnt, m, r),
    ensures
        ({
            let s = phase1::survivors(gaps, masks, cur, end_off, b2k, high_mask, m);
            let far = phase1::reach(gaps, cur.idx as int, m);
            &&& r.0 == cnt + s.len()
            &&& r.1.idx == (cur.idx + m) % (gaps.len() as int)
            &&& r.1.off == cur.off + far
            &&& r.1.nmod == (cur.nmod + far) % (b2k as int)
            &&& forall|i: int|
                0 <= i < s.len() ==> {
                    &&& bufs.offs@[cnt + i] == (#[trigger] s[i]).off
                    &&& bufs.nmods@[cnt + i] == s[i].nmod
                    &&& bufs.lows@[cnt + i] == s[i].low
                }
        }),
{
    let s = phase1::survivors(gaps, masks, cur, end_off, b2k, high_mask, m);
    assert forall|i: int| 0 <= i < s.len() implies {
        &&& bufs.offs@[cnt + i] == (#[trigger] s[i]).off
        &&& bufs.nmods@[cnt + i] == s[i].nmod
        &&& bufs.lows@[cnt + i] == s[i].low
    } by {
        assert(bufs.entry(cnt + i) == s[i]);
    }
}

/// Every candidate of a call that lies in the range and meets no bit of the
/// high mask is in some slot.
pub proof fn law_phase1_keeps(
    gaps: Seq<u32>,
    masks: Seq<u64>,
    cur: Cursor,
    end_off: u64,
    b2k: u64,
    high_mask: u64,
    bufs: SurvivorBufs,
    cnt: usize,
    m: nat,
    r: (usize, Cursor),
    j: nat,
) -> (slot: int)
    requires
        phase1::is_walked(gaps, masks, cur, end_off, b2k, high_mask, bufs, cnt, m, r),
        j < m,
        cur.off + phase1::reach(gaps, cur.idx as int, j) < end_off,
        masks[(cur.idx + j) % (gaps.len() as int)] & high_mask == 0,
    ensures
        cnt <= slot < r.0,
        bufs.offs@[slot] == cur.off + phase1::reach(gaps, cur.idx as int, j),
        bufs.nmods@[slot] == (cur.nmod + phase1::reach(gaps, cur.idx as int, j)) % (b2k as int),
        bufs.lows@[slot] == masks[(cur.idx + j) % (gaps.len() as int)],
{
    law_phase1_call(gaps, masks, cur, end_off, b2k, high_mask, bufs, cnt, m, r);
    let i = phase1::lemma_survivor_kept(gaps, masks, cur, end_off, b2k, high_mask, m, j);
    cnt + i
}

/// Every slot of a call holds a candidate that lies in the range and meets no
/// bit of the high mask.
pub proof fn law_phase1_keeps_nothing_else(
    gaps: Seq<u32>,
    masks: Seq<u64>,
    cur: Cursor,
    end_off: u64,
    b2k: u64,
    high_mask: u64,
    bufs: SurvivorBufs,
    cnt: usize,
    m: nat,
    r: (usize, Cursor),
    slot: int,
) -> (j: nat)
    requires
        phase1::is_walked(gaps, masks, cur, end_off, b2k, high_mask, bufs, cnt, m, r),
        cnt <= slot < r.0,
    ensures
        j < m,
        bufs.offs@[slot] == cur.off + phase1::reach(gaps, cur.idx as int, j),
        bufs.nmods@[slot] == (cur.nmod + phase1::reach(gaps, cur.idx as int, j)) % (b2k as int),
        bufs.lows@[slot] == masks[(cur.idx + j) % (gaps.len() as int)],
        bufs.offs@[slot] < end_off,
        bufs.lows@[slot] & high_mask == 0,
{
    law_phase1_call(gaps, masks, cur, end_off, b2k, high_mask, bufs, cnt, m, r);
    let s = phase1::survivors(gaps, masks, cur, end_off, b2k, high_mask, m);
    let j = phase1::lemma_survivor_source(
        gaps,
        masks,
        cur,
        end_off,
        b2k,
        high_mask,
        m,
        slot - cnt,
    );
    assert(bufs.offs@[cnt + (slot - cnt)] == s[slot - cnt].off);
    j
}

/// Phase 1 takes every reduced cursor on tables whose gaps are at most the
/// modulus, when a word has room for any gap above the range and the modulus,
/// or for each gap where the walk takes it. It takes them in groups when one
/// turn around the table is at most the modulus as well, and there is room for
/// sixteen gaps.
pub proof fn law_walks_are_allowed(
    gaps: Seq<u32>,
    masks: Seq<u64>,
    cur: Cursor,
    end_off: u64,
    b2k: u64,
    steps: nat,
)
    requires
        0 < gaps.len() == masks.len(),
        cur.idx < gaps.len(),
        cur.nmod < b2k,
        forall|i: int| 0 <= i < gaps.len() ==> #[trigger] gaps[i] <= b2k,
    ensures
        phase1::is_placed(gaps, masks, cur, b2k),
        (forall|i: int|
            0 <= i < gaps.len() ==> {
                &&& end_off + #[trigger] gaps[i] <= 0x1_0000_0000_0000_0000
                &&& b2k + gaps[i] <= 0x1_0000_0000_0000_0000
            }) ==> phase1::stays_in_words(gaps, cur, end_off, b2k, steps),
        (forall|m: nat|
            m < steps && cur.off + #[trigger] phase1::reach(gaps, cur.idx as int, m) < end_off
                ==> {
                let far = phase1::reach(gaps, cur.idx as int, m);
                let gap = gaps[(cur.idx + m) % (gaps.len() as int)];
                &&& cur.off + far + gap <= u64::MAX
                &&& (cur.nmod + far) % (b2k as int) + gap <= u64::MAX
            }) ==> phase1::stays_in_words(gaps, cur, end_off, b2k, steps),
        end_off <= 0xffff_fff0_0000_0000 && b2k <= 0xffff_fff0_0000_0000 && phase1::reach(
            gaps,
            0,
            gaps.len(),
        ) <= b2k ==> phase1::takes_groups(gaps, end_off, b2k),
{
}

/// What phase 1 hands on of a range of a table: in ascending order the offsets
/// of exactly the numbers that satisfy the congruence, have distinct low digits
/// and have no bit of those digits set in the mask, each with its remainder and
/// with the mask of its low digits.
pub proof fn law_handed_on(
    table: StrideTable,
    s: Seq<phase1::Survivor>,
    base: u32,
    lo: int,
    hi: int,
    b2k: u64,
    high_mask: u64,
    n: int,
)
    requires
        table.tabulates(base),
        base <= 64,
        lo >= 0,
        table.is_handed_on(s, base, lo, hi, b2k, high_mask),
    ensures
        forall|i: int, j: int| 0 <= i < j < s.len() ==> s[i].off < s[j].off,
        ({
            let b = base as int;
            (exists|i: int| 0 <= i < s.len() && lo + (#[trigger] s[i]).off == n) <==> {
                &&& lo <= n < hi
                &&& (n * n + n * n * n) % (b - 1) == (b * (b - 1) / 2) % (b - 1)
                &&& forall|i: nat, j: nat|
                    #![trigger pow(b, i), pow(b, j)]
                    i < table.k && j < table.k ==> {
                        &&& n * n / pow(b, i) % b != n * n * n / pow(b, j) % b
                        &&& i != j ==> n * n / pow(b, i) % b != n * n / pow(b, j) % b
                        &&& i != j ==> n * n * n / pow(b, i) % b != n * n * n / pow(b, j) % b
                    }
                &&& forall|i: nat|
                    #![trigger pow(b, i)]
                    i < table.k ==> {
                        &&& high_mask & (1u64 << ((n * n / pow(b, i) % b) as u64)) == 0
                        &&& high_mask & (1u64 << ((n * n * n / pow(b, i) % b) as u64)) == 0
                    }
            }
        }),
        forall|i: int|
            0 <= i < s.len() && lo + (#[trigger] s[i]).off == n ==> {
                &&& s[i].nmod == n % (b2k as int)
                &&& s[i].low & high_mask == 0
                &&& forall|d: u64|
                    d < 64 ==> ((s[i].low >> d) & 1 == 1 <==> exists|j: nat|
                        #![trigger pow(base as int, j)]
                        j < table.k && {
                            ||| n * n / pow(base as int, j) % (base as int) == d
                            ||| n * n * n / pow(base as int, j) % (base as int) == d
                        })
            },
{
    let b = base as int;
    let k = table.k as nat;
    law_cross_end(lo, hi, b, k, high_mask, n);
    if exists|i: int| 0 <= i < s.len() && lo + (#[trigger] s[i]).off == n {
        let i = choose|i: int| 0 <= i < s.len() && lo + (#[trigger] s[i]).off == n;
        assert(certificate::cross_end_survivors(lo, hi, b, k, high_mask).contains(lo + s[i].off));
    }
    assert forall|i: int| 0 <= i < s.len() && lo + (#[trigger] s[i]).off == n implies {
        &&& s[i].nmod == n % (b2k as int)
        &&& s[i].low & high_mask == 0
        &&& forall|d: u64|
            d < 64 ==> ((s[i].low >> d) & 1 == 1 <==> exists|j: nat|
                #![trigger pow(base as int, j)]
                j < table.k && {
                    ||| n * n / pow(base as int, j) % (base as int) == d
                    ||| n * n * n / pow(base as int, j) % (base as int) == d
                })
    } by {
        assert forall|d: u64| d < 64 implies ((s[i].low >> d) & 1 == 1 <==> exists|j: nat|
            #![trigger pow(base as int, j)]
            j < table.k && {
                ||| n * n / pow(base as int, j) % (base as int) == d
                ||| n * n * n / pow(base as int, j) % (base as int) == d
            }) by {
            law_low_mask(s[i].low, n, b, k, d);
        }
    }
}

} // verus!
