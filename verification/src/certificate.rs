//! Cross-end masks: digits that are certain to stand high up in the output,
//! and what a search may conclude from meeting one of them lower down.

use vstd::arithmetic::power::*;
use vstd::prelude::*;
use vstd::set_lib::*;

use crate::affine_filter;
use crate::digits;
use crate::listing;
use crate::mask;
use crate::nice;
use crate::NiceNumberSimple;

verus! {

/// Whether no digit that the powers of `n` have at position `i` is in `mask`.
pub open spec fn clear_at(n: int, b: int, i: nat, mask: u64) -> bool {
    !mask::holds(mask, digits::digit(n * n, b, i)) && !mask::holds(
        mask,
        digits::digit(n * n * n, b, i),
    )
}

/// Whether no digit that the powers of `n` have below position `depth` is in
/// `mask`.
pub open spec fn clear_below(n: int, b: int, depth: nat, mask: u64) -> bool {
    forall|i: nat| i < depth ==> #[trigger] clear_at(n, b, i, mask)
}

/// Whether a masked search keeps `n`: it is a nice candidate whose low digits,
/// up to position `depth`, avoid the high mask.
pub open spec fn is_kept(n: int, b: int, k: nat, depth: nat, high_mask: u64) -> bool {
    &&& nice::is_candidate(n, b, k)
    &&& nice::is_nice(n, b)
    &&& clear_below(n, b, depth, high_mask)
}

/// Whether digit `d` occurs in a power of `n` at position `depth` or above.
pub open spec fn occurs_from(n: int, b: int, depth: nat, d: int) -> bool {
    exists|i: nat, which: int|
        {
            &&& i >= depth
            &&& which == 0 || which == 1
            &&& i < digits::digits(nice::power(n, which), b).len()
            &&& d == #[trigger] digits::digit(nice::power(n, which), b, i)
        }
}

/// Whether every digit of `high_mask` occupies some output position from
/// `depth` on, for every number from `lo` up to `hi`.
pub open spec fn certifies(high_mask: u64, b: int, lo: int, hi: int, depth: nat) -> bool {
    forall|n: int, d: int|
        lo <= n < hi && mask::holds(high_mask, d) ==> #[trigger] occurs_from(n, b, depth, d)
}

/// A certified mask never drops a nice number: a digit of the mask that also
/// stood below `depth` would occupy two positions.
pub proof fn lemma_certified_is_clear(n: int, b: int, depth: nat, high_mask: u64)
    requires
        n >= 0,
        b >= 2,
        nice::is_nice(n, b),
        nice::has_long_squares(n, b, depth),
        certifies(high_mask, b, n, n + 1, depth),
    ensures
        clear_below(n, b, depth, high_mask),
{
    nice::lemma_long_square(n, n, b, depth);
    assert forall|i: nat| i < depth implies #[trigger] clear_at(n, b, i, high_mask) by {
        lemma_certified_position(n, b, depth, high_mask, i, 0);
        lemma_certified_position(n, b, depth, high_mask, i, 1);
    }
}

proof fn lemma_certified_position(
    n: int,
    b: int,
    depth: nat,
    high_mask: u64,
    i: nat,
    which: int,
)
    requires
        n >= 0,
        b >= 2,
        nice::is_nice(n, b),
        which == 0 || which == 1,
        i < depth,
        i < digits::digits(nice::power(n, which), b).len(),
        certifies(high_mask, b, n, n + 1, depth),
    ensures
        !mask::holds(high_mask, digits::digit(nice::power(n, which), b, i)),
{
    let d = digits::digit(nice::power(n, which), b, i);
    if mask::holds(high_mask, d) {
        assert(occurs_from(n, b, depth, d));
        let (j, other) = choose|j: nat, other: int|
            {
                &&& j >= depth
                &&& other == 0 || other == 1
                &&& j < digits::digits(nice::power(n, other), b).len()
                &&& d == #[trigger] digits::digit(nice::power(n, other), b, j)
            };
        nice::lemma_nice_positions(n, b, which, i, other, j);
    }
}

/// Under a certificate the kept numbers are exactly the nice numbers.
pub proof fn lemma_certified_keeps_nice(
    b: int,
    k: nat,
    depth: nat,
    high_mask: u64,
    lo: int,
    hi: int,
)
    requires
        lo >= 0,
        b >= 2,
        nice::has_long_squares(lo, b, k),
        nice::has_long_squares(lo, b, depth),
        certifies(high_mask, b, lo, hi, depth),
    ensures
        forall|n: int|
            lo <= n < hi ==> (#[trigger] is_kept(n, b, k, depth, high_mask) <==> nice::is_nice(
                n,
                b,
            )),
{
    assert forall|n: int| lo <= n < hi implies (#[trigger] is_kept(n, b, k, depth, high_mask)
        <==> nice::is_nice(n, b)) by {
        if nice::is_nice(n, b) {
            nice::lemma_long_square(n, lo, b, k);
            nice::lemma_nice_is_candidate(n, b, k);
            lemma_squares_stay_long(n, b, lo, depth);
            lemma_certified_is_clear(n, b, depth, high_mask);
        }
    }
}

/// Squares that are long enough from `lo` on are so from any later number on.
proof fn lemma_squares_stay_long(n: int, b: int, lo: int, depth: nat)
    requires
        0 <= lo <= n,
        nice::has_long_squares(lo, b, depth),
    ensures
        nice::has_long_squares(n, b, depth),
{
    assert(lo * lo <= n * n) by (nonlinear_arith)
        requires
            0 <= lo <= n,
    ;
}

/// A certificate from a higher position on is one from a lower position on.
pub proof fn lemma_certificate_weakens(
    high_mask: u64,
    b: int,
    lo: int,
    hi: int,
    depth: nat,
    deeper: nat,
)
    requires
        depth <= deeper,
        certifies(high_mask, b, lo, hi, deeper),
    ensures
        certifies(high_mask, b, lo, hi, depth),
{
    assert forall|n: int, d: int|
        lo <= n < hi && mask::holds(high_mask, d) implies #[trigger] occurs_from(
        n,
        b,
        depth,
        d,
    ) by {
        assert(occurs_from(n, b, deeper, d));
        let (i, which) = choose|i: nat, which: int|
            {
                &&& i >= deeper
                &&& which == 0 || which == 1
                &&& i < digits::digits(nice::power(n, which), b).len()
                &&& d == #[trigger] digits::digit(nice::power(n, which), b, i)
            };
        assert(d == digits::digit(nice::power(n, which), b, i));
    }
}

/// Whatever the mask, testing more positions changes nothing exactly when
/// every number that is kept without the further tests passes them too.
pub proof fn lemma_filter_agrees_exactly(
    with: Seq<NiceNumberSimple>,
    without: Seq<NiceNumberSimple>,
    base: u32,
    k: nat,
    lo: int,
    hi: int,
    high_mask: u64,
    depth: nat,
    deeper: nat,
)
    requires
        depth <= deeper,
        listing::lists(
            with,
            base,
            lo,
            hi,
            |n: int| is_kept(n, base as int, k, deeper, high_mask),
        ),
        listing::lists(
            without,
            base,
            lo,
            hi,
            |n: int| is_kept(n, base as int, k, depth, high_mask),
        ),
    ensures
        with == without <==> forall|n: int|
            lo <= n < hi && #[trigger] is_kept(n, base as int, k, depth, high_mask) ==> is_kept(
                n,
                base as int,
                k,
                deeper,
                high_mask,
            ),
{
    let b = base as int;
    let p = |n: int| is_kept(n, b, k, deeper, high_mask);
    let q = |n: int| is_kept(n, b, k, depth, high_mask);
    if forall|n: int|
        lo <= n < hi && #[trigger] is_kept(n, b, k, depth, high_mask) ==> is_kept(
            n,
            b,
            k,
            deeper,
            high_mask,
        ) {
        assert forall|n: int| lo <= n < hi implies #[trigger] p(n) == #[trigger] q(n) by {
            assert(is_kept(n, b, k, deeper, high_mask) ==> is_kept(n, b, k, depth, high_mask));
        }
        listing::lemma_lists_unique(with, without, base, lo, hi, p, q);
    }
    if with == without {
        assert forall|n: int| lo <= n < hi && #[trigger] is_kept(n, b, k, depth, high_mask) implies is_kept(
            n,
            b,
            k,
            deeper,
            high_mask,
        ) by {
            assert(q(n));
            assert(listing::contains_number(without, n));
            assert(p(n));
        }
    }
}

/// The filtered and the unfiltered search list the same numbers, whatever
/// positions each tests, as long as the high mask is certified from the
/// higher of the two on.
pub proof fn lemma_filter_changes_nothing(
    with: Seq<NiceNumberSimple>,
    without: Seq<NiceNumberSimple>,
    base: u32,
    k: nat,
    lo: int,
    hi: int,
    high_mask: u64,
    depth: nat,
    deeper: nat,
)
    requires
        lo >= 0,
        base >= 2,
        depth <= deeper,
        nice::has_long_squares(lo, base as int, deeper),
        certifies(high_mask, base as int, lo, hi, deeper),
        listing::lists(
            with,
            base,
            lo,
            hi,
            |n: int| is_kept(n, base as int, k, deeper, high_mask),
        ),
        listing::lists(
            without,
            base,
            lo,
            hi,
            |n: int| is_kept(n, base as int, k, depth, high_mask),
        ),
    ensures
        with == without,
{
    let b = base as int;
    lemma_filter_agrees_exactly(with, without, base, k, lo, hi, high_mask, depth, deeper);
    assert forall|n: int| lo <= n < hi && #[trigger] is_kept(n, b, k, depth, high_mask) implies is_kept(
        n,
        b,
        k,
        deeper,
        high_mask,
    ) by {
        lemma_squares_stay_long(n, b, lo, deeper);
        lemma_certified_is_clear(n, b, deeper, high_mask);
    }
}

/// Whether every digit of `high_mask` occupies some output position outside
/// the six middle ones, for every number from `lo` up to `hi`.
pub open spec fn is_apart(high_mask: u64, b: int, lo: int, hi: int) -> bool {
    forall|n: int, d: int|
        lo <= n < hi && mask::holds(high_mask, d)
            ==> #[trigger] affine_filter::occurs_outside_middle(n, b, d)
}

/// A mask that is certified from above the middle positions on is apart from
/// them.
pub proof fn lemma_certified_is_apart(high_mask: u64, b: int, lo: int, hi: int)
    requires
        certifies(high_mask, b, lo, hi, 6),
    ensures
        is_apart(high_mask, b, lo, hi),
{
    assert forall|n: int, d: int|
        lo <= n < hi && mask::holds(
            high_mask,
            d,
        ) implies #[trigger] affine_filter::occurs_outside_middle(n, b, d) by {
        assert(occurs_from(n, b, 6, d));
        let (i, which) = choose|i: nat, which: int|
            {
                &&& i >= 6
                &&& which == 0 || which == 1
                &&& i < digits::digits(nice::power(n, which), b).len()
                &&& d == #[trigger] digits::digit(nice::power(n, which), b, i)
            };
        assert(d == digits::digit(nice::power(n, which), b, i));
    }
}

/// A nice number whose low digits avoid a mask that is apart from the middle
/// positions avoids it there too: a digit of the mask in the middle would
/// occupy two positions.
pub proof fn lemma_apart_is_clear(n: int, base: u32, high_mask: u64)
    requires
        n >= 0,
        affine_filter::is_specialized(base),
        nice::is_nice(n, base as int),
        is_apart(high_mask, base as int, n, n + 1),
        clear_below(n, base as int, 3, high_mask),
    ensures
        clear_below(n, base as int, 6, high_mask),
{
    let b = base as int;
    nice::lemma_nice_square_len(n, b);
    nice::lemma_cube_len(n, b);
    assert forall|i: nat| i < 6 implies #[trigger] clear_at(n, b, i, high_mask) by {
        if i >= 3 {
            lemma_apart_position(n, b, high_mask, i, 0);
            lemma_apart_position(n, b, high_mask, i, 1);
        }
    }
}

proof fn lemma_apart_position(n: int, b: int, high_mask: u64, i: nat, which: int)
    requires
        n >= 0,
        b >= 2,
        nice::is_nice(n, b),
        which == 0 || which == 1,
        3 <= i < 6,
        i < digits::digits(nice::power(n, which), b).len(),
        is_apart(high_mask, b, n, n + 1),
    ensures
        !mask::holds(high_mask, digits::digit(nice::power(n, which), b, i)),
{
    let d = digits::digit(nice::power(n, which), b, i);
    if mask::holds(high_mask, d) {
        assert(affine_filter::occurs_outside_middle(n, b, d));
        let (j, other) = choose|j: nat, other: int|
            {
                &&& j < 3 || j >= 6
                &&& other == 0 || other == 1
                &&& j < digits::digits(nice::power(n, other), b).len()
                &&& d == #[trigger] digits::digit(nice::power(n, other), b, j)
            };
        nice::lemma_nice_positions(n, b, which, i, other, j);
    }
}

/// An empty high mask is clear everywhere.
pub proof fn lemma_zero_is_clear(n: int, b: int, depth: nat)
    ensures
        clear_below(n, b, depth, 0),
{
    assert forall|i: nat| i < depth implies #[trigger] clear_at(n, b, i, 0) by {
        mask::lemma_holds_zero(digits::digit(n * n, b, i));
        mask::lemma_holds_zero(digits::digit(n * n * n, b, i));
    }
}

/// The cross-end test on masks is the test on digits.
pub proof fn lemma_cross_end(low: u64, n: int, b: int, k: nat, high_mask: u64)
    requires
        n >= 0,
        2 <= b <= 64,
        mask::is_mask_of(low, nice::low_digits(n, b, k)),
    ensures
        low & high_mask == 0 <==> clear_below(n, b, k, high_mask),
{
    let l = nice::low_digits(n, b, k);
    nice::lemma_powers_nonnegative(n);
    mask::lemma_disjoint(low, high_mask);
    if low & high_mask == 0 {
        assert forall|i: nat| i < k implies #[trigger] clear_at(n, b, i, high_mask) by {
            digits::lemma_digit_range(n * n, b, i);
            digits::lemma_digit_range(n * n * n, b, i);
            assert(l.contains(l[i as int]));
            assert(l.contains(l[(k + i) as int]));
            assert(mask::holds(low, l[i as int]));
            assert(mask::holds(low, l[(k + i) as int]));
        }
    } else {
        let d = choose|d: int| #[trigger] mask::holds(low, d) && mask::holds(high_mask, d);
        assert(l.contains(d));
        let i = choose|i: int| 0 <= i < l.len() && l[i] == d;
        assert(!clear_at(n, b, (if i < k { i } else { i - k }) as nat, high_mask));
    }
}

/// For a nice number that passed the cross-end test, the affine filter tests
/// the high mask at the middle positions.
pub proof fn lemma_affine_on_nice(low: u64, n: int, base: u32, high_mask: u64)
    requires
        n >= 0,
        affine_filter::is_specialized(base),
        mask::is_mask_of(low, nice::low_digits(n, base as int, 3)),
        low & high_mask == 0,
        nice::is_nice(n, base as int),
    ensures
        affine_filter::keeps(base, n % pow(base as int, 6), low | high_mask) <==> clear_below(
            n,
            base as int,
            6,
            high_mask,
        ),
{
    let b = base as int;
    let l = nice::low_digits(n, b, 3);
    let m = affine_filter::middle(n, b);
    nice::lemma_nice_square_len(n, b);
    nice::lemma_cube_len(n, b);
    nice::lemma_powers_nonnegative(n);
    digits::lemma_digits_len(n * n, b, 5);
    affine_filter::lemma_middle_periodic(n, b);
    lemma_cross_end(low, n, b, 3, high_mask);
    assert forall|i: int| 0 <= i < 6 implies !mask::holds(low, #[trigger] m[i]) by {
        let d = m[i];
        digits::lemma_digit_range(n * n, b, (3 + i) as nat);
        digits::lemma_digit_range(n * n * n, b, i as nat);
        if mask::holds(low, d) {
            assert(l.contains(d));
            let j = choose|j: int| 0 <= j < l.len() && l[j] == d;
            let fst: int = if i < 3 { 0 } else { 1 };
            let snd: int = if j < 3 { 0 } else { 1 };
            nice::lemma_nice_positions(
                n,
                b,
                fst,
                (if i < 3 { 3 + i } else { i }) as nat,
                snd,
                (if j < 3 { j } else { j - 3 }) as nat,
            );
        }
    }
    assert forall|i: int| 0 <= i < 6 implies mask::holds(low | high_mask, #[trigger] m[i])
        == mask::holds(high_mask, m[i]) by {
        mask::lemma_holds_bitops(low, high_mask, m[i]);
    }
    if clear_below(n, b, 6, high_mask) {
        assert forall|i: int| 0 <= i < 6 implies !mask::holds(
            low | high_mask,
            #[trigger] m[i],
        ) by {
            assert(clear_at(n, b, (if i < 3 { 3 + i } else { i }) as nat, high_mask));
        }
        affine_filter::lemma_keeps_distinct(n, base, low | high_mask);
    } else if affine_filter::keeps(base, n % pow(b, 6), low | high_mask) {
        assert forall|i: nat| i < 6 implies #[trigger] clear_at(n, b, i, high_mask) by {
            if i < 3 {
                assert(clear_below(n, b, 3, high_mask));
            } else {
                assert(m[i as int - 3] == digits::digit(n * n, b, i));
                assert(m[i as int] == digits::digit(n * n * n, b, i));
            }
        }
    }
}

/// The numbers from `lo` up to `hi` that pass the cross-end test: candidates
/// whose `k` low digits avoid the high mask.
pub open spec fn cross_end_survivors(lo: int, hi: int, b: int, k: nat, high_mask: u64) -> Set<int> {
    set_int_range(lo, hi).filter(
        |n: int| nice::is_candidate(n, b, k) && clear_below(n, b, k, high_mask),
    )
}

} // verus!
