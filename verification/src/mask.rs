//! Sets of digits below 64 as `u64` bit masks: bit `d` is set when digit `d`
//! is in the set.

use vstd::prelude::*;
use vstd::set_lib::*;

verus! {

/// Whether digit `d` is in `mask`.
pub open spec fn holds(mask: u64, d: int) -> bool {
    0 <= d < 64 && mask & (1u64 << (d as u64)) != 0
}

/// Whether `mask` holds exactly the digits that occur in `s`.
pub open spec fn is_mask_of(mask: u64, s: Seq<int>) -> bool {
    forall|d: int| 0 <= d < 64 ==> (#[trigger] holds(mask, d) <==> s.contains(d))
}

/// The digits in `mask`, as a set.
pub open spec fn digit_set(mask: u64) -> Set<int> {
    set_int_range(0, 64).filter(|d: int| holds(mask, d))
}

/// No digit is in the empty mask.
pub proof fn lemma_holds_zero(d: int)
    ensures
        !holds(0, d),
{
    let e = d as u64;
    assert(0u64 & (1u64 << e) == 0) by (bit_vector);
}

/// Union and intersection of masks are union and intersection of sets.
pub proof fn lemma_holds_bitops(a: u64, b: u64, d: int)
    ensures
        holds(a | b, d) == (holds(a, d) || holds(b, d)),
        holds(a & b, d) == (holds(a, d) && holds(b, d)),
{
    let e = d as u64;
    if 0 <= d < 64 {
        assert((a | b) & (1u64 << e) != 0 <==> (a & (1u64 << e) != 0 || b & (1u64 << e) != 0))
            by (bit_vector);
        assert((a & b) & (1u64 << e) != 0 <==> (a & (1u64 << e) != 0 && b & (1u64 << e) != 0))
            by (bit_vector)
            requires
                e < 64,
        ;
    }
}

/// A single shifted bit holds its one digit.
pub proof fn lemma_holds_bit(c: u64, d: int)
    requires
        c < 64,
    ensures
        holds(1u64 << c, d) == (d == c),
{
    let e = d as u64;
    if 0 <= d < 64 {
        assert((1u64 << c) & (1u64 << e) != 0 <==> c == e) by (bit_vector)
            requires
                c < 64,
                e < 64,
        ;
    }
}

/// A mask that is not zero holds some digit below `hi` when nothing is set
/// from `hi` on.
proof fn lemma_some_digit_below(mask: u64, hi: u64) -> (d: int)
    requires
        mask != 0,
        hi <= 64,
        hi < 64 ==> mask >> hi == 0,
    ensures
        0 <= d < hi,
        holds(mask, d),
    decreases hi,
{
    if hi == 0 {
        assert(mask >> 0u64 == mask) by (bit_vector);
        0
    } else {
        let t = (hi - 1) as u64;
        if mask & (1u64 << t) != 0 {
            t as int
        } else {
            assert(mask >> t == 0) by (bit_vector)
                requires
                    t < 64,
                    mask & (1u64 << t) == 0,
                    t < 63 ==> mask >> ((t + 1) as u64) == 0,
            ;
            lemma_some_digit_below(mask, t)
        }
    }
}

/// A mask is zero exactly when it holds no digit.
pub proof fn lemma_zero_iff_empty(mask: u64)
    ensures
        mask == 0 <==> forall|d: int| !holds(mask, d),
{
    if mask != 0 {
        let d = lemma_some_digit_below(mask, 64);
        assert(holds(mask, d));
    } else {
        assert forall|d: int| !holds(mask, d) by {
            lemma_holds_zero(d);
        }
    }
}

/// Two masks are disjoint exactly when no digit is in both.
pub proof fn lemma_disjoint(a: u64, b: u64)
    ensures
        a & b == 0 <==> forall|d: int| !(#[trigger] holds(a, d) && holds(b, d)),
{
    lemma_zero_iff_empty(a & b);
    assert forall|d: int| holds(a & b, d) == (#[trigger] holds(a, d) && holds(b, d)) by {
        lemma_holds_bitops(a, b, d);
    }
    if a & b != 0 {
        let d = choose|d: int| holds(a & b, d);
        assert(holds(a, d) && holds(b, d));
    } else if exists|d: int| #[trigger] holds(a, d) && holds(b, d) {
        let d = choose|d: int| #[trigger] holds(a, d) && holds(b, d);
        assert(holds(a & b, d));
    }
}

/// The mask of no digits is zero.
pub proof fn lemma_mask_of_empty()
    ensures
        is_mask_of(0, Seq::empty()),
{
    assert forall|d: int| 0 <= d < 64 implies (#[trigger] holds(0, d) <==> Seq::<int>::empty()
        .contains(d)) by {
        lemma_holds_zero(d);
    }
}

/// Setting a bit adds a digit.
pub proof fn lemma_mask_push(mask: u64, s: Seq<int>, c: u64)
    requires
        c < 64,
        is_mask_of(mask, s),
    ensures
        is_mask_of(mask | (1u64 << c), s.push(c as int)),
        mask & (1u64 << c) != 0 <==> s.contains(c as int),
{
    let t = s.push(c as int);
    assert forall|d: int| 0 <= d < 64 implies (#[trigger] holds(mask | (1u64 << c), d)
        <==> t.contains(d)) by {
        lemma_holds_bitops(mask, 1u64 << c, d);
        lemma_holds_bit(c, d);
        assert(holds(mask, d) <==> s.contains(d));
        if s.contains(d) {
            let i = choose|i: int| 0 <= i < s.len() && s[i] == d;
            assert(t[i] == d);
        }
        if d == c {
            assert(t[s.len() as int] == d);
        }
        if t.contains(d) && d != c {
            let i = choose|i: int| 0 <= i < t.len() && t[i] == d;
            assert(s[i] == d);
        }
    }
    assert(holds(mask, c as int) <==> s.contains(c as int));
}

/// As a set, a mask of digits is the set of those digits.
pub proof fn lemma_mask_set(mask: u64, s: Seq<int>)
    requires
        is_mask_of(mask, s),
        forall|i: int| 0 <= i < s.len() ==> 0 <= #[trigger] s[i] < 64,
    ensures
        digit_set(mask) == s.to_set(),
{
    assert forall|d: int| s.to_set().contains(d) implies digit_set(mask).contains(d) by {
        assert(s.contains(d));
        let i = choose|i: int| 0 <= i < s.len() && s[i] == d;
        assert(0 <= s[i] < 64);
        assert(holds(mask, d));
    }
    assert forall|d: int| digit_set(mask).contains(d) implies s.to_set().contains(d) by {
        assert(holds(mask, d));
        assert(s.contains(d));
    }
    assert(digit_set(mask) =~= s.to_set());
}

/// A mask holds as many digits as it was made from exactly when they were
/// distinct.
pub proof fn lemma_mask_size(mask: u64, s: Seq<int>)
    requires
        is_mask_of(mask, s),
        forall|i: int| 0 <= i < s.len() ==> 0 <= #[trigger] s[i] < 64,
    ensures
        digit_set(mask).len() == s.len() <==> s.no_duplicates(),
{
    lemma_mask_set(mask, s);
    if s.no_duplicates() {
        s.unique_seq_to_set();
    }
    if s.to_set().len() == s.len() {
        s.lemma_no_dup_set_cardinality();
    }
}

/// Clearing the lowest set bit takes one digit out.
proof fn lemma_clear_lowest(mask: u64) -> (low: int)
    requires
        mask != 0,
    ensures
        holds(mask, low),
        digit_set(mask & ((mask - 1) as u64)) == digit_set(mask).remove(low),
{
    let rest = mask & ((mask - 1) as u64);
    let bit = mask & !rest;
    assert(bit != 0 && bit & ((bit - 1) as u64) == 0 && rest | bit == mask && rest & bit == 0)
        by (bit_vector)
        requires
            mask != 0,
            rest == mask & ((mask - 1) as u64),
            bit == mask & !rest,
    ;
    let low = lemma_some_digit_below(bit, 64);
    let c = low as u64;
    assert(bit == 1u64 << c) by (bit_vector)
        requires
            c < 64,
            bit & ((bit - 1) as u64) == 0,
            bit & (1u64 << c) != 0,
    ;
    assert forall|d: int| holds(rest, d) == (holds(mask, d) && d != low) by {
        lemma_holds_bitops(rest, bit, d);
        lemma_holds_bit(c, d);
        lemma_holds_zero(d);
    }
    lemma_holds_bitops(rest, bit, low);
    assert(digit_set(rest) =~= digit_set(mask).remove(low));
    low
}

/// The number of digits in `mask`.
pub fn count_digits(mask: u64) -> (n: u32)
    ensures
        n == digit_set(mask).len(),
        n <= 64,
{
    let mut rest: u64 = mask;
    let mut n: u32 = 0;
    proof {
        lemma_int_range(0, 64);
        lemma_len_subset(digit_set(mask), set_int_range(0, 64));
    }
    while rest != 0
        invariant
            digit_set(mask).len() <= 64,
            digit_set(rest).finite(),
            n + digit_set(rest).len() == digit_set(mask).len(),
        decreases digit_set(rest).len(),
    {
        proof {
            let low = lemma_clear_lowest(rest);
            assert(digit_set(rest).contains(low));
        }
        rest = rest & (rest - 1);
        n = n + 1;
    }
    proof {
        lemma_zero_iff_empty(0);
        assert(digit_set(0) =~= Set::empty());
    }
    n
}

} // verus!
