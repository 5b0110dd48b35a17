//! The nice check: whether the square and cube of a number together use every
//! digit of a base exactly once.

use vstd::arithmetic::div_mod::*;
use vstd::arithmetic::power::*;
use vstd::prelude::*;

use crate::digits;
use crate::distinct;
use crate::mask;
use crate::nice;
use crate::wide::Wide;

verus! {

/// The mask of all digits of a base, `2 <= base <= 64`.
fn full_mask(base: u32) -> (full: u64)
    requires
        2 <= base <= 64,
    ensures
        forall|d: int| mask::holds(full, d) <==> 0 <= d < base,
{
    let shift: u64 = 64 - base as u64;
    let full: u64 = 0xffff_ffff_ffff_ffffu64 >> shift;
    proof {
        assert forall|d: int| mask::holds(full, d) <==> 0 <= d < base by {
            let e = d as u64;
            if 0 <= d < 64 {
                assert(full & (1u64 << e) != 0 <==> e + shift < 64) by (bit_vector)
                    requires
                        e < 64,
                        shift < 64,
                        full == 0xffff_ffff_ffff_ffffu64 >> shift,
                ;
            }
        }
    }
    full
}

/// Whether every digit of the base is in `seen`.
fn covers_base(seen: u64, base: u32) -> (r: bool)
    requires
        2 <= base <= 64,
    ensures
        r <==> forall|d: int| 0 <= d < base ==> mask::holds(seen, d),
{
    let full: u64 = full_mask(base);
    let missing: u64 = !seen;
    proof {
        mask::lemma_disjoint(missing, full);
        assert forall|d: int| 0 <= d < 64 implies #[trigger] mask::holds(missing, d)
            == !mask::holds(seen, d) by {
            let e = d as u64;
            assert(missing & (1u64 << e) != 0 <==> !(seen & (1u64 << e) != 0)) by (bit_vector)
                requires
                    e < 64,
                    missing == !seen,
            ;
        }
        if missing & full != 0 {
            let d = choose|d: int| mask::holds(missing, d) && mask::holds(full, d);
            assert(!mask::holds(seen, d));
        } else {
            assert forall|d: int| 0 <= d < base implies mask::holds(seen, d) by {
                assert(mask::holds(full, d));
                assert(mask::holds(missing, d) == !mask::holds(seen, d));
            }
        }
    }
    missing & full == 0
}

/// Add the digits of `x` to the digits in `seen`. `None` when a digit repeats.
fn add_digits(x: Wide, base: u32, seen: u64) -> (r: Option<u64>)
    requires
        2 <= base <= 64,
    ensures
        r is Some <==> {
            &&& digits::digits(x@, base as int).no_duplicates()
            &&& forall|d: int|
                #[trigger] digits::digits(x@, base as int).contains(d) ==> !mask::holds(seen, d)
        },
        r matches Some(m) ==> forall|d: int|
            0 <= d < 64 ==> (#[trigger] mask::holds(m, d) <==> (mask::holds(seen, d)
                || digits::digits(x@, base as int).contains(d))),
{
    let ghost b = base as int;
    let ghost s = digits::digits(x@, b);
    let ghost mut done: nat = 0;
    let mut rest: Wide = x;
    let mut m: u64 = seen;
    proof {
        x.lemma_nonnegative();
        digits::lemma_digits_range(x@, b);
        assert(s.skip(0) =~= s);
        assert(s.take(0) =~= Seq::<int>::empty());
    }
    while !rest.is_zero()
        invariant
            2 <= base <= 64,
            b == base,
            rest@ >= 0,
            s == digits::digits(x@, b),
            done <= s.len(),
            forall|i: int| 0 <= i < s.len() ==> 0 <= #[trigger] s[i] < b,
            digits::digits(rest@, b) == s.skip(done as int),
            s.take(done as int).no_duplicates(),
            forall|d: int| #[trigger] s.take(done as int).contains(d) ==> !mask::holds(seen, d),
            forall|d: int|
                0 <= d < 64 ==> (#[trigger] mask::holds(m, d) <==> (mask::holds(seen, d)
                    || s.take(done as int).contains(d))),
        decreases rest@,
    {
        let ghost before = rest@;
        let ghost t = s.take(done as int);
        let r: u32 = rest.div_assign_rem_u32(base);
        let bit: u64 = 1u64 << (r as u64);
        proof {
            rest.lemma_nonnegative();
            lemma_div_decreases(before, b);
            assert(digits::digits(before, b) == seq![r as int] + digits::digits(rest@, b));
            assert(s.skip(done as int)[0] == s[done as int]);
            assert(s[done as int] == r);
            assert(digits::digits(rest@, b) =~= s.skip(done as int + 1)) by {
                assert(s.skip(done as int).drop_first() =~= s.skip(done as int + 1));
                assert((seq![r as int] + digits::digits(rest@, b)).drop_first()
                    =~= digits::digits(rest@, b));
            }
            assert(mask::holds(m, r as int) <==> m & bit != 0);
            assert(s.take(done as int + 1) =~= t.push(r as int));
        }
        if m & bit != 0 {
            proof {
                assert(s.contains(r as int)) by {
                    assert(s[done as int] == r);
                }
                if !mask::holds(seen, r as int) {
                    assert(t.contains(r as int));
                    let i = choose|i: int| 0 <= i < t.len() && t[i] == r as int;
                    assert(s[i] == s[done as int]);
                }
            }
            return None;
        }
        let ghost old_m = m;
        m = m | bit;
        proof {
            let u = t.push(r as int);
            assert(!t.contains(r as int));
            distinct::lemma_push_distinct(t, r as int);
            assert forall|d: int| #[trigger] u.contains(d) implies !mask::holds(seen, d) by {
                distinct::lemma_push_contains(t, r as int, d);
            }
            assert forall|d: int| 0 <= d < 64 implies (#[trigger] mask::holds(m, d) <==> (
            mask::holds(seen, d) || u.contains(d))) by {
                distinct::lemma_push_contains(t, r as int, d);
                mask::lemma_holds_bitops(old_m, bit, d);
                mask::lemma_holds_bit(r as u64, d);
            }
            done = done + 1;
        }
    }
    proof {
        assert(s.skip(done as int).len() == 0);
        assert(s.take(done as int) =~= s);
    }
    Some(m)
}

proof fn lemma_append_contains(s: Seq<int>, t: Seq<int>, d: int)
    ensures
        (s + t).contains(d) <==> (s.contains(d) || t.contains(d)),
{
    let u = s + t;
    if s.contains(d) {
        let i = choose|i: int| 0 <= i < s.len() && s[i] == d;
        assert(u[i] == d);
    }
    if t.contains(d) {
        let i = choose|i: int| 0 <= i < t.len() && t[i] == d;
        assert(u[s.len() + i] == d);
    }
    if u.contains(d) {
        let i = choose|i: int| 0 <= i < u.len() && u[i] == d;
        if i < s.len() {
            assert(s[i] == d);
        } else {
            assert(t[i - s.len()] == d);
        }
    }
}

/// Two sequences that are each split at `k` repeat no value exactly when
/// their heads together, their tails and the pieces among each other do not.
proof fn lemma_split_distinct(s: Seq<int>, c: Seq<int>, k: int)
    requires
        0 <= k <= s.len(),
        k <= c.len(),
    ensures
        (s + c).no_duplicates() <==> {
            &&& (s.take(k) + c.take(k)).no_duplicates()
            &&& s.skip(k).no_duplicates()
            &&& c.skip(k).no_duplicates()
            &&& forall|d: int| #[trigger]
                s.skip(k).contains(d) ==> !(s.take(k) + c.take(k)).contains(d)
            &&& forall|d: int| #[trigger]
                c.skip(k).contains(d) ==> !(s.take(k) + c.take(k)).contains(d)
                    && !s.skip(k).contains(d)
        },
        forall|d: int| #[trigger]
            (s + c).contains(d) <==> ((s.take(k) + c.take(k)).contains(d) || s.skip(k).contains(d)
                || c.skip(k).contains(d)),
{
    let w = s + c;
    let l = s.take(k) + c.take(k);
    let a = s.skip(k);
    let e = c.skip(k);
    let n = s.len() as int;
    assert forall|d: int| #[trigger] w.contains(d) <==> (l.contains(d) || a.contains(d)
        || e.contains(d)) by {
        assert(s =~= s.take(k) + a);
        assert(c =~= c.take(k) + e);
        lemma_append_contains(s, c, d);
        lemma_append_contains(s.take(k), a, d);
        lemma_append_contains(c.take(k), e, d);
        lemma_append_contains(s.take(k), c.take(k), d);
    }
    if w.no_duplicates() {
        assert forall|i: int, j: int| 0 <= i < l.len() && 0 <= j < l.len() && i != j implies l[i]
            != l[j] by {
            let x = if i < k { i } else { n + i - k };
            let y = if j < k { j } else { n + j - k };
            assert(l[i] == w[x] && l[j] == w[y]);
        }
        assert forall|i: int, j: int| 0 <= i < a.len() && 0 <= j < a.len() && i != j implies a[i]
            != a[j] by {
            assert(a[i] == w[k + i] && a[j] == w[k + j]);
        }
        assert forall|i: int, j: int| 0 <= i < e.len() && 0 <= j < e.len() && i != j implies e[i]
            != e[j] by {
            assert(e[i] == w[n + k + i] && e[j] == w[n + k + j]);
        }
        assert forall|d: int| #[trigger] a.contains(d) implies !l.contains(d) by {
            if l.contains(d) {
                let i = choose|i: int| 0 <= i < a.len() && a[i] == d;
                let j = choose|j: int| 0 <= j < l.len() && l[j] == d;
                assert(w[k + i] == d);
                assert(w[if j < k { j } else { n + j - k }] == d);
            }
        }
        assert forall|d: int| #[trigger] e.contains(d) implies !l.contains(d) && !a.contains(d) by {
            let i = choose|i: int| 0 <= i < e.len() && e[i] == d;
            assert(w[n + k + i] == d);
            if l.contains(d) {
                let j = choose|j: int| 0 <= j < l.len() && l[j] == d;
                assert(w[if j < k { j } else { n + j - k }] == d);
            }
            if a.contains(d) {
                let j = choose|j: int| 0 <= j < a.len() && a[j] == d;
                assert(w[k + j] == d);
            }
        }
    } else if l.no_duplicates() && a.no_duplicates() && e.no_duplicates() && (forall|d: int|
        #[trigger] a.contains(d) ==> !l.contains(d)) && (forall|d: int| #[trigger]
        e.contains(d) ==> !l.contains(d) && !a.contains(d)) {
        assert forall|x: int, y: int| 0 <= x < w.len() && 0 <= y < w.len() && x != y implies w[x]
            != w[y] by {
            lemma_piece(s, c, k, x);
            lemma_piece(s, c, k, y);
        }
    }
}

/// Which piece position `x` of two split sequences falls in.
proof fn lemma_piece(s: Seq<int>, c: Seq<int>, k: int, x: int)
    requires
        0 <= k <= s.len(),
        k <= c.len(),
        0 <= x < s.len() + c.len(),
    ensures
        ({
            let l = s.take(k) + c.take(k);
            let n = s.len();
            if x < k {
                (s + c)[x] == l[x] && l.contains((s + c)[x])
            } else if x < n {
                (s + c)[x] == s.skip(k)[x - k] && s.skip(k).contains((s + c)[x])
            } else if x < n + k {
                (s + c)[x] == l[x - n + k] && l.contains((s + c)[x])
            } else {
                (s + c)[x] == c.skip(k)[x - n - k] && c.skip(k).contains((s + c)[x])
            }
        }),
{
}

/// The nice check with the `k` lowest digits of both powers already taken
/// into `low`; `low_power` is `base^k`.
fn check_above(num: u128, base: u32, Ghost(k): Ghost<nat>, low_power: u32, low: u64) -> (r: bool)
    requires
        2 <= base <= 64,
        low_power == pow(base as int, k),
        k <= digits::digits(num * num, base as int).len(),
        nice::passes_lsd(num as int, base as int, k),
        mask::is_mask_of(low, nice::low_digits(num as int, base as int, k)),
    ensures
        r == nice::is_nice(num as int, base as int),
{
    let ghost n = num as int;
    let ghost b = base as int;
    let ghost s = digits::digits(n * n, b);
    let ghost c = digits::digits(n * n * n, b);
    let ghost l = nice::low_digits(n, b, k);
    proof {
        nice::lemma_powers_nonnegative(n);
        nice::lemma_cube_len(n, b);
        nice::lemma_output_range(n, b);
        digits::lemma_digits_range(n * n, b);
        digits::lemma_digits_range(n * n * n, b);
        digits::lemma_digits_skip(n * n, b, k);
        digits::lemma_digits_skip(n * n * n, b, k);
        lemma_pow_positive(b, k);
        assert(l =~= s.take(k as int) + c.take(k as int)) by {
            assert forall|i: int| 0 <= i < 2 * k implies #[trigger] l[i] == (s.take(k as int)
                + c.take(k as int))[i] by {
                if i < k {
                    digits::lemma_digits_index(n * n, b, i as nat);
                } else {
                    digits::lemma_digits_index(n * n * n, b, (i - k) as nat);
                }
            }
        }
        lemma_split_distinct(s, c, k as int);
        assert(forall|d: int| l.contains(d) ==> 0 <= d < 64) by {
            assert forall|d: int| l.contains(d) implies 0 <= d < 64 by {
                let i = choose|i: int| 0 <= i < l.len() && l[i] == d;
                if i < k {
                    assert(l[i] == s[i]);
                } else {
                    assert(l[i] == c[i - k]);
                }
            }
        }
        assert forall|d: int| s.skip(k as int).contains(d) implies 0 <= d < 64 by {
            let i = choose|i: int| 0 <= i < s.skip(k as int).len() && s.skip(k as int)[i] == d;
            assert(s[k + i] == d);
        }
        assert forall|d: int| c.skip(k as int).contains(d) implies 0 <= d < 64 by {
            let i = choose|i: int| 0 <= i < c.skip(k as int).len() && c.skip(k as int)[i] == d;
            assert(c[k + i] == d);
        }
    }
    let square: Wide = Wide::from_u128(num).mul_u128(num);
    let cube: Wide = square.mul_u128(num);
    let mut high_square: Wide = square;
    let _ = high_square.div_assign_rem_u32(low_power);
    proof {
        assert(digits::digits(high_square@, b) == s.skip(k as int));
    }
    match add_digits(high_square, base, low) {
        None => {
            proof {
                assert(!nice::is_nice(n, b));
            }
            false
        },
        Some(seen) => {
            let mut high_cube: Wide = cube;
            let _ = high_cube.div_assign_rem_u32(low_power);
            proof {
                assert(digits::digits(high_cube@, b) == c.skip(k as int));
            }
            match add_digits(high_cube, base, seen) {
                None => {
                    proof {
                        assert(forall|d: int|
                            0 <= d < 64 ==> (mask::holds(low, d) <==> l.contains(d)));
                        assert(!nice::is_nice(n, b));
                    }
                    false
                },
                Some(all) => {
                    proof {
                        let a = s.skip(k as int);
                        let e = c.skip(k as int);
                        assert forall|d: int| #[trigger] a.contains(d) implies !l.contains(d) by {
                            assert(mask::holds(low, d) <==> l.contains(d));
                        }
                        assert forall|d: int| #[trigger] e.contains(d) implies !l.contains(d)
                            && !a.contains(d) by {
                            assert(mask::holds(low, d) <==> l.contains(d));
                            assert(mask::holds(seen, d) <==> (mask::holds(low, d) || a.contains(
                                d,
                            )));
                        }
                        assert((s + c).no_duplicates());
                        assert forall|d: int| 0 <= d < b implies (mask::holds(all, d)
                            <==> (s + c).contains(d)) by {
                            assert(mask::holds(low, d) <==> l.contains(d));
                            assert(mask::holds(seen, d) <==> (mask::holds(low, d) || s.skip(
                                k as int,
                            ).contains(d)));
                        }
                    }
                    let covered: bool = covers_base(all, base);
                    proof {
                        let w = nice::output_digits(n, b);
                        if covered {
                            assert forall|d: int| 0 <= d < b implies #[trigger] w.contains(d) by {
                                assert(mask::holds(all, d));
                            }
                        } else {
                            let d = choose|d: int| 0 <= d < b && !mask::holds(all, d);
                            assert(!w.contains(d));
                        }
                    }
                    covered
                },
            }
        },
    }
}

/// Append the digits of `x` to a list of distinct digits. False when a digit
/// repeats.
fn push_digits(x: Wide, base: u32, seen: &mut Vec<u32>) -> (r: bool)
    requires
        base >= 2,
        distinct::ints(old(seen)@).no_duplicates(),
    ensures
        r <==> (distinct::ints(old(seen)@) + digits::digits(x@, base as int)).no_duplicates(),
        r ==> distinct::ints(final(seen)@) == distinct::ints(old(seen)@) + digits::digits(x@, base as int),
{
    let ghost b = base as int;
    let ghost s = digits::digits(x@, b);
    let ghost first = distinct::ints(seen@);
    let ghost mut done: nat = 0;
    let mut rest: Wide = x;
    proof {
        x.lemma_nonnegative();
        assert(s.skip(0) =~= s);
        assert(first + s.take(0) =~= first);
    }
    while !rest.is_zero()
        invariant
            base >= 2,
            b == base,
            rest@ >= 0,
            s == digits::digits(x@, b),
            first == distinct::ints(old(seen)@),
            done <= s.len(),
            digits::digits(rest@, b) == s.skip(done as int),
            distinct::ints(seen@) == first + s.take(done as int),
            distinct::ints(seen@).no_duplicates(),
        decreases rest@,
    {
        let ghost before = rest@;
        let r: u32 = rest.div_assign_rem_u32(base);
        proof {
            rest.lemma_nonnegative();
            lemma_div_decreases(before, b);
            assert(digits::digits(before, b) == seq![r as int] + digits::digits(rest@, b));
            assert(s.skip(done as int)[0] == s[done as int]);
            assert(s[done as int] == r);
            assert(digits::digits(rest@, b) =~= s.skip(done as int + 1)) by {
                assert(s.skip(done as int).drop_first() =~= s.skip(done as int + 1));
                assert((seq![r as int] + digits::digits(rest@, b)).drop_first()
                    =~= digits::digits(rest@, b));
            }
        }
        let ghost t = distinct::ints(seen@);
        proof {
            assert(first + s.take(done as int + 1) =~= t.push(r as int));
            assert(first + s =~= (first + s.take(done as int + 1)) + s.skip(done as int + 1));
            distinct::lemma_push_distinct(t, r as int);
        }
        if !distinct::push_new(seen, r) {
            proof {
                if (first + s).no_duplicates() {
                    distinct::lemma_prefix_distinct(
                        first + s.take(done as int + 1),
                        s.skip(done as int + 1),
                    );
                }
            }
            return false;
        }
        proof {
            done = done + 1;
        }
    }
    proof {
        assert(s.skip(done as int).len() == 0);
        assert(s.take(done as int) =~= s);
    }
    true
}

/// The nice check for bases whose digits do not fit a mask.
fn check_list(num: u128, base: u32) -> (r: bool)
    requires
        base >= 2,
    ensures
        r == nice::is_nice(num as int, base as int),
{
    let ghost n = num as int;
    let ghost b = base as int;
    let ghost s = digits::digits(n * n, b);
    let ghost c = digits::digits(n * n * n, b);
    let square: Wide = Wide::from_u128(num).mul_u128(num);
    let cube: Wide = square.mul_u128(num);
    let mut seen: Vec<u32> = Vec::new();
    proof {
        assert(distinct::ints(seen@) =~= Seq::<int>::empty());
        assert(Seq::<int>::empty() + s =~= s);
    }
    if !push_digits(square, base, &mut seen) {
        proof {
            let (i, j) = choose|i: int, j: int|
                0 <= i < s.len() && 0 <= j < s.len() && i != j && s[i] == s[j];
            assert((s + c)[i] == (s + c)[j]);
        }
        return false;
    }
    if !push_digits(cube, base, &mut seen) {
        return false;
    }
    proof {
        if seen@.len() == base {
            nice::lemma_distinct_is_nice(n, b);
        }
        if nice::is_nice(n, b) {
            nice::lemma_nice_len(n, b);
        }
        assert(distinct::ints(seen@).len() == seen@.len());
    }
    seen.len() == base as usize
}

/// Whether `num` is nice in `base`: whether its square and cube together use
/// every digit of the base exactly once. Stops at the first repeated digit.
pub fn get_is_nice(num: u128, base: u32) -> (r: bool)
    requires
        base >= 2,
    ensures
        r == nice::is_nice(num as int, base as int),
{
    if base <= 64 {
        proof {
            digits::lemma_pow_step(base as int, 0);
            mask::lemma_mask_of_empty();
            assert(nice::low_digits(num as int, base as int, 0) =~= Seq::<int>::empty());
        }
        check_above(num, base, Ghost(0), 1, 0)
    } else {
        check_list(num, base)
    }
}

/// [`get_is_nice`] for a number whose `k` lowest digits of both powers are
/// known to be distinct: `known_lsd` holds those `2k` digits, and seeds the
/// check so that they are not extracted again. Bases above 64 take the plain
/// check, and so do numbers below `base^k`, whose powers may be shorter than
/// `k` digits.
pub fn get_is_nice_with_known_lsd(num: u128, base: u32, k: u32, known_lsd: u64) -> (r: bool)
    requires
        base >= 2,
        base <= 64 ==> nice::passes_lsd(num as int, base as int, k as nat),
        base <= 64 ==> mask::is_mask_of(
            known_lsd,
            nice::low_digits(num as int, base as int, k as nat),
        ),
    ensures
        r == nice::is_nice(num as int, base as int),
{
    if base <= 64 {
        match digits::checked_pow(base, k) {
            Some(low_power) => {
                if num >= low_power as u128 {
                    proof {
                        let n = num as int;
                        lemma_pow_positive(base as int, k as nat);
                        assert(n * n >= n) by (nonlinear_arith)
                            requires
                                n >= 1,
                        ;
                        digits::lemma_digits_len(n * n, base as int, k as nat);
                    }
                    return check_above(num, base, Ghost(k as nat), low_power, known_lsd);
                }
            },
            None => {},
        }
    }
    get_is_nice(num, base)
}

} // verus!
