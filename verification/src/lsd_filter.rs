//! The multi-digit least-significant-digit filter: the `k` lowest digits of
//! `n²` and `n³` depend on `n mod base^k` alone, and in a nice number they are
//! pairwise distinct.

use vstd::arithmetic::div_mod::*;
use vstd::arithmetic::mul::*;
use vstd::arithmetic::power::*;
use vstd::prelude::*;

use crate::digits;
use crate::distinct;
use crate::guarantees;
use crate::nice;

verus! {

/// The `k` lowest digits of `x`, least significant first.
pub open spec fn lowest(x: int, b: int, k: nat) -> Seq<int> {
    Seq::new(k, |i: int| digits::digit(x, b, i as nat))
}

/// Append the `k` lowest digits of `x` to a list of distinct digits. False
/// when a digit repeats.
fn push_lowest(x: u64, base: u32, k: u32, seen: &mut Vec<u32>) -> (r: bool)
    requires
        base >= 2,
        distinct::ints(old(seen)@).no_duplicates(),
    ensures
        r <==> (distinct::ints(old(seen)@) + lowest(
            x as int,
            base as int,
            k as nat,
        )).no_duplicates(),
        r ==> distinct::ints(final(seen)@) == distinct::ints(old(seen)@) + lowest(
            x as int,
            base as int,
            k as nat,
        ),
{
    let ghost b = base as int;
    let ghost s = lowest(x as int, b, k as nat);
    let ghost first = distinct::ints(seen@);
    let mut v: u64 = x;
    let mut i: u32 = 0;
    proof {
        digits::lemma_pow_step(b, 0);
        lemma_div_basics(x as int);
        assert(first + s.take(0) =~= first);
    }
    while i < k
        invariant
            base >= 2,
            b == base,
            i <= k,
            s == lowest(x as int, b, k as nat),
            first == distinct::ints(old(seen)@),
            v == x as int / pow(b, i as nat),
            distinct::ints(seen@) == first + s.take(i as int),
            distinct::ints(seen@).no_duplicates(),
        decreases k - i,
    {
        let d: u32 = (v % (base as u64)) as u32;
        let ghost t = distinct::ints(seen@);
        proof {
            digits::lemma_pow_step(b, i as nat);
            lemma_div_denominator(x as int, pow(b, i as nat), b);
            lemma_mul_is_commutative(b, pow(b, i as nat));
            assert(s[i as int] == d);
            assert(first + s.take(i as int + 1) =~= t.push(d as int));
            assert(first + s =~= (first + s.take(i as int + 1)) + s.skip(i as int + 1));
            distinct::lemma_push_distinct(t, d as int);
        }
        if !distinct::push_new(seen, d) {
            proof {
                if (first + s).no_duplicates() {
                    distinct::lemma_prefix_distinct(
                        first + s.take(i as int + 1),
                        s.skip(i as int + 1),
                    );
                }
            }
            return false;
        }
        v = v / (base as u64);
        i = i + 1;
    }
    proof {
        assert(s.take(k as int) =~= s);
    }
    true
}

/// Whether the `2k` lowest digits of the square and cube of a number that ends
/// in `suffix` are pairwise distinct; `modulus` is `base^k`.
fn is_valid_suffix(suffix: u32, base: u32, k: u32, modulus: u32) -> (r: bool)
    requires
        base >= 2,
        modulus == pow(base as int, k as nat),
        suffix < modulus,
    ensures
        r == nice::passes_lsd(suffix as int, base as int, k as nat),
{
    let x: u64 = suffix as u64;
    let m: u64 = modulus as u64;
    let ghost n = suffix as int;
    let ghost b = base as int;
    proof {
        assert(x * x <= 0xffff_ffff * 0xffff_ffff) by (nonlinear_arith)
            requires
                x <= 0xffff_ffff,
        ;
    }
    let square: u64 = x * x % m;
    proof {
        assert(square * x <= 0xffff_ffff * 0xffff_ffff) by (nonlinear_arith)
            requires
                x <= 0xffff_ffff,
                square <= 0xffff_ffff,
        ;
    }
    let cube: u64 = square * x % m;
    let ghost sq = lowest(square as int, b, k as nat);
    let ghost cu = lowest(cube as int, b, k as nat);
    proof {
        lemma_mul_mod_noop_left(n * n, n, m as int);
        lemma_low_digits_of_residues(n, b, k as nat);
    }
    let mut seen: Vec<u32> = Vec::new();
    proof {
        assert(distinct::ints(seen@) =~= Seq::<int>::empty());
        assert(distinct::ints(seen@) + sq =~= sq);
    }
    if !push_lowest(square, base, k, &mut seen) {
        proof {
            if (sq + cu).no_duplicates() {
                distinct::lemma_prefix_distinct(sq, cu);
            }
        }
        return false;
    }
    push_lowest(cube, base, k, &mut seen)
}

/// The low digits of both powers, read off the powers modulo `b^k`.
pub proof fn lemma_low_digits_of_residues(n: int, b: int, k: nat)
    requires
        n >= 0,
        b >= 2,
    ensures
        nice::low_digits(n, b, k) == lowest((n * n) % pow(b, k), b, k) + lowest(
            (n * n * n) % pow(b, k),
            b,
            k,
        ),
{
    nice::lemma_powers_nonnegative(n);
    let l = nice::low_digits(n, b, k);
    let s = lowest((n * n) % pow(b, k), b, k) + lowest((n * n * n) % pow(b, k), b, k);
    assert forall|i: int| 0 <= i < 2 * k implies #[trigger] l[i] == s[i] by {
        if i < k {
            digits::lemma_digit_low(n * n, b, k, i as nat);
        } else {
            digits::lemma_digit_low(n * n * n, b, k, (i - k) as nat);
        }
    }
    assert(l =~= s);
}

/// For every suffix of `k` digits, whether a number that ends in it passes
/// the filter.
pub fn get_valid_multi_lsd_bitmap(base: u32, k: u32) -> (v: Vec<bool>)
    requires
        base >= 2,
        pow(base as int, k as nat) <= u32::MAX,
    ensures
        v@.len() == pow(base as int, k as nat),
        forall|s: int|
            0 <= s < v@.len() ==> #[trigger] v@[s] == nice::passes_lsd(s, base as int, k as nat),
        ({
            let b = base as int;
            forall|s: int|
                0 <= s < v@.len() ==> (#[trigger] v@[s] <==> (forall|i: nat, j: nat|
                    #![trigger pow(b, i), pow(b, j)]
                    i < k && j < k ==> {
                        &&& s * s / pow(b, i) % b != s * s * s / pow(b, j) % b
                        &&& i != j ==> s * s / pow(b, i) % b != s * s / pow(b, j) % b
                        &&& i != j ==> s * s * s / pow(b, i) % b != s * s * s / pow(b, j) % b
                    }))
        }),
{
    let mut v: Vec<bool> = Vec::new();
    match digits::checked_pow(base, k) {
        Some(modulus) => {
            let mut s: u32 = 0;
            while s < modulus
                invariant
                    base >= 2,
                    modulus == pow(base as int, k as nat),
                    s <= modulus,
                    v@.len() == s,
                    forall|i: int|
                        0 <= i < s ==> #[trigger] v@[i] == nice::passes_lsd(
                            i,
                            base as int,
                            k as nat,
                        ),
                decreases modulus - s,
            {
                v.push(is_valid_suffix(s, base, k, modulus));
                s = s + 1;
            }
        },
        None => {},
    }
    proof {
        let b = base as int;
        assert forall|s: int| 0 <= s < v@.len() implies (#[trigger] v@[s] <==> (forall|i: nat, j: nat|
            #![trigger pow(b, i), pow(b, j)]
            i < k && j < k ==> {
                &&& s * s / pow(b, i) % b != s * s * s / pow(b, j) % b
                &&& i != j ==> s * s / pow(b, i) % b != s * s / pow(b, j) % b
                &&& i != j ==> s * s * s / pow(b, i) % b != s * s * s / pow(b, j) % b
            })) by {
            guarantees::law_lsd_filter(s, b, k as nat);
        }
    }
    v
}

} // verus!
