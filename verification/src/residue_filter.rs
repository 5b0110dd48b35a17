//! The residue filter: the digits of a nice number's square and cube add up
//! to the sum of all digits of the base, so `n² + n³` is fixed modulo
//! `base - 1`.

use vstd::arithmetic::div_mod::*;
use vstd::prelude::*;

use crate::nice;

verus! {

/// The residues modulo `base - 1` that a nice number can have, in ascending
/// order.
pub fn get_residue_filter(base: &u32) -> (v: Vec<u32>)
    requires
        *base >= 2,
    ensures
        forall|i: int, j: int| 0 <= i < j < v@.len() ==> v@[i] < v@[j],
        forall|r: u32| #[trigger]
            v@.contains(r) <==> (r < *base - 1 && nice::passes_residue(r as int, *base as int)),
        forall|r: u32| #[trigger]
            v@.contains(r) <==> {
                let b = *base as int;
                &&& r < b - 1
                &&& (r * r + r * r * r) % (b - 1) == (b * (b - 1) / 2) % (b - 1)
            },
{
    let m: u32 = *base - 1;
    let ghost b = *base as int;
    let wide: u64 = *base as u64;
    proof {
        assert(0 <= b * (b - 1) <= 0xffff_ffff * 0xffff_ffff) by (nonlinear_arith)
            requires
                2 <= b <= 0xffff_ffff,
        ;
    }
    let target: u64 = wide * (wide - 1) / 2 % (m as u64);
    let mut v: Vec<u32> = Vec::new();
    let mut r: u32 = 0;
    while r < m
        invariant
            b == *base,
            b >= 2,
            m == b - 1,
            r <= m,
            target == nice::target_residue(b),
            forall|i: int, j: int| 0 <= i < j < v@.len() ==> v@[i] < v@[j],
            forall|i: int| 0 <= i < v@.len() ==> #[trigger] v@[i] < r,
            forall|x: u32| #[trigger]
                v@.contains(x) <==> (x < r && nice::passes_residue(x as int, b)),
        decreases m - r,
    {
        let x: u64 = r as u64;
        let w: u64 = m as u64;
        proof {
            assert(x * x <= 0xffff_ffff * 0xffff_ffff) by (nonlinear_arith)
                requires
                    x <= 0xffff_ffff,
            ;
        }
        let square: u64 = x * x % w;
        proof {
            assert(square * x <= 0xffff_ffff * 0xffff_ffff) by (nonlinear_arith)
                requires
                    x <= 0xffff_ffff,
                    square <= 0xffff_ffff,
            ;
        }
        let cube: u64 = square * x % w;
        proof {
            let n = r as int;
            lemma_mul_mod_noop_left(n * n, n, w as int);
            lemma_add_mod_noop(n * n, n * n * n, w as int);
        }
        let ghost before = v@;
        if (square + cube) % w == target {
            v.push(r);
            proof {
                assert forall|y: u32| #[trigger] v@.contains(y) <==> (y < r + 1
                    && nice::passes_residue(y as int, b)) by {
                    if before.contains(y) {
                        let i = choose|i: int| 0 <= i < before.len() && before[i] == y;
                        assert(v@[i] == y);
                    }
                    if y == r {
                        assert(v@[before.len() as int] == y);
                    }
                    if v@.contains(y) && y != r {
                        let i = choose|i: int| 0 <= i < v@.len() && v@[i] == y;
                        assert(before[i] == y);
                    }
                }
            }
        } else {
            proof {
                assert(!nice::passes_residue(r as int, b));
            }
        }
        r = r + 1;
    }
    v
}

} // verus!
