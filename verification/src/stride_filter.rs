//! Stride-based iteration using the Chinese Remainder Theorem (CRT).
//!
//! Instead of iterating through every integer and filtering, CRT combines the
//! residue filter (mod b-1) and the multi-digit LSD filter (mod b^k) into a
//! single modulus M = (b-1) × b^k.
//!
//! The table holds which residues mod M are valid; iteration jumps from one
//! valid candidate to the next along a gap table and never visits an invalid
//! candidate.

use vstd::arithmetic::div_mod::*;
use vstd::arithmetic::mul::*;
use vstd::arithmetic::power::*;
use vstd::prelude::*;

use crate::digits;
use crate::guarantees;
use crate::lsd_filter;
use crate::mask;
use crate::nice;
use crate::phase1;
use crate::residue_filter;

verus! {

/// A precomputed stride table for CRT-based iteration.
///
/// Residues and gaps are stored as `u32`. This caps the modulus at `u32::MAX`,
/// which any base ≤ 256 with k ≤ 3 satisfies, and keeps the table compact.
pub struct StrideTable {
    /// The combined modulus: M = (b-1) × b^k
    pub modulus: u128,
    /// The number of low digits fixed by each residue (the LSD filter depth)
    pub k: u32,
    /// Sorted list of valid residues mod M
    pub valid_residues: Vec<u32>,
    /// Gap from each valid residue to the next; the last entry wraps around
    pub gap_table: Vec<u32>,
    /// Per-residue bitmask of the 2k fixed low digits of n² and n³ (bit d set
    /// = digit d appears). Empty when base > 64 (digits would not fit a `u64`
    /// mask); iteration then falls back to the unseeded check.
    pub low_digit_masks: Vec<u64>,
}

/// The distance from residue `i` to the next one, around the modulus.
pub open spec fn gap_after(residues: Seq<u32>, modulus: int, i: int) -> int {
    if i + 1 < residues.len() {
        residues[i + 1] - residues[i]
    } else {
        modulus - residues[i] + residues[0]
    }
}

impl StrideTable {
    /// Whether the residues and gaps describe a cycle: strictly ascending
    /// residues below the modulus, and the gaps between neighbours.
    pub open spec fn is_cycle(&self) -> bool {
        &&& 0 < self.modulus <= u32::MAX
        &&& self.gap_table@.len() == self.valid_residues@.len()
        &&& forall|i: int, j: int|
            0 <= i < j < self.valid_residues@.len() ==> self.valid_residues@[i]
                < self.valid_residues@[j]
        &&& forall|i: int|
            0 <= i < self.valid_residues@.len() ==> #[trigger] self.valid_residues@[i]
                < self.modulus
        &&& forall|i: int|
            0 <= i < self.gap_table@.len() ==> #[trigger] self.gap_table@[i] == gap_after(
                self.valid_residues@,
                self.modulus as int,
                i,
            )
    }

    /// Whether `n` falls on a residue of the table.
    pub open spec fn visits(&self, n: int) -> bool {
        self.valid_residues@.contains((n % self.modulus as int) as u32)
    }

    /// Whether this is the table of `base` at depth `self.k`: its residues are
    /// the candidates below the modulus, and its masks hold their low digits.
    pub open spec fn tabulates(&self, base: u32) -> bool {
        &&& base >= 2
        &&& self.is_cycle()
        &&& self.modulus == (base - 1) * pow(base as int, self.k as nat)
        &&& forall|r: u32| #[trigger]
            self.valid_residues@.contains(r) <==> (r < self.modulus && nice::is_candidate(
                r as int,
                base as int,
                self.k as nat,
            ))
        &&& self.low_digit_masks@.len() == if base <= 64 {
            self.valid_residues@.len()
        } else {
            0
        }
        &&& forall|i: int|
            0 <= i < self.low_digit_masks@.len() ==> mask::is_mask_of(
                #[trigger] self.low_digit_masks@[i],
                nice::low_digits(
                    self.valid_residues@[i] as int,
                    base as int,
                    self.k as nat,
                ),
            )
    }

    /// Whether some number from `x` on that the table visits fits in a `u128`.
    pub open spec fn reaches(&self, x: int) -> bool {
        ||| x + self.modulus <= u128::MAX
        ||| exists|n: u128| x <= n && #[trigger] self.visits(n as int)
    }

    /// The table visits exactly the candidates of its base and depth.
    pub proof fn lemma_visits_candidates(&self, base: u32, n: int)
        requires
            self.tabulates(base),
            n >= 0,
        ensures
            self.visits(n) <==> nice::is_candidate(n, base as int, self.k as nat),
    {
        let m = self.modulus as int;
        lemma_mod_bound(n, m);
        nice::lemma_candidate_periodic(n, base as int, self.k as nat);
        let r = (n % m) as u32;
        assert(self.valid_residues@.contains(r) <==> (r < self.modulus && nice::is_candidate(
            r as int,
            base as int,
            self.k as nat,
        )));
    }

    /// Create the stride table for the given base and k-digit LSD filter. The
    /// modulus (base-1) × base^k has to fit in `u32`.
    pub fn new(base: u32, k: u32) -> (table: Self)
        requires
            base >= 2,
            (base - 1) * pow(base as int, k as nat) <= u32::MAX,
        ensures
            table.k == k,
            table.tabulates(base),
            table.modulus == (base - 1) * pow(base as int, k as nat),
            forall|r: u32| #[trigger]
                table.valid_residues@.contains(r) <==> {
                    let n = r as int;
                    let b = base as int;
                    &&& n < table.modulus
                    &&& (n * n + n * n * n) % (b - 1) == (b * (b - 1) / 2) % (b - 1)
                    &&& forall|i: nat, j: nat|
                        #![trigger pow(b, i), pow(b, j)]
                        i < k && j < k ==> {
                            &&& n * n / pow(b, i) % b != n * n * n / pow(b, j) % b
                            &&& i != j ==> n * n / pow(b, i) % b != n * n / pow(b, j) % b
                            &&& i != j ==> n * n * n / pow(b, i) % b != n * n * n / pow(b, j) % b
                        }
                },
    {
        let b_minus_1: u32 = base - 1;
        let b_k: u32 = power_in_range(base, k);
        proof {
            lemma_mul_strictly_positive(b_minus_1 as int, b_k as int);
        }
        let modulus: u32 = b_minus_1 * b_k;

        let residue_ok: Vec<bool> = residue_table(base);
        let lsd_bitmap: Vec<bool> = lsd_filter::get_valid_multi_lsd_bitmap(base, k);

        let valid_residues: Vec<u32> = combine(base, k, b_k, modulus, &residue_ok, &lsd_bitmap);
        let gap_table: Vec<u32> = gaps_between(&valid_residues, modulus);
        let low_digit_masks: Vec<u64> = if base <= 64 {
            masks_of(&valid_residues, base, k, b_k)
        } else {
            Vec::new()
        };
        let table: StrideTable = StrideTable {
            modulus: modulus as u128,
            k,
            valid_residues,
            gap_table,
            low_digit_masks,
        };
        proof {
            guarantees::law_table_residues(table, base);
        }
        table
    }
}

/// `base^k`, given that the modulus built on it fits.
pub(crate) fn power_in_range(base: u32, k: u32) -> (p: u32)
    requires
        base >= 2,
        (base - 1) * pow(base as int, k as nat) <= u32::MAX,
    ensures
        p == pow(base as int, k as nat),
        p > 0,
{
    proof {
        let p = pow(base as int, k as nat);
        let c = base - 1;
        lemma_pow_positive(base as int, k as nat);
        assert(p <= c * p) by (nonlinear_arith)
            requires
                c >= 1,
                p >= 0,
        ;
    }
    match digits::checked_pow(base, k) {
        Some(p) => p,
        None => 1,
    }
}

/// The residue filter as a direct-index table.
fn residue_table(base: u32) -> (ok: Vec<bool>)
    requires
        base >= 2,
    ensures
        ok@.len() == base - 1,
        forall|r: int|
            0 <= r < ok@.len() ==> #[trigger] ok@[r] == nice::passes_residue(r, base as int),
{
    let set: Vec<u32> = residue_filter::get_residue_filter(&base);
    let mut ok: Vec<bool> = vec![false; (base - 1) as usize];
    let mut i: usize = 0;
    while i < set.len()
        invariant
            base >= 2,
            i <= set@.len(),
            ok@.len() == base - 1,
            forall|r: u32| #[trigger]
                set@.contains(r) <==> (r < base - 1 && nice::passes_residue(
                    r as int,
                    base as int,
                )),
            forall|r: int|
                0 <= r < ok@.len() ==> #[trigger] ok@[r] == set@.take(i as int).contains(r as u32),
        decreases set@.len() - i,
    {
        let r: u32 = set[i];
        proof {
            assert(set@.contains(r));
        }
        ok.set(r as usize, true);
        proof {
            let t = set@.take(i as int);
            let u = set@.take(i as int + 1);
            assert(u =~= t.push(r));
            assert forall|x: int| 0 <= x < ok@.len() implies #[trigger] ok@[x] == u.contains(
                x as u32,
            ) by {
                if t.contains(x as u32) {
                    let j = choose|j: int| 0 <= j < t.len() && t[j] == x as u32;
                    assert(u[j] == x as u32);
                }
                if x == r {
                    assert(u[i as int] == x as u32);
                }
                if u.contains(x as u32) && x != r {
                    let j = choose|j: int| 0 <= j < u.len() && u[j] == x as u32;
                    assert(t[j] == x as u32);
                }
            }
        }
        i = i + 1;
    }
    proof {
        assert(set@.take(i as int) =~= set@);
        assert forall|r: int| 0 <= r < ok@.len() implies #[trigger] ok@[r] == nice::passes_residue(
            r,
            base as int,
        ) by {
            assert(set@.contains(r as u32) <==> (r < base - 1 && nice::passes_residue(
                r,
                base as int,
            )));
        }
    }
    ok
}

/// All residues below the modulus that pass both filters, in ascending order.
fn combine(
    base: u32,
    k: u32,
    b_k: u32,
    modulus: u32,
    residue_ok: &Vec<bool>,
    lsd_bitmap: &Vec<bool>,
) -> (valid: Vec<u32>)
    requires
        base >= 2,
        b_k == pow(base as int, k as nat),
        b_k > 0,
        residue_ok@.len() == base - 1,
        lsd_bitmap@.len() == b_k,
        forall|r: int|
            0 <= r < residue_ok@.len() ==> #[trigger] residue_ok@[r] == nice::passes_residue(
                r,
                base as int,
            ),
        forall|s: int|
            0 <= s < lsd_bitmap@.len() ==> #[trigger] lsd_bitmap@[s] == nice::passes_lsd(
                s,
                base as int,
                k as nat,
            ),
    ensures
        forall|i: int, j: int| 0 <= i < j < valid@.len() ==> valid@[i] < valid@[j],
        forall|i: int| 0 <= i < valid@.len() ==> #[trigger] valid@[i] < modulus,
        forall|r: u32| #[trigger]
            valid@.contains(r) <==> (r < modulus && nice::is_candidate(
                r as int,
                base as int,
                k as nat,
            )),
{
    let ghost b = base as int;
    let b_minus_1: u32 = base - 1;
    let mut valid: Vec<u32> = Vec::new();
    let mut r: u32 = 0;
    while r < modulus
        invariant
            base >= 2,
            b == base,
            b_minus_1 == base - 1,
            b_k == pow(base as int, k as nat),
            b_k > 0,
            residue_ok@.len() == base - 1,
            lsd_bitmap@.len() == b_k,
            forall|x: int|
                0 <= x < residue_ok@.len() ==> #[trigger] residue_ok@[x] == nice::passes_residue(
                    x,
                    base as int,
                ),
            forall|s: int|
                0 <= s < lsd_bitmap@.len() ==> #[trigger] lsd_bitmap@[s] == nice::passes_lsd(
                    s,
                    base as int,
                    k as nat,
                ),
            r <= modulus,
            forall|i: int, j: int| 0 <= i < j < valid@.len() ==> valid@[i] < valid@[j],
            forall|i: int| 0 <= i < valid@.len() ==> #[trigger] valid@[i] < r,
            forall|x: u32| #[trigger]
                valid@.contains(x) <==> (x < r && nice::is_candidate(x as int, b, k as nat)),
        decreases modulus - r,
    {
        proof {
            nice::lemma_residue_periodic(r as int, b);
            nice::lemma_low_digits_periodic(r as int, b, k as nat);
        }
        let passes_residue: bool = residue_ok[(r % b_minus_1) as usize];
        let passes_lsd: bool = lsd_bitmap[(r % b_k) as usize];
        let ghost before = valid@;
        if passes_residue && passes_lsd {
            valid.push(r);
            proof {
                assert forall|y: u32| #[trigger] valid@.contains(y) <==> (y < r + 1
                    && nice::is_candidate(y as int, b, k as nat)) by {
                    if before.contains(y) {
                        let i = choose|i: int| 0 <= i < before.len() && before[i] == y;
                        assert(valid@[i] == y);
                    }
                    if y == r {
                        assert(valid@[before.len() as int] == y);
                    }
                    if valid@.contains(y) && y != r {
                        let i = choose|i: int| 0 <= i < valid@.len() && valid@[i] == y;
                        assert(before[i] == y);
                    }
                }
            }
        } else {
            proof {
                assert(!nice::is_candidate(r as int, b, k as nat));
            }
        }
        r = r + 1;
    }
    valid
}

/// The gaps between neighbouring residues, the last one around the modulus.
fn gaps_between(residues: &Vec<u32>, modulus: u32) -> (gaps: Vec<u32>)
    requires
        forall|i: int, j: int| 0 <= i < j < residues@.len() ==> residues@[i] < residues@[j],
        forall|i: int| 0 <= i < residues@.len() ==> #[trigger] residues@[i] < modulus,
    ensures
        gaps@.len() == residues@.len(),
        forall|i: int|
            0 <= i < gaps@.len() ==> #[trigger] gaps@[i] == gap_after(
                residues@,
                modulus as int,
                i,
            ),
{
    let len: usize = residues.len();
    let mut gaps: Vec<u32> = Vec::new();
    let mut i: usize = 0;
    while i < len
        invariant
            i <= len,
            len == residues@.len(),
            forall|i: int, j: int| 0 <= i < j < residues@.len() ==> residues@[i] < residues@[j],
            forall|i: int| 0 <= i < residues@.len() ==> #[trigger] residues@[i] < modulus,
            gaps@.len() == i,
            forall|j: int|
                0 <= j < i ==> #[trigger] gaps@[j] == gap_after(residues@, modulus as int, j),
        decreases len - i,
    {
        let next_gap: u32 = if i + 1 < len {
            residues[i + 1] - residues[i]
        } else {
            proof {
                if i > 0 {
                    assert(residues@[0] < residues@[i as int]);
                }
            }
            modulus - residues[i] + residues[0]
        };
        gaps.push(next_gap);
        i = i + 1;
    }
    gaps
}

/// Add the `k` lowest digits of `x` to a mask.
fn mask_lowest(x: u64, base: u32, k: u32, seed: u64, Ghost(first): Ghost<Seq<int>>) -> (m: u64)
    requires
        2 <= base <= 64,
        mask::is_mask_of(seed, first),
    ensures
        mask::is_mask_of(m, first + lsd_filter::lowest(x as int, base as int, k as nat)),
{
    let ghost b = base as int;
    let ghost s = lsd_filter::lowest(x as int, b, k as nat);
    let mut m: u64 = seed;
    let mut v: u64 = x;
    let mut i: u32 = 0;
    proof {
        digits::lemma_pow_step(b, 0);
        lemma_div_basics(x as int);
        assert(first + s.take(0) =~= first);
    }
    while i < k
        invariant
            2 <= base <= 64,
            b == base,
            i <= k,
            s == lsd_filter::lowest(x as int, b, k as nat),
            v == x as int / pow(b, i as nat),
            mask::is_mask_of(m, first + s.take(i as int)),
        decreases k - i,
    {
        let d: u64 = v % (base as u64);
        proof {
            digits::lemma_pow_step(b, i as nat);
            lemma_div_denominator(x as int, pow(b, i as nat), b);
            lemma_mul_is_commutative(b, pow(b, i as nat));
            assert(s[i as int] == d);
            mask::lemma_mask_push(m, first + s.take(i as int), d);
            assert(first + s.take(i as int + 1) =~= (first + s.take(i as int)).push(d as int));
        }
        m = m | (1u64 << d);
        v = v / (base as u64);
        i = i + 1;
    }
    proof {
        assert(s.take(k as int) =~= s);
    }
    m
}

/// The masks of the fixed low digits, one per residue.
fn masks_of(residues: &Vec<u32>, base: u32, k: u32, b_k: u32) -> (masks: Vec<u64>)
    requires
        2 <= base <= 64,
        b_k == pow(base as int, k as nat),
        b_k > 0,
    ensures
        masks@.len() == residues@.len(),
        forall|i: int|
            0 <= i < masks@.len() ==> mask::is_mask_of(
                #[trigger] masks@[i],
                nice::low_digits(residues@[i] as int, base as int, k as nat),
            ),
{
    let ghost b = base as int;
    let m: u64 = b_k as u64;
    let mut masks: Vec<u64> = Vec::new();
    let mut i: usize = 0;
    while i < residues.len()
        invariant
            2 <= base <= 64,
            b == base,
            b_k == pow(base as int, k as nat),
            b_k > 0,
            m == b_k,
            i <= residues@.len(),
            masks@.len() == i,
            forall|j: int|
                0 <= j < masks@.len() ==> mask::is_mask_of(
                    #[trigger] masks@[j],
                    nice::low_digits(residues@[j] as int, base as int, k as nat),
                ),
        decreases residues@.len() - i,
    {
        let r: u32 = residues[i];
        let suffix: u64 = (r % b_k) as u64;
        proof {
            assert(suffix * suffix <= 0xffff_ffff * 0xffff_ffff) by (nonlinear_arith)
                requires
                    suffix <= 0xffff_ffff,
            ;
        }
        let square: u64 = suffix * suffix % m;
        proof {
            assert(square * suffix <= 0xffff_ffff * 0xffff_ffff) by (nonlinear_arith)
                requires
                    suffix <= 0xffff_ffff,
                    square <= 0xffff_ffff,
            ;
        }
        let cube: u64 = square * suffix % m;
        proof {
            let n = suffix as int;
            mask::lemma_mask_of_empty();
            nice::lemma_low_digits_periodic(r as int, b, k as nat);
            lemma_mul_mod_noop_left(n * n, n, m as int);
            lsd_filter::lemma_low_digits_of_residues(n, b, k as nat);
        }
        let ghost sq = lsd_filter::lowest(square as int, b, k as nat);
        let half: u64 = mask_lowest(square, base, k, 0, Ghost(Seq::empty()));
        proof {
            assert(Seq::<int>::empty() + sq =~= sq);
        }
        let full: u64 = mask_lowest(cube, base, k, half, Ghost(sq));
        masks.push(full);
        i = i + 1;
    }
    masks
}

/// `q` whole turns and `x` more leave the residue `x`.
proof fn lemma_residue_at(q: int, x: int, m: int)
    requires
        0 <= x < m,
    ensures
        (m * q + x) % m == x,
{
    lemma_mul_is_commutative(m, q);
    lemma_fundamental_div_mod_converse(m * q + x, m, q, x);
}

impl StrideTable {
    /// The table visits nothing strictly between two neighbouring residues.
    proof fn lemma_no_residue_between(&self, x: int, i: int)
        requires
            self.is_cycle(),
            -1 <= i < self.valid_residues@.len(),
            0 <= x < self.modulus,
            i >= 0 ==> self.valid_residues@[i] < x,
            i + 1 < self.valid_residues@.len() ==> x < self.valid_residues@[i + 1],
        ensures
            !self.valid_residues@.contains(x as u32),
    {
        let v = self.valid_residues@;
        if v.contains(x as u32) {
            let j = choose|j: int| 0 <= j < v.len() && v[j] == x as u32;
            if j < i {
                assert(v[j] < v[i]);
            } else if j > i + 1 {
                assert(v[i + 1] < v[j]);
            }
        }
    }

    /// The gap after residue `i` leads to the next residue, and the table
    /// visits nothing in between.
    pub proof fn lemma_step(&self, n: int, i: int)
        requires
            self.is_cycle(),
            0 <= i < self.valid_residues@.len(),
            n >= 0,
            n % self.modulus as int == self.valid_residues@[i],
        ensures
            0 < self.gap_table@[i] <= self.modulus,
            (n + self.gap_table@[i]) % self.modulus as int == self.valid_residues@[(i + 1) % (
            self.valid_residues@.len() as int)],
            forall|x: int| n < x < n + self.gap_table@[i] ==> !#[trigger] self.visits(x),
    {
        let v = self.valid_residues@;
        let m = self.modulus as int;
        let q = n / m;
        let g = self.gap_table@[i] as int;
        let len = v.len() as int;
        lemma_fundamental_div_mod(n, m);
        if i + 1 < len {
            assert(v[i] < v[i + 1]);
            lemma_small_mod((i + 1) as nat, len as nat);
            lemma_residue_at(q, v[i + 1] as int, m);
        } else {
            lemma_mod_self_0(len);
            if i > 0 {
                assert(v[0] < v[i]);
            }
            lemma_residue_at(q + 1, v[0] as int, m);
            assert(m * (q + 1) == m * q + m) by (nonlinear_arith);
        }
        assert forall|x: int| n < x < n + g implies !#[trigger] self.visits(x) by {
            let y = x - m * q;
            if y < m {
                lemma_residue_at(q, y, m);
                self.lemma_no_residue_between(y, i);
            } else {
                assert(m * (q + 1) == m * q + m) by (nonlinear_arith);
                lemma_residue_at(q + 1, y - m, m);
                self.lemma_no_residue_between(y - m, -1);
            }
        }
    }

    /// Along a walk every stop is a residue of the table.
    pub proof fn lemma_walk_stops(&self, n: int, i: int, j: nat)
        requires
            self.is_cycle(),
            0 <= i < self.valid_residues@.len(),
            n >= 0,
            n % self.modulus as int == self.valid_residues@[i],
        ensures
            j <= phase1::reach(self.gap_table@, i, j),
            (n + phase1::reach(self.gap_table@, i, j)) % self.modulus as int
                == self.valid_residues@[(i + j) % (self.valid_residues@.len() as int)],
        decreases j,
    {
        let len = self.valid_residues@.len() as int;
        if j == 0 {
            lemma_small_mod(i as nat, len as nat);
        } else {
            let p = (j - 1) as nat;
            self.lemma_walk_stops(n, i, p);
            let at = (i + p) % len;
            lemma_mod_bound(i + p, len);
            self.lemma_step(n + phase1::reach(self.gap_table@, i, p), at);
            lemma_add_mod_noop(i + p, 1, len);
            lemma_add_mod_noop(at, 1, len);
            lemma_mod_twice(i + p, len);
        }
    }

    /// A walk stops at everything that the table visits along its way.
    pub proof fn lemma_walk_misses_nothing(&self, n: int, i: int, m: nat, x: int) -> (j: nat)
        requires
            self.is_cycle(),
            0 <= i < self.valid_residues@.len(),
            n >= 0,
            n % self.modulus as int == self.valid_residues@[i],
            n <= x < n + phase1::reach(self.gap_table@, i, m),
            self.visits(x),
        ensures
            j < m,
            x == n + phase1::reach(self.gap_table@, i, j),
        decreases m,
    {
        let len = self.valid_residues@.len() as int;
        let p = (m - 1) as nat;
        let at = n + phase1::reach(self.gap_table@, i, p);
        if x < at {
            self.lemma_walk_misses_nothing(n, i, p, x)
        } else {
            self.lemma_walk_stops(n, i, p);
            lemma_mod_bound(i + p, len);
            self.lemma_step(at, (i + p) % len);
            p
        }
    }

    /// The gaps from residue `i` on to residue `i + m`, short of the wrap, add
    /// up to the difference of the two.
    proof fn lemma_reach_is_difference(&self, i: int, m: nat)
        requires
            self.is_cycle(),
            0 <= i,
            i + m < self.valid_residues@.len(),
        ensures
            phase1::reach(self.gap_table@, i, m) == self.valid_residues@[i + m]
                - self.valid_residues@[i],
        decreases m,
    {
        if m > 0 {
            self.lemma_reach_is_difference(i, (m - 1) as nat);
            lemma_small_mod((i + m - 1) as nat, self.gap_table@.len());
        }
    }

    /// The gap table covers the full cycle: its entries add up to the modulus.
    pub proof fn lemma_gaps_cover_cycle(&self)
        requires
            self.is_cycle(),
            self.valid_residues@.len() > 0,
        ensures
            phase1::reach(self.gap_table@, 0, self.gap_table@.len()) == self.modulus,
    {
        let last = (self.gap_table@.len() - 1) as nat;
        self.lemma_reach_is_difference(0, last);
        lemma_small_mod(last, self.gap_table@.len());
    }

    /// The index of the first residue that is at least `r`, or the number of
    /// residues when there is none.
    fn lower_bound(&self, r: u32) -> (idx: usize)
        requires
            self.is_cycle(),
        ensures
            idx <= self.valid_residues@.len(),
            forall|i: int| 0 <= i < idx ==> #[trigger] self.valid_residues@[i] < r,
            forall|i: int|
                idx <= i < self.valid_residues@.len() ==> #[trigger] self.valid_residues@[i] >= r,
    {
        let mut lo: usize = 0;
        let mut hi: usize = self.valid_residues.len();
        while lo < hi
            invariant
                self.is_cycle(),
                lo <= hi <= self.valid_residues@.len(),
                forall|i: int| 0 <= i < lo ==> #[trigger] self.valid_residues@[i] < r,
                forall|i: int|
                    hi <= i < self.valid_residues@.len() ==> #[trigger] self.valid_residues@[i]
                        >= r,
            decreases hi - lo,
        {
            let mid: usize = lo + (hi - lo) / 2;
            if self.valid_residues[mid] < r {
                lo = mid + 1;
            } else {
                hi = mid;
            }
        }
        lo
    }

    /// How far the first valid candidate `>= start` lies past `start`, and the
    /// index of its residue.
    fn step_to_next(&self, start: u128) -> (r: (u128, usize))
        requires
            self.is_cycle(),
            self.valid_residues@.len() > 0,
        ensures
            r.0 < self.modulus,
            self.visits(start + r.0),
            forall|x: int| start <= x < start + r.0 ==> !#[trigger] self.visits(x),
            r.1 < self.valid_residues@.len(),
            self.valid_residues@[r.1 as int] == (start + r.0) % self.modulus as int,
            start + r.0 <= u128::MAX <==> self.reaches(start as int),
    {
        let ghost v = self.valid_residues@;
        let ghost m = self.modulus as int;
        let r: u128 = start % self.modulus;
        let found: usize = self.lower_bound(r as u32);
        let idx: usize = if found < self.valid_residues.len() {
            found
        } else {
            0
        };
        let target_r: u128 = self.valid_residues[idx] as u128;
        let step: u128 = if target_r >= r {
            target_r - r
        } else {
            self.modulus - r + target_r
        };
        proof {
            let q = start as int / m;
            lemma_fundamental_div_mod(start as int, m);
            assert(m * (q + 1) == m * q + m) by (nonlinear_arith);
            let n = start + step;
            if found < v.len() {
                lemma_residue_at(q, target_r as int, m);
            } else {
                assert(v[0] < r);
                lemma_residue_at(q + 1, target_r as int, m);
            }
            assert(n % m == target_r);
            assert(v[idx as int] == target_r);
            assert(self.visits(n));
            assert forall|x: int| start <= x < n implies !#[trigger] self.visits(x) by {
                let y = x - m * q;
                if y < m {
                    lemma_residue_at(q, y, m);
                    if v.contains(y as u32) {
                        let j = choose|j: int| 0 <= j < v.len() && v[j] == y as u32;
                        if found < v.len() && j > found {
                            assert(v[found as int] < v[j]);
                        }
                    }
                } else {
                    lemma_residue_at(q + 1, y - m, m);
                    self.lemma_no_residue_between(y - m, -1);
                }
            }
            if n <= u128::MAX {
                assert(start <= n as u128 && self.visits((n as u128) as int));
            } else if self.reaches(start as int) {
                let c = choose|c: u128| start <= c && #[trigger] self.visits(c as int);
                assert(n <= c);
            }
        }
        (step, idx)
    }

    /// Find the first valid candidate >= start and return `(candidate, gap_index)`.
    ///
    /// The candidate is the smallest `n >= start` with `n % M` in
    /// `valid_residues`, and the index that of its residue in
    /// `valid_residues` and `gap_table`.
    pub fn first_valid_at_or_after(&self, start: u128) -> (r: (u128, usize))
        requires
            self.is_cycle(),
            self.valid_residues@.len() > 0,
            self.reaches(start as int),
        ensures
            start <= r.0 < start + self.modulus,
            self.visits(r.0 as int),
            forall|x: int| start <= x < r.0 ==> !#[trigger] self.visits(x),
            r.1 < self.valid_residues@.len(),
            self.valid_residues@[r.1 as int] == r.0 % self.modulus,
    {
        let (step, idx) = self.step_to_next(start);
        (start + step, idx)
    }

    /// Whether the first valid candidate at or after `start` fits in a `u128`,
    /// so that [`StrideTable::first_valid_at_or_after`] can return it.
    pub fn has_valid_at_or_after(&self, start: u128) -> (r: bool)
        requires
            self.is_cycle(),
        ensures
            r == (self.valid_residues@.len() > 0 && self.reaches(start as int)),
    {
        if self.valid_residues.len() == 0 {
            return false;
        }
        let (step, _idx) = self.step_to_next(start);
        step <= u128::MAX - start
    }
}

impl StrideTable {
    /// Every low-digit mask holds exactly `2k` digits: `k` from the square, `k`
    /// from the cube, all distinct.
    pub proof fn lemma_masks_hold_2k_digits(&self, base: u32, i: int)
        requires
            self.tabulates(base),
            0 <= i < self.low_digit_masks@.len(),
        ensures
            mask::digit_set(self.low_digit_masks@[i]).len() == 2 * self.k,
    {
        let b = base as int;
        let k = self.k as nat;
        let r = self.valid_residues@[i] as int;
        let l = nice::low_digits(r, b, k);
        nice::lemma_powers_nonnegative(r);
        assert(self.valid_residues@.contains(self.valid_residues@[i]));
        assert forall|j: int| 0 <= j < l.len() implies 0 <= #[trigger] l[j] < 64 by {
            digits::lemma_digit_range(r * r, b, j as nat);
            if j >= k {
                digits::lemma_digit_range(r * r * r, b, (j - k) as nat);
            }
        }
        mask::lemma_mask_size(self.low_digit_masks@[i], l);
    }

    /// A deeper table of the same base visits nothing that a shallower one
    /// leaves out.
    pub proof fn lemma_deeper_table_visits_fewer(&self, deeper: &StrideTable, base: u32, n: int)
        requires
            self.tabulates(base),
            deeper.tabulates(base),
            self.k <= deeper.k,
            n >= 0,
            deeper.visits(n),
        ensures
            self.visits(n),
    {
        self.lemma_visits_candidates(base, n);
        deeper.lemma_visits_candidates(base, n);
        nice::lemma_deeper_candidates_are_fewer(n, base as int, self.k as nat, deeper.k as nat);
    }

    /// The table visits every nice number whose square has at least `k`
    /// digits.
    pub proof fn lemma_visits_every_nice(&self, base: u32, n: int)
        requires
            self.tabulates(base),
            n >= 0,
            nice::is_nice(n, base as int),
            self.k <= digits::digits(n * n, base as int).len() || 5 * self.k <= 2 * base + 3,
        ensures
            self.visits(n),
    {
        self.lemma_visits_candidates(base, n);
        nice::lemma_nice_is_candidate(n, base as int, self.k as nat);
    }
}

/// The modulus of every base up to 256 fits in `u32` at every depth up to 3.
pub proof fn lemma_common_tables_fit(base: u32, k: u32)
    requires
        2 <= base <= 256,
        k <= 3,
    ensures
        (base - 1) * pow(base as int, k as nat) <= u32::MAX,
{
    let b = base as int;
    let p = pow(b, k as nat);
    digits::lemma_pow_step(b, 0);
    digits::lemma_pow_step(b, 1);
    digits::lemma_pow_step(b, 2);
    lemma_pow_increases(b as nat, k as nat, 3);
    assert(b * (b * b) <= 256 * 65536) by (nonlinear_arith)
        requires
            2 <= b <= 256,
    ;
    lemma_pow_positive(b, k as nat);
    assert((b - 1) * p <= 255 * (256 * 65536)) by (nonlinear_arith)
        requires
            2 <= b <= 256,
            0 < p <= 256 * 65536,
    ;
}

/// Bounds on the powers that a table in `u32` is built on.
pub proof fn lemma_power_bounds(b: int, k: nat)
    requires
        b >= 2,
        k >= 1,
        (b - 1) * pow(b, k) <= u32::MAX,
    ensures
        0 < pow(b, k) <= u32::MAX,
        pow(b, 2 * k) == pow(b, k) * pow(b, k),
        (b - 1) * pow(b, k) < pow(b, 2 * k) <= phase1::WORD_LIMIT,
{
    let p = pow(b, k);
    let c = b - 1;
    lemma_pow_positive(b, k);
    lemma_pow_adds(b, k, k);
    digits::lemma_pow_step(b, (k - 1) as nat);
    lemma_pow_positive(b, (k - 1) as nat);
    let q = pow(b, (k - 1) as nat);
    assert(b <= p) by (nonlinear_arith)
        requires
            p == b * q,
            q >= 1,
            b >= 2,
    ;
    assert(c * p < p * p) by (nonlinear_arith)
        requires
            c < p,
            p > 0,
    ;
    assert(p <= c * p) by (nonlinear_arith)
        requires
            c >= 1,
            p > 0,
    ;
    if b >= 3 {
        assert(2 * p <= c * p) by (nonlinear_arith)
            requires
                c >= 2,
                p > 0,
        ;
    } else {
        lemma_pow_of_two(k);
    }
    assert(p <= 0x8000_0000);
    assert(p * p <= 0x8000_0000 * 0x8000_0000) by (nonlinear_arith)
        requires
            0 <= p <= 0x8000_0000,
    ;
}

/// A power of two below `2^32` is at most `2^31`.
proof fn lemma_pow_of_two(k: nat)
    requires
        pow(2, k) <= u32::MAX,
    ensures
        pow(2, k) <= 0x8000_0000,
{
    reveal_with_fuel(pow, 33);
    if k >= 32 {
        lemma_pow_increases(2, 32, k);
    } else if k < 31 {
        lemma_pow_increases(2, k, 31);
    }
}

} // verus!
