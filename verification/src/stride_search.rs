//! Searching a range along a stride table.

use vstd::arithmetic::div_mod::*;
use vstd::arithmetic::power::*;
use vstd::prelude::*;
use vstd::set_lib::*;

use crate::affine_filter;
use crate::certificate;
use crate::client_process;
use crate::listing;
use crate::mask;
use crate::nice;
use crate::phase1;
use crate::phase1::{Cursor, Phase1Impl, SurvivorBufs};
use crate::stride_filter;
use crate::stride_filter::StrideTable;
use crate::{FieldSize, NiceNumberSimple};

verus! {

impl StrideTable {
    /// Whether a search of `range` takes the two-phase walk.
    pub open spec fn is_two_phase(&self, range: FieldSize, base: u32) -> bool {
        &&& self.k == 3
        &&& affine_filter::is_specialized(base)
        &&& range.hi() - range.lo() < phase1::WORD_LIMIT
    }

    /// The positions below which a search tests digits against the high mask:
    /// the low digits of the table, the middle digits too with the affine
    /// filter, and none in a base above 64, which has no masks.
    pub open spec fn tested_depth(&self, range: FieldSize, base: u32, use_affine: bool) -> nat {
        if base > 64 {
            0
        } else if use_affine && self.is_two_phase(range, base) {
            2 * self.k as nat
        } else {
            self.k as nat
        }
    }

    /// Whether the candidates that a search of `range` steps on fit in a
    /// `u128`. The two-phase walk steps past the end of the range in offsets.
    pub open spec fn can_walk(&self, range: FieldSize, base: u32, use_affine: bool) -> bool {
        &&& self.valid_residues@.len() > 0
        &&& self.reaches(
            if use_affine && self.is_two_phase(range, base) {
                range.lo()
            } else {
                range.hi()
            },
        )
    }

    /// Whether a search of `range` can run: the table has candidates, and
    /// those that the search steps on fit in a `u128`. `use_affine` tells a
    /// search with the affine filter from one without.
    pub fn can_search(&self, range: &FieldSize, base: u32, use_affine: bool) -> (r: bool)
        requires
            self.tabulates(base),
        ensures
            r == self.can_walk(*range, base, use_affine),
    {
        let two_phase: bool = use_affine && affine_filter::supports(base, self.k) && range.size()
            < phase1::WORD_LIMIT as u128;
        self.has_valid_at_or_after(
            if two_phase {
                range.start()
            } else {
                range.end()
            },
        )
    }

    /// What the table says about a number that it visits.
    proof fn lemma_at_residue(&self, base: u32, n: int, i: int)
        requires
            self.tabulates(base),
            0 <= i < self.valid_residues@.len(),
            n >= 0,
            n % self.modulus as int == self.valid_residues@[i],
        ensures
            nice::is_candidate(n, base as int, self.k as nat),
            base <= 64 ==> mask::is_mask_of(
                self.low_digit_masks@[i],
                nice::low_digits(n, base as int, self.k as nat),
            ),
    {
        assert(self.valid_residues@.contains(self.valid_residues@[i]));
        self.lemma_visits_candidates(base, n);
        nice::lemma_candidate_periodic(n, base as int, self.k as nat);
    }

    /// The plain walk: step from candidate to candidate, test each one's low
    /// mask against the high mask, and run the nice check seeded with it.
    fn iterate_range_plain(
        &self,
        range: &FieldSize,
        base: u32,
        high_mask: u64,
    ) -> (results: Vec<NiceNumberSimple>)
        requires
            self.tabulates(base),
            self.can_walk(*range, base, false),
        ensures
            listing::lists(
                results@,
                base,
                range.lo(),
                range.hi(),
                |n: int|
                    certificate::is_kept(
                        n,
                        base as int,
                        self.k as nat,
                        self.tested_depth(*range, base, false),
                        high_mask,
                    ),
            ),
    {
        let ghost b = base as int;
        let ghost k = self.k as nat;
        let ghost depth = self.tested_depth(*range, base, false);
        let ghost lo = range.lo();
        let ghost hi = range.hi();
        let ghost m = self.modulus as int;
        let glen: usize = self.gap_table.len();
        let end: u128 = range.end();
        let start: u128 = range.start();
        proof {
            if lo + m > u128::MAX {
                let c = choose|c: u128| hi <= c && #[trigger] self.visits(c as int);
                assert(lo <= c);
            }
        }
        let (first, first_idx) = self.first_valid_at_or_after(start);
        let mut n: u128 = first;
        let mut idx: usize = first_idx;
        let mut results: Vec<NiceNumberSimple> = Vec::new();
        proof {
            assert forall|x: int| #[trigger] listing::contains_number(results@, x) <==> (lo <= x < n
                && x < hi && certificate::is_kept(x, b, k, depth, high_mask)) by {
                if lo <= x < n {
                    self.lemma_visits_candidates(base, x);
                }
            }
        }
        while n < end
            invariant
                b == base,
                k == self.k,
                m == self.modulus,
                glen == self.gap_table@.len(),
                depth == self.tested_depth(*range, base, false),
                lo == range.lo(),
                hi == range.hi(),
                end == hi,
                0 <= lo <= n,
                self.tabulates(base),
                self.valid_residues@.len() > 0,
                self.reaches(hi),
                idx < self.valid_residues@.len(),
                n as int % m == self.valid_residues@[idx as int],
                listing::is_ascending(results@, base),
                forall|x: int| #[trigger]
                    listing::contains_number(results@, x) <==> (lo <= x < n && x < hi && certificate::is_kept(
                        x,
                        b,
                        k,
                        depth,
                        high_mask,
                    )),
            decreases (if n < end { end - n } else { 0 }),
        {
            proof {
                self.lemma_at_residue(base, n as int, idx as int);
                self.lemma_step(n as int, idx as int);
            }
            let is_nice: bool = if base > 64 {
                client_process::get_is_nice(n, base)
            } else {
                let low: u64 = self.low_digit_masks[idx];
                proof {
                    certificate::lemma_cross_end(low, n as int, b, k, high_mask);
                }
                low & high_mask == 0 && client_process::get_is_nice_with_known_lsd(
                    n,
                    base,
                    self.k,
                    low,
                )
            };
            let ghost before = results@;
            proof {
                assert(is_nice == certificate::is_kept(n as int, b, k, depth, high_mask));
            }
            if is_nice {
                proof {
                    listing::lemma_push_number(results@, base, n);
                }
                results.push(NiceNumberSimple { number: n, num_uniques: base });
            }
            let gap: u128 = self.gap_table[idx] as u128;
            proof {
                if n + gap > u128::MAX {
                    let c = choose|c: u128| hi <= c && #[trigger] self.visits(c as int);
                    assert(n < c < n + gap);
                }
                assert forall|x: int| #[trigger] listing::contains_number(results@, x) <==> (lo <= x
                    < n + gap && x < hi && certificate::is_kept(x, b, k, depth, high_mask)) by {
                    if n < x < n + gap {
                        self.lemma_visits_candidates(base, x);
                    }
                    assert(listing::contains_number(before, x) <==> (lo <= x < n && x < hi
                        && certificate::is_kept(x, b, k, depth, high_mask)));
                }
                phase1::lemma_index_step(idx as int, self.valid_residues@.len() as int);
            }
            n = n + gap;
            idx = idx + 1;
            if idx == glen {
                idx = 0;
            }
        }
        results
    }
}

impl StrideTable {
    /// Whether `cur` stands on a residue of the table, `off` past `lo`, with
    /// the number there reduced by `b2k`.
    pub open spec fn is_at(&self, cur: Cursor, lo: int, b2k: u64) -> bool {
        &&& cur.idx < self.valid_residues@.len()
        &&& (lo + cur.off) % self.modulus as int == self.valid_residues@[cur.idx as int]
        &&& cur.nmod == (lo + cur.off) % (b2k as int)
    }

    /// Every gap is at most `M`, and `M` is below `b^{2k}`, so that one
    /// conditional subtraction per step keeps a candidate reduced.
    pub proof fn lemma_tables_walk(&self, base: u32, b2k: u64)
        requires
            self.tabulates(base),
            self.k >= 1,
            self.valid_residues@.len() > 0,
            b2k == pow(base as int, 2 * self.k as nat),
        ensures
            0 < self.modulus < b2k <= phase1::WORD_LIMIT,
            phase1::reach(self.gap_table@, 0, self.gap_table@.len()) <= b2k,
            forall|i: int|
                0 <= i < self.gap_table@.len() ==> 0 < #[trigger] self.gap_table@[i]
                    <= self.modulus,
    {
        let b = base as int;
        let k = self.k as nat;
        stride_filter::lemma_power_bounds(b, k);
        self.lemma_gaps_cover_cycle();
        assert forall|i: int| 0 <= i < self.gap_table@.len() implies 0
            < #[trigger] self.gap_table@[i] <= self.modulus by {
            lemma_small_mod(self.valid_residues@[i] as nat, self.modulus as nat);
            self.lemma_step(self.valid_residues@[i] as int, i);
        }
    }

    /// The cursor of the first candidate of `range`.
    fn first_cursor(&self, range: &FieldSize, b2k: u64) -> (cur: Cursor)
        requires
            self.is_cycle(),
            self.valid_residues@.len() > 0,
            self.reaches(range.lo()),
            b2k > 0,
        ensures
            self.is_at(cur, range.lo(), b2k),
            cur.nmod < b2k,
            cur.off < self.modulus,
            forall|x: int| range.lo() <= x < range.lo() + cur.off ==> !#[trigger] self.visits(x),
    {
        let start: u128 = range.start();
        let (n0, idx) = self.first_valid_at_or_after(start);
        Cursor { idx, off: (n0 - start) as u64, nmod: (n0 % (b2k as u128)) as u64 }
    }

    /// Two-phase walk for specialized bases.
    ///
    /// Phase 1 streams the gap and low-mask tables in blocks and compacts the
    /// cross-end survivors (`low & high_mask == 0`) into small buffers. Phase
    /// 2 runs the affine filter and the seeded nice check on the survivors
    /// only. Same candidates and same checks as the plain walk, with the
    /// affine filter ahead of them.
    pub fn iterate_range_two_phase(
        &self,
        range: &FieldSize,
        base: u32,
        high_mask: u64,
        imp: Phase1Impl,
        bufs: &mut SurvivorBufs,
    ) -> (results: Vec<NiceNumberSimple>)
        requires
            self.tabulates(base),
            self.is_two_phase(*range, base),
            self.valid_residues@.len() > 0,
            self.reaches(range.lo()),
        ensures
            listing::lists(
                results@,
                base,
                range.lo(),
                range.hi(),
                |n: int|
                    certificate::is_kept(
                        n,
                        base as int,
                        self.k as nat,
                        self.tested_depth(*range, base, true),
                        high_mask,
                    ),
            ),
    {
        let ghost b = base as int;
        let ghost k = self.k as nat;
        let ghost lo = range.lo();
        let ghost hi = range.hi();
        let ghost g = self.gap_table@;
        let ghost ms = self.low_digit_masks@;
        let b2k: u64 = squared_power(base, self.k);
        proof {
            self.lemma_tables_walk(base, b2k);
        }
        let start: u128 = range.start();
        let end_off: u64 = range.size() as u64;
        let mut cur: Cursor = self.first_cursor(range, b2k);
        let mut results: Vec<NiceNumberSimple> = Vec::new();
        proof {
            assert forall|x: int| #[trigger] listing::contains_number(results@, x) <==> (lo <= x
                < lo + cur.off && x < hi && certificate::is_kept(x, b, k, 6, high_mask)) by {
                if lo <= x < lo + cur.off {
                    self.lemma_visits_candidates(base, x);
                }
            }
        }
        while cur.off < end_off
            invariant
                b == base,
                k == self.k,
                k == 3,
                lo == range.lo(),
                hi == range.hi(),
                g == self.gap_table@,
                ms == self.low_digit_masks@,
                start == lo,
                end_off == hi - lo,
                end_off < phase1::WORD_LIMIT,
                b2k == pow(b, 6),
                self.tabulates(base),
                affine_filter::is_specialized(base),
                self.valid_residues@.len() > 0,
                0 < b2k <= phase1::WORD_LIMIT,
                phase1::reach(g, 0, g.len()) <= b2k,
                forall|i: int| 0 <= i < g.len() ==> 0 < #[trigger] g[i] <= b2k,
                self.is_at(cur, lo, b2k),
                cur.nmod < b2k,
                listing::is_ascending(results@, base),
                forall|x: int| #[trigger]
                    listing::contains_number(results@, x) <==> (lo <= x < lo + cur.off && x < hi
                        && certificate::is_kept(x, b, k, 6, high_mask)),
            decreases (if cur.off < end_off { end_off - cur.off } else { 0 }),
        {
            let (cnt, next) = phase1::phase1(
                imp,
                self.gap_table.as_slice(),
                self.low_digit_masks.as_slice(),
                cur,
                end_off,
                b2k,
                high_mask,
                bufs,
            );
            let ghost m = choose|m: nat|
                {
                    &&& #[trigger] phase1::is_walked(
                        g,
                        ms,
                        cur,
                        end_off,
                        b2k,
                        high_mask,
                        *bufs,
                        0,
                        m,
                        (cnt, next),
                    )
                    &&& m <= phase1::BLOCK
                    &&& m == phase1::BLOCK || next.off >= end_off
                };
            let ghost s = phase1::survivors(g, ms, cur, end_off, b2k, high_mask, m);
            proof {
                phase1::lemma_survivors_len(g, ms, cur, end_off, b2k, high_mask, m);
            }
            let mut i: usize = 0;
            while i < cnt
                invariant
                    b == base,
                    k == self.k,
                    k == 3,
                    g == self.gap_table@,
                    ms == self.low_digit_masks@,
                    start == lo,
                    0 <= lo,
                    end_off == hi - lo,
                    hi <= u128::MAX,
                    b2k == pow(b, 6),
                    self.tabulates(base),
                    affine_filter::is_specialized(base),
                    self.is_at(cur, lo, b2k),
                    0 < b2k,
                    forall|x: int| 0 <= x < g.len() ==> 0 < #[trigger] g[x] <= b2k,
                    s == phase1::survivors(g, ms, cur, end_off, b2k, high_mask, m),
                    phase1::stored(*bufs, 0, s),
                    cnt == s.len(),
                    cnt <= 1040,
                    i <= cnt,
                    listing::is_ascending(results@, base),
                    forall|x: int| #[trigger]
                        listing::contains_number(results@, x) ==> x < lo + cur.off || (exists|
                            l: int,
                        |
                            0 <= l < i && x == lo + (#[trigger] s[l]).off),
                    forall|x: int| #[trigger]
                        listing::contains_number(results@, x) <==> ((lo <= x < lo + cur.off && x
                            < hi && certificate::is_kept(x, b, k, 6, high_mask)) || ((exists|l: int|
                            0 <= l < i && x == lo + (#[trigger] s[l]).off) && certificate::is_kept(
                            x,
                            b,
                            k,
                            6,
                            high_mask,
                        ))),
                decreases cnt - i,
            {
                let low: u64 = bufs.lows[i];
                let nmod: u64 = bufs.nmods[i];
                let off: u64 = bufs.offs[i];
                let ghost n = lo + off;
                let ghost before = results@;
                proof {
                    assert(bufs.entry(0 + i as int) == s[i as int]);
                    let j = phase1::lemma_survivor_source(
                        g,
                        ms,
                        cur,
                        end_off,
                        b2k,
                        high_mask,
                        m,
                        i as int,
                    );
                    self.lemma_candidate_number(base, lo, cur, b2k, j);
                    affine_filter::lemma_reduced_fits(b, nmod as int);
                    assert forall|x: int| listing::contains_number(before, x) implies x < n by {
                        if x >= lo + cur.off {
                            let l = choose|l: int|
                                0 <= l < i && x == lo + (#[trigger] s[l]).off;
                            phase1::lemma_survivors_ascend(
                                g,
                                ms,
                                cur,
                                end_off,
                                b2k,
                                high_mask,
                                m,
                                l,
                                i as int,
                            );
                        }
                    }
                    if nice::is_nice(n, b) {
                        certificate::lemma_affine_on_nice(low, n, base, high_mask);
                    }
                }
                let mut kept: bool = false;
                if affine_filter::survives(base, nmod, low | high_mask) {
                    kept = client_process::get_is_nice_with_known_lsd(
                        start + off as u128,
                        base,
                        self.k,
                        low,
                    );
                }
                proof {
                    assert(kept == certificate::is_kept(n, b, k, 6, high_mask));
                }
                if kept {
                    proof {
                        listing::lemma_push_number(results@, base, (start + off) as u128);
                    }
                    results.push(
                        NiceNumberSimple { number: start + off as u128, num_uniques: base },
                    );
                }
                proof {
                    assert forall|x: int| #[trigger]
                        listing::contains_number(results@, x) <==> ((lo <= x < lo + cur.off && x
                            < hi && certificate::is_kept(x, b, k, 6, high_mask)) || ((exists|l: int|
                            0 <= l < i + 1 && x == lo + (#[trigger] s[l]).off) && certificate::is_kept(
                            x,
                            b,
                            k,
                            6,
                            high_mask,
                        ))) by {
                        assert(listing::contains_number(before, x) <==> ((lo <= x < lo + cur.off
                            && x < hi && certificate::is_kept(x, b, k, 6, high_mask)) || ((exists|l: int|
                            0 <= l < i && x == lo + (#[trigger] s[l]).off) && certificate::is_kept(
                            x,
                            b,
                            k,
                            6,
                            high_mask,
                        ))));
                        if exists|l: int| 0 <= l < i && x == lo + (#[trigger] s[l]).off {
                            let l = choose|l: int| 0 <= l < i && x == lo + (#[trigger] s[l]).off;
                            assert(0 <= l < i + 1 && x == lo + s[l].off);
                        }
                        if x == n {
                            assert(x == lo + s[i as int].off);
                        }
                    }
                }
                i = i + 1;
            }
            proof {
                self.lemma_block_complete(
                    base,
                    lo,
                    hi,
                    cur,
                    end_off,
                    b2k,
                    high_mask,
                    m,
                );
                self.lemma_walk_stops(lo + cur.off, cur.idx as int, m);
                lemma_mod_bound(lo + next.off, b2k as int);
                lemma_mod_bound(cur.idx + m, g.len() as int);
                let far = phase1::reach(g, cur.idx as int, m);
                lemma_add_mod_noop(lo + cur.off, far, b2k as int);
                lemma_add_mod_noop(cur.nmod as int, far, b2k as int);
                lemma_mod_twice(lo + cur.off, b2k as int);
                assert forall|x: int| #[trigger]
                    listing::contains_number(results@, x) <==> (lo <= x < lo + next.off && x < hi
                        && certificate::is_kept(x, b, k, 6, high_mask)) by {
                    if lo + cur.off <= x < lo + next.off && x < hi && certificate::is_kept(
                        x,
                        b,
                        k,
                        6,
                        high_mask,
                    ) {
                        assert(certificate::clear_below(x, b, k, high_mask));
                        assert(exists|l: int| 0 <= l < s.len() && x == lo + (#[trigger] s[l]).off);
                    }
                    if exists|l: int| 0 <= l < cnt && x == lo + (#[trigger] s[l]).off {
                        let l = choose|l: int| 0 <= l < cnt && x == lo + (#[trigger] s[l]).off;
                        let j = phase1::lemma_survivor_source(
                            g,
                            ms,
                            cur,
                            end_off,
                            b2k,
                            high_mask,
                            m,
                            l,
                        );
                        phase1::lemma_reach_monotone(g, cur.idx as int, 0, j);
                        phase1::lemma_reach_monotone(g, cur.idx as int, j + 1, m);
                        phase1::lemma_reach_step(g, cur.idx as int, j);
                        lemma_mod_bound(cur.idx + j, g.len() as int);
                    }
                }
            }
            cur = next;
        }
        results
    }

    /// Candidate `j` of a walk is a number that the table visits, with its own
    /// low mask and its own remainder.
    proof fn lemma_candidate_number(&self, base: u32, lo: int, cur: Cursor, b2k: u64, j: nat)
        requires
            self.tabulates(base),
            base <= 64,
            lo >= 0,
            b2k > 0,
            self.is_at(cur, lo, b2k),
        ensures
            ({
                let c = phase1::candidate(self.gap_table@, self.low_digit_masks@, cur, b2k, j);
                &&& c.off >= cur.off
                &&& c.nmod == (lo + c.off) % (b2k as int)
                &&& 0 <= c.nmod < b2k
                &&& nice::is_candidate(lo + c.off, base as int, self.k as nat)
                &&& mask::is_mask_of(
                    c.low,
                    nice::low_digits(lo + c.off, base as int, self.k as nat),
                )
            }),
    {
        let g = self.gap_table@;
        let far = phase1::reach(g, cur.idx as int, j);
        self.lemma_walk_stops(lo + cur.off, cur.idx as int, j);
        lemma_mod_bound(cur.idx + j, g.len() as int);
        self.lemma_at_residue(base, lo + cur.off + far, (cur.idx + j) % (g.len() as int));
        lemma_add_mod_noop(lo + cur.off, far, b2k as int);
        lemma_add_mod_noop(cur.nmod as int, far, b2k as int);
        lemma_mod_twice(lo + cur.off, b2k as int);
        lemma_mod_bound(lo + cur.off + far, b2k as int);
    }

    /// A block misses no candidate of the range that passes the cross-end
    /// test.
    proof fn lemma_block_complete(
        &self,
        base: u32,
        lo: int,
        hi: int,
        cur: Cursor,
        end_off: u64,
        b2k: u64,
        high_mask: u64,
        m: nat,
    )
        requires
            self.tabulates(base),
            base <= 64,
            lo >= 0,
            b2k > 0,
            end_off == hi - lo,
            self.is_at(cur, lo, b2k),
        ensures
            forall|x: int|
                lo + cur.off <= x < lo + cur.off + phase1::reach(
                    self.gap_table@,
                    cur.idx as int,
                    m,
                ) && x < hi && nice::is_candidate(x, base as int, self.k as nat) && #[trigger]
                certificate::clear_below(x, base as int, self.k as nat, high_mask) ==> exists|l: int|
                    0 <= l < phase1::survivors(
                        self.gap_table@,
                        self.low_digit_masks@,
                        cur,
                        end_off,
                        b2k,
                        high_mask,
                        m,
                    ).len() && x == lo + (#[trigger] phase1::survivors(
                        self.gap_table@,
                        self.low_digit_masks@,
                        cur,
                        end_off,
                        b2k,
                        high_mask,
                        m,
                    )[l]).off,
    {
        let g = self.gap_table@;
        let ms = self.low_digit_masks@;
        let b = base as int;
        let k = self.k as nat;
        let s = phase1::survivors(g, ms, cur, end_off, b2k, high_mask, m);
        assert forall|x: int|
            lo + cur.off <= x < lo + cur.off + phase1::reach(g, cur.idx as int, m) && x < hi
                && nice::is_candidate(x, b, k) && #[trigger] certificate::clear_below(
                x,
                b,
                k,
                high_mask,
            ) implies exists|l: int| 0 <= l < s.len() && x == lo + (#[trigger] s[l]).off by {
            self.lemma_visits_candidates(base, x);
            let j = self.lemma_walk_misses_nothing(lo + cur.off, cur.idx as int, m, x);
            self.lemma_candidate_number(base, lo, cur, b2k, j);
            let c = phase1::candidate(g, ms, cur, b2k, j);
            certificate::lemma_cross_end(c.low, x, b, k, high_mask);
            let l = phase1::lemma_survivor_kept(g, ms, cur, end_off, b2k, high_mask, m, j);
            assert(s[l].off == x - lo);
        }
    }
}

/// `base^{2k}` for a depth at which the table fits.
fn squared_power(base: u32, k: u32) -> (b2k: u64)
    requires
        base >= 2,
        k >= 1,
        (base - 1) * pow(base as int, k as nat) <= u32::MAX,
    ensures
        b2k == pow(base as int, 2 * k as nat),
{
    let bk: u64 = stride_filter::power_in_range(base, k) as u64;
    proof {
        stride_filter::lemma_power_bounds(base as int, k as nat);
    }
    bk * bk
}

impl StrideTable {
    /// A search that lists the kept numbers lists all nice numbers when its
    /// high mask is certified and the table is no deeper than the powers of a
    /// nice number are long.
    proof fn lemma_search_is_complete(
        &self,
        results: Seq<NiceNumberSimple>,
        range: FieldSize,
        base: u32,
        high_mask: u64,
        use_affine: bool,
    )
        requires
            self.tabulates(base),
            listing::lists(
                results,
                base,
                range.lo(),
                range.hi(),
                |n: int|
                    certificate::is_kept(
                        n,
                        base as int,
                        self.k as nat,
                        self.tested_depth(range, base, use_affine),
                        high_mask,
                    ),
            ),
            nice::has_long_squares(range.lo(), base as int, self.k as nat),
            certificate::certifies(
                high_mask,
                base as int,
                range.lo(),
                range.hi(),
                self.tested_depth(range, base, use_affine),
            ),
        ensures
            listing::lists(
                results,
                base,
                range.lo(),
                range.hi(),
                |n: int| nice::is_nice(n, base as int),
            ),
    {
        let b = base as int;
        let k = self.k as nat;
        let depth = self.tested_depth(range, base, use_affine);
        range.lemma_bounds();
        certificate::lemma_certified_keeps_nice(b, k, depth, high_mask, range.lo(), range.hi());
        assert forall|n: int| #[trigger] listing::contains_number(results, n) <==> (range.lo() <= n
            < range.hi() && nice::is_nice(n, b)) by {
            assert(range.lo() <= n < range.hi() ==> (certificate::is_kept(n, b, k, depth, high_mask)
                <==> nice::is_nice(n, b)));
        }
    }

    /// Iterate over all valid candidates in the range and return the nice
    /// numbers among them, in ascending order.
    ///
    /// These are all nice numbers of the range as long as the depth of the
    /// table does not exceed the length of a nice number's square, which is
    /// about two fifths of the base.
    pub fn iterate_range(&self, range: &FieldSize, base: u32) -> (results: Vec<NiceNumberSimple>)
        requires
            self.tabulates(base),
            self.can_walk(*range, base, true),
        ensures
            listing::lists(
                results@,
                base,
                range.lo(),
                range.hi(),
                |n: int|
                    nice::is_candidate(n, base as int, self.k as nat) && nice::is_nice(
                        n,
                        base as int,
                    ),
            ),
            nice::has_long_squares(range.lo(), base as int, self.k as nat) ==> listing::lists(
                results@,
                base,
                range.lo(),
                range.hi(),
                |n: int| nice::is_nice(n, base as int),
            ),
    {
        let results: Vec<NiceNumberSimple> = self.iterate_range_masked(range, base, 0);
        proof {
            let b = base as int;
            let k = self.k as nat;
            let depth = self.tested_depth(*range, base, true);
            assert forall|n: int| #[trigger]
                listing::contains_number(results@, n) <==> (range.lo() <= n < range.hi()
                    && nice::is_candidate(n, b, k) && nice::is_nice(n, b)) by {
                certificate::lemma_zero_is_clear(n, b, depth);
                assert(listing::contains_number(results@, n) <==> (range.lo() <= n < range.hi()
                    && certificate::is_kept(n, b, k, depth, 0)));
            }
            assert(certificate::certifies(0, b, range.lo(), range.hi(), depth)) by {
                assert forall|n: int, d: int|
                    range.lo() <= n < range.hi() && mask::holds(0, d) implies #[trigger] certificate::occurs_from(
                    n,
                    b,
                    depth,
                    d,
                ) by {
                    mask::lemma_holds_zero(d);
                }
            }
        }
        results
    }

    /// [`StrideTable::iterate_range`] with the cross-end residue filter:
    /// `high_mask` holds digits that were proved to occupy some high output
    /// position for every `n` in this range. A residue whose low digits meet
    /// it would repeat a digit, so its candidates are skipped without a nice
    /// check.
    ///
    /// Survivors of that test then go through the affine middle-digit filter
    /// ([`affine_filter`]) where the base and depth support it.
    ///
    /// No nice number is lost when every digit of `high_mask` occupies a
    /// position that is not tested: from `k` on, and from `2k` on where the
    /// affine filter runs. Pass 0 to disable.
    pub fn iterate_range_masked(&self, range: &FieldSize, base: u32, high_mask: u64) -> (results:
        Vec<NiceNumberSimple>)
        requires
            self.tabulates(base),
            self.can_walk(*range, base, true),
        ensures
            listing::lists(
                results@,
                base,
                range.lo(),
                range.hi(),
                |n: int|
                    certificate::is_kept(
                        n,
                        base as int,
                        self.k as nat,
                        self.tested_depth(*range, base, true),
                        high_mask,
                    ),
            ),
            nice::has_long_squares(range.lo(), base as int, self.k as nat) && certificate::certifies(
                high_mask,
                base as int,
                range.lo(),
                range.hi(),
                self.tested_depth(*range, base, true),
            ) ==> listing::lists(
                results@,
                base,
                range.lo(),
                range.hi(),
                |n: int| nice::is_nice(n, base as int),
            ),
    {
        let use_affine: bool = affine_filter::supports(base, self.k);
        let results: Vec<NiceNumberSimple> = self.iterate_range_impl(
            range,
            base,
            high_mask,
            use_affine,
        );
        proof {
            range.lemma_bounds();
            assert(self.tested_depth(*range, base, use_affine) == self.tested_depth(
                *range,
                base,
                true,
            ));
            if nice::has_long_squares(range.lo(), base as int, self.k as nat) && certificate::certifies(
                high_mask,
                base as int,
                range.lo(),
                range.hi(),
                self.tested_depth(*range, base, true),
            ) {
                self.lemma_search_is_complete(results@, *range, base, high_mask, true);
            }
        }
        results
    }

    /// [`StrideTable::iterate_range_masked`] without the affine middle-digit
    /// filter.
    pub fn iterate_range_masked_unfiltered(
        &self,
        range: &FieldSize,
        base: u32,
        high_mask: u64,
    ) -> (results: Vec<NiceNumberSimple>)
        requires
            self.tabulates(base),
            self.can_walk(*range, base, false),
        ensures
            listing::lists(
                results@,
                base,
                range.lo(),
                range.hi(),
                |n: int|
                    certificate::is_kept(
                        n,
                        base as int,
                        self.k as nat,
                        self.tested_depth(*range, base, false),
                        high_mask,
                    ),
            ),
            nice::has_long_squares(range.lo(), base as int, self.k as nat) && certificate::certifies(
                high_mask,
                base as int,
                range.lo(),
                range.hi(),
                self.tested_depth(*range, base, false),
            ) ==> listing::lists(
                results@,
                base,
                range.lo(),
                range.hi(),
                |n: int| nice::is_nice(n, base as int),
            ),
    {
        let results: Vec<NiceNumberSimple> = self.iterate_range_impl(range, base, high_mask, false);
        proof {
            range.lemma_bounds();
            if nice::has_long_squares(range.lo(), base as int, self.k as nat) && certificate::certifies(
                high_mask,
                base as int,
                range.lo(),
                range.hi(),
                self.tested_depth(*range, base, false),
            ) {
                self.lemma_search_is_complete(results@, *range, base, high_mask, false);
            }
        }
        results
    }

    /// [`StrideTable::iterate_range_masked`] with a given phase-1
    /// implementation and with buffers that the caller keeps from search to
    /// search.
    pub fn iterate_range_masked_with(
        &self,
        range: &FieldSize,
        base: u32,
        high_mask: u64,
        imp: Phase1Impl,
        bufs: &mut SurvivorBufs,
    ) -> (results: Vec<NiceNumberSimple>)
        requires
            self.tabulates(base),
            self.can_walk(*range, base, true),
        ensures
            listing::lists(
                results@,
                base,
                range.lo(),
                range.hi(),
                |n: int|
                    certificate::is_kept(
                        n,
                        base as int,
                        self.k as nat,
                        self.tested_depth(*range, base, true),
                        high_mask,
                    ),
            ),
            nice::has_long_squares(range.lo(), base as int, self.k as nat) && certificate::certifies(
                high_mask,
                base as int,
                range.lo(),
                range.hi(),
                self.tested_depth(*range, base, true),
            ) ==> listing::lists(
                results@,
                base,
                range.lo(),
                range.hi(),
                |n: int| nice::is_nice(n, base as int),
            ),
    {
        let use_affine: bool = affine_filter::supports(base, self.k);
        let results: Vec<NiceNumberSimple> = if self.takes_two_phase(range, base, use_affine) {
            self.iterate_range_two_phase(range, base, high_mask, imp, bufs)
        } else {
            self.iterate_range_plain(range, base, high_mask)
        };
        proof {
            if nice::has_long_squares(range.lo(), base as int, self.k as nat) && certificate::certifies(
                high_mask,
                base as int,
                range.lo(),
                range.hi(),
                self.tested_depth(*range, base, true),
            ) {
                self.lemma_search_is_complete(results@, *range, base, high_mask, true);
            }
        }
        results
    }

    /// Whether a search takes the two-phase walk.
    fn takes_two_phase(&self, range: &FieldSize, base: u32, use_affine: bool) -> (r: bool)
        requires
            self.tabulates(base),
            self.valid_residues@.len() > 0,
            use_affine ==> self.k == 3 && affine_filter::is_specialized(base),
        ensures
            r == (use_affine && self.is_two_phase(*range, base)),
    {
        use_affine && self.low_digit_masks.len() > 0 && range.size() < phase1::WORD_LIMIT as u128
    }

    /// Specialized bases (low masks present, affine filter available) take the
    /// two-phase walk; everything else the plain walk.
    pub fn iterate_range_impl(
        &self,
        range: &FieldSize,
        base: u32,
        high_mask: u64,
        use_affine: bool,
    ) -> (results: Vec<NiceNumberSimple>)
        requires
            self.tabulates(base),
            use_affine ==> self.k == 3 && affine_filter::is_specialized(base),
            self.can_walk(*range, base, use_affine),
        ensures
            listing::lists(
                results@,
                base,
                range.lo(),
                range.hi(),
                |n: int|
                    certificate::is_kept(
                        n,
                        base as int,
                        self.k as nat,
                        self.tested_depth(*range, base, use_affine),
                        high_mask,
                    ),
            ),
    {
        if self.takes_two_phase(range, base, use_affine) {
            let mut bufs: SurvivorBufs = SurvivorBufs::new();
            return self.iterate_range_two_phase(
                range,
                base,
                high_mask,
                Phase1Impl::Scalar,
                &mut bufs,
            );
        }
        self.iterate_range_plain(range, base, high_mask)
    }
}

impl StrideTable {
    /// A certified mask changes nothing: a masked search, with the affine
    /// filter or without, lists what the search without a mask lists.
    ///
    /// `masked` is what [`StrideTable::iterate_range_masked`] returns, or with
    /// `use_affine` false [`StrideTable::iterate_range_masked_unfiltered`], and
    /// `plain` what [`StrideTable::iterate_range`] returns.
    pub proof fn lemma_mask_changes_nothing(
        &self,
        masked: Seq<NiceNumberSimple>,
        plain: Seq<NiceNumberSimple>,
        range: FieldSize,
        base: u32,
        high_mask: u64,
        use_affine: bool,
    )
        requires
            self.tabulates(base),
            nice::has_long_squares(range.lo(), base as int, self.k as nat),
            certificate::certifies(
                high_mask,
                base as int,
                range.lo(),
                range.hi(),
                self.tested_depth(range, base, use_affine),
            ),
            listing::lists(
                masked,
                base,
                range.lo(),
                range.hi(),
                |n: int|
                    certificate::is_kept(
                        n,
                        base as int,
                        self.k as nat,
                        self.tested_depth(range, base, use_affine),
                        high_mask,
                    ),
            ),
            listing::lists(
                plain,
                base,
                range.lo(),
                range.hi(),
                |n: int|
                    nice::is_candidate(n, base as int, self.k as nat) && nice::is_nice(
                        n,
                        base as int,
                    ),
            ),
        ensures
            masked == plain,
    {
        let b = base as int;
        let k = self.k as nat;
        let depth = self.tested_depth(range, base, use_affine);
        range.lemma_bounds();
        let p = |n: int| certificate::is_kept(n, b, k, depth, high_mask);
        let q = |n: int| nice::is_candidate(n, b, k) && nice::is_nice(n, b);
        certificate::lemma_certified_keeps_nice(b, k, depth, high_mask, range.lo(), range.hi());
        assert forall|n: int| range.lo() <= n < range.hi() implies #[trigger] p(n)
            == #[trigger] q(n) by {
            assert(certificate::is_kept(n, b, k, depth, high_mask) <==> nice::is_nice(n, b));
        }
        listing::lemma_lists_unique(masked, plain, base, range.lo(), range.hi(), p, q);
    }

    /// Whatever the mask, the affine filter changes nothing exactly when every
    /// number that the search without it keeps avoids the mask at the middle
    /// positions as well.
    pub proof fn lemma_affine_agrees_exactly(
        &self,
        with: Seq<NiceNumberSimple>,
        without: Seq<NiceNumberSimple>,
        range: FieldSize,
        base: u32,
        high_mask: u64,
    )
        requires
            listing::lists(
                with,
                base,
                range.lo(),
                range.hi(),
                |n: int|
                    certificate::is_kept(
                        n,
                        base as int,
                        self.k as nat,
                        self.tested_depth(range, base, true),
                        high_mask,
                    ),
            ),
            listing::lists(
                without,
                base,
                range.lo(),
                range.hi(),
                |n: int|
                    certificate::is_kept(
                        n,
                        base as int,
                        self.k as nat,
                        self.tested_depth(range, base, false),
                        high_mask,
                    ),
            ),
        ensures
            with == without <==> forall|n: int|
                range.lo() <= n < range.hi() && #[trigger] certificate::is_kept(
                    n,
                    base as int,
                    self.k as nat,
                    self.tested_depth(range, base, false),
                    high_mask,
                ) ==> certificate::is_kept(
                    n,
                    base as int,
                    self.k as nat,
                    self.tested_depth(range, base, true),
                    high_mask,
                ),
    {
        certificate::lemma_filter_agrees_exactly(
            with,
            without,
            base,
            self.k as nat,
            range.lo(),
            range.hi(),
            high_mask,
            self.tested_depth(range, base, false),
            self.tested_depth(range, base, true),
        );
    }

    /// The affine filter changes nothing under a mask that is apart from the
    /// middle positions: a search that may use it lists what the search without
    /// it lists. Where the filter does not run, the mask does not matter.
    ///
    /// `with` is what [`StrideTable::iterate_range_masked`] returns, or
    /// [`StrideTable::iterate_range_impl`] with its flag set, or
    /// [`StrideTable::iterate_range_two_phase`]. `without` is what
    /// [`StrideTable::iterate_range_masked_unfiltered`] returns, or
    /// [`StrideTable::iterate_range_impl`] with its flag cleared.
    pub proof fn lemma_affine_changes_nothing(
        &self,
        with: Seq<NiceNumberSimple>,
        without: Seq<NiceNumberSimple>,
        range: FieldSize,
        base: u32,
        high_mask: u64,
    )
        requires
            self.tabulates(base),
            self.is_two_phase(range, base) ==> certificate::is_apart(
                high_mask,
                base as int,
                range.lo(),
                range.hi(),
            ),
            listing::lists(
                with,
                base,
                range.lo(),
                range.hi(),
                |n: int|
                    certificate::is_kept(
                        n,
                        base as int,
                        self.k as nat,
                        self.tested_depth(range, base, true),
                        high_mask,
                    ),
            ),
            listing::lists(
                without,
                base,
                range.lo(),
                range.hi(),
                |n: int|
                    certificate::is_kept(
                        n,
                        base as int,
                        self.k as nat,
                        self.tested_depth(range, base, false),
                        high_mask,
                    ),
            ),
        ensures
            with == without,
    {
        let b = base as int;
        let k = self.k as nat;
        range.lemma_bounds();
        self.lemma_affine_agrees_exactly(with, without, range, base, high_mask);
        assert forall|n: int|
            range.lo() <= n < range.hi() && #[trigger] certificate::is_kept(
                n,
                b,
                k,
                self.tested_depth(range, base, false),
                high_mask,
            ) implies certificate::is_kept(
            n,
            b,
            k,
            self.tested_depth(range, base, true),
            high_mask,
        ) by {
            if self.is_two_phase(range, base) {
                certificate::lemma_apart_is_clear(n, base, high_mask);
            }
        }
    }

    /// Over any number of leaves, each a range with its own mask, the searches
    /// with and without the affine filter list the same in a row when the mask
    /// of every leaf on which the filter runs is apart from the middle
    /// positions.
    pub proof fn lemma_leaves_agree(
        &self,
        with: Seq<Seq<NiceNumberSimple>>,
        without: Seq<Seq<NiceNumberSimple>>,
        leaves: Seq<(FieldSize, u64)>,
        base: u32,
    )
        requires
            self.tabulates(base),
            with.len() == leaves.len(),
            without.len() == leaves.len(),
            forall|i: int|
                0 <= i < leaves.len() && self.is_two_phase((#[trigger] leaves[i]).0, base)
                    ==> certificate::is_apart(
                    leaves[i].1,
                    base as int,
                    leaves[i].0.lo(),
                    leaves[i].0.hi(),
                ),
            forall|i: int|
                0 <= i < leaves.len() ==> listing::lists(
                    #[trigger] with[i],
                    base,
                    leaves[i].0.lo(),
                    leaves[i].0.hi(),
                    |n: int|
                        certificate::is_kept(
                            n,
                            base as int,
                            self.k as nat,
                            self.tested_depth(leaves[i].0, base, true),
                            leaves[i].1,
                        ),
                ),
            forall|i: int|
                0 <= i < leaves.len() ==> listing::lists(
                    #[trigger] without[i],
                    base,
                    leaves[i].0.lo(),
                    leaves[i].0.hi(),
                    |n: int|
                        certificate::is_kept(
                            n,
                            base as int,
                            self.k as nat,
                            self.tested_depth(leaves[i].0, base, false),
                            leaves[i].1,
                        ),
                ),
        ensures
            with.flatten() == without.flatten(),
    {
        assert forall|i: int| 0 <= i < leaves.len() implies with[i] == without[i] by {
            let (range, high_mask) = leaves[i];
            self.lemma_affine_changes_nothing(with[i], without[i], range, base, high_mask);
        }
        assert(with =~= without);
    }
}

impl StrideTable {
    /// A walk of `m` candidates accounts for as many numbers as it has
    /// survivors.
    proof fn lemma_count(
        &self,
        base: u32,
        lo: int,
        hi: int,
        cur: Cursor,
        end_off: u64,
        b2k: u64,
        high_mask: u64,
        m: nat,
    )
        requires
            self.tabulates(base),
            base <= 64,
            lo >= 0,
            b2k > 0,
            end_off == hi - lo,
            self.is_at(cur, lo, b2k),
        ensures
            ({
                let b = base as int;
                let k = self.k as nat;
                let at = lo + cur.off;
                let stop = at + phase1::reach(self.gap_table@, cur.idx as int, m);
                let s = phase1::survivors(
                    self.gap_table@,
                    self.low_digit_masks@,
                    cur,
                    end_off,
                    b2k,
                    high_mask,
                    m,
                );
                certificate::cross_end_survivors(lo, lesser(stop, hi), b, k, high_mask).len()
                    == certificate::cross_end_survivors(lo, lesser(at, hi), b, k, high_mask).len() + s.len()
            }),
        decreases m,
    {
        let b = base as int;
        let k = self.k as nat;
        let g = self.gap_table@;
        let ms = self.low_digit_masks@;
        if m > 0 {
            let p = (m - 1) as nat;
            self.lemma_count(base, lo, hi, cur, end_off, b2k, high_mask, p);
            let n = lo + cur.off + phase1::reach(g, cur.idx as int, p);
            let stop = lo + cur.off + phase1::reach(g, cur.idx as int, m);
            let c = phase1::candidate(g, ms, cur, b2k, p);
            self.lemma_candidate_number(base, lo, cur, b2k, p);
            self.lemma_walk_stops(lo + cur.off, cur.idx as int, p);
            lemma_mod_bound(cur.idx + p, g.len() as int);
            self.lemma_step(n, (cur.idx + p) % (g.len() as int));
            certificate::lemma_cross_end(c.low, n, b, k, high_mask);
            let before = certificate::cross_end_survivors(lo, lesser(n, hi), b, k, high_mask);
            let after = certificate::cross_end_survivors(lo, lesser(stop, hi), b, k, high_mask);
            lemma_int_range(lo, lesser(n, hi));
            assert forall|x: int| n < x < stop implies !nice::is_candidate(x, b, k) by {
                self.lemma_visits_candidates(base, x);
                assert(!self.visits(x));
            }
            if phase1::is_survivor(c, end_off, high_mask) {
                assert(after =~= before.insert(n));
                assert(!before.contains(n));
            } else {
                assert(after =~= before);
            }
        }
    }

    /// Whether `s` is what phase 1 owes phase 2: every number of the range that
    /// passes the cross-end test, in ascending order, each as its offset from
    /// `lo`, its own remainder and its own low mask, and nothing else.
    pub open spec fn is_handed_on(
        &self,
        s: Seq<phase1::Survivor>,
        base: u32,
        lo: int,
        hi: int,
        b2k: u64,
        high_mask: u64,
    ) -> bool {
        let b = base as int;
        let k = self.k as nat;
        &&& forall|i: int, j: int| 0 <= i < j < s.len() ==> s[i].off < s[j].off
        &&& forall|i: int|
            0 <= i < s.len() ==> {
                &&& (#[trigger] s[i]).nmod == (lo + s[i].off) % (b2k as int)
                &&& mask::is_mask_of(s[i].low, nice::low_digits(lo + s[i].off, b, k))
                &&& s[i].low & high_mask == 0
                &&& certificate::cross_end_survivors(lo, hi, b, k, high_mask).contains(lo + s[i].off)
            }
        &&& forall|x: int| #[trigger]
            certificate::cross_end_survivors(lo, hi, b, k, high_mask).contains(x) ==> exists|i: int|
                0 <= i < s.len() && lo + (#[trigger] s[i]).off == x
    }

    /// Phase 1 hands on exactly the cross-end survivors of a range, when it
    /// walks from the range's first candidate until past its end.
    pub proof fn lemma_walk_hands_on_survivors(
        &self,
        base: u32,
        lo: int,
        hi: int,
        cur: Cursor,
        end_off: u64,
        b2k: u64,
        high_mask: u64,
        m: nat,
    )
        requires
            self.tabulates(base),
            base <= 64,
            lo >= 0,
            b2k > 0,
            end_off == hi - lo,
            self.is_at(cur, lo, b2k),
            forall|x: int| lo <= x < lo + cur.off ==> !#[trigger] self.visits(x),
            cur.off + phase1::reach(self.gap_table@, cur.idx as int, m) >= end_off,
        ensures
            self.is_handed_on(
                phase1::survivors(
                    self.gap_table@,
                    self.low_digit_masks@,
                    cur,
                    end_off,
                    b2k,
                    high_mask,
                    m,
                ),
                base,
                lo,
                hi,
                b2k,
                high_mask,
            ),
    {
        let b = base as int;
        let k = self.k as nat;
        let g = self.gap_table@;
        let ms = self.low_digit_masks@;
        let s = phase1::survivors(g, ms, cur, end_off, b2k, high_mask, m);
        assert forall|i: int| 0 <= i < g.len() implies #[trigger] g[i] > 0 by {
            lemma_small_mod(self.valid_residues@[i] as nat, self.modulus as nat);
            self.lemma_step(self.valid_residues@[i] as int, i);
        }
        assert forall|i: int, j: int| 0 <= i < j < s.len() implies s[i].off < s[j].off by {
            phase1::lemma_survivors_ascend(g, ms, cur, end_off, b2k, high_mask, m, i, j);
        }
        assert forall|i: int| 0 <= i < s.len() implies {
            &&& (#[trigger] s[i]).nmod == (lo + s[i].off) % (b2k as int)
            &&& mask::is_mask_of(s[i].low, nice::low_digits(lo + s[i].off, b, k))
            &&& s[i].low & high_mask == 0
            &&& certificate::cross_end_survivors(lo, hi, b, k, high_mask).contains(lo + s[i].off)
        } by {
            let j = phase1::lemma_survivor_source(g, ms, cur, end_off, b2k, high_mask, m, i);
            self.lemma_candidate_number(base, lo, cur, b2k, j);
            certificate::lemma_cross_end(s[i].low, lo + s[i].off, b, k, high_mask);
        }
        self.lemma_block_complete(base, lo, hi, cur, end_off, b2k, high_mask, m);
        assert forall|x: int| #[trigger]
            certificate::cross_end_survivors(lo, hi, b, k, high_mask).contains(x) implies exists|i: int|
            0 <= i < s.len() && lo + (#[trigger] s[i]).off == x by {
            self.lemma_visits_candidates(base, x);
            assert(self.visits(x));
            assert(certificate::clear_below(x, b, k, high_mask));
            let i = choose|i: int| 0 <= i < s.len() && x == lo + (#[trigger] s[i]).off;
            assert(lo + s[i].off == x);
        }
    }

    /// The same holds of phase 1 in any number of calls, each from the cursor
    /// that the one before it returned, the last of which leaves the range: the
    /// outputs in a row are the cross-end survivors of the range, however many
    /// candidates each call walked.
    pub proof fn lemma_run_hands_on_survivors(
        &self,
        base: u32,
        lo: int,
        hi: int,
        first: Cursor,
        end_off: u64,
        b2k: u64,
        high_mask: u64,
        calls: Seq<phase1::Call>,
        next: Cursor,
    )
        requires
            self.tabulates(base),
            base <= 64,
            lo >= 0,
            end_off == hi - lo,
            phase1::is_placed(self.gap_table@, self.low_digit_masks@, first, b2k),
            self.is_at(first, lo, b2k),
            forall|x: int| lo <= x < lo + first.off ==> !#[trigger] self.visits(x),
            phase1::is_run(
                self.gap_table@,
                self.low_digit_masks@,
                first,
                end_off,
                b2k,
                high_mask,
                calls,
                next,
            ),
            next.off >= end_off,
        ensures
            self.is_handed_on(phase1::run_output(calls), base, lo, hi, b2k, high_mask),
    {
        let m = phase1::run_steps(calls);
        phase1::lemma_run_is_a_walk(
            self.gap_table@,
            self.low_digit_masks@,
            first,
            end_off,
            b2k,
            high_mask,
            calls,
            next,
        );
        self.lemma_walk_hands_on_survivors(base, lo, hi, first, end_off, b2k, high_mask, m);
    }

    /// Cross-end survivors that a masked walk of `range` hands to phase 2.
    pub fn two_phase_survivor_count(&self, range: &FieldSize, base: u32, high_mask: u64) -> (total:
        usize)
        requires
            self.tabulates(base),
            base <= 64,
            self.k >= 1,
            self.valid_residues@.len() > 0,
            self.reaches(range.lo()),
            range.hi() - range.lo() + self.modulus <= 0x1_0000_0000_0000_0000,
            range.hi() - range.lo() <= usize::MAX,
        ensures
            total == certificate::cross_end_survivors(
                range.lo(),
                range.hi(),
                base as int,
                self.k as nat,
                high_mask,
            ).len(),
    {
        let ghost b = base as int;
        let ghost k = self.k as nat;
        let ghost lo = range.lo();
        let ghost hi = range.hi();
        let ghost g = self.gap_table@;
        let ghost ms = self.low_digit_masks@;
        let b2k: u64 = squared_power(base, self.k);
        proof {
            range.lemma_bounds();
            self.lemma_tables_walk(base, b2k);
        }
        let end_off: u64 = range.size() as u64;
        let mut cur: Cursor = self.first_cursor(range, b2k);
        let mut bufs: SurvivorBufs = SurvivorBufs::new();
        let mut total: usize = 0;
        proof {
            assert(certificate::cross_end_survivors(lo, lesser(lo + cur.off, hi), b, k, high_mask)
                =~= Set::empty()) by {
                assert forall|x: int| lo <= x < lo + cur.off implies !nice::is_candidate(
                    x,
                    b,
                    k,
                ) by {
                    self.lemma_visits_candidates(base, x);
                    assert(!self.visits(x));
                }
            }
        }
        while cur.off < end_off
            invariant
                b == base,
                k == self.k,
                lo == range.lo(),
                hi == range.hi(),
                0 <= lo <= hi,
                g == self.gap_table@,
                ms == self.low_digit_masks@,
                end_off == hi - lo,
                end_off + self.modulus <= 0x1_0000_0000_0000_0000,
                hi - lo <= usize::MAX,
                self.tabulates(base),
                base <= 64,
                self.valid_residues@.len() > 0,
                0 < b2k <= phase1::WORD_LIMIT,
                self.modulus < b2k,
                forall|i: int| 0 <= i < g.len() ==> 0 < #[trigger] g[i] <= self.modulus,
                self.is_at(cur, lo, b2k),
                cur.nmod < b2k,
                total == certificate::cross_end_survivors(
                    lo,
                    lesser(lo + cur.off, hi),
                    b,
                    k,
                    high_mask,
                ).len(),
            decreases (if cur.off < end_off { end_off - cur.off } else { 0 }),
        {
            let (cnt, next) = phase1::phase1(
                Phase1Impl::Scalar,
                self.gap_table.as_slice(),
                self.low_digit_masks.as_slice(),
                cur,
                end_off,
                b2k,
                high_mask,
                &mut bufs,
            );
            proof {
                let m = choose|m: nat|
                    {
                        &&& #[trigger] phase1::is_walked(
                            g,
                            ms,
                            cur,
                            end_off,
                            b2k,
                            high_mask,
                            bufs,
                            0,
                            m,
                            (cnt, next),
                        )
                        &&& m == phase1::BLOCK || next.off >= end_off
                    };
                self.lemma_count(base, lo, hi, cur, end_off, b2k, high_mask, m);
                self.lemma_walk_stops(lo + cur.off, cur.idx as int, m);
                lemma_mod_bound(cur.idx + m, g.len() as int);
                lemma_mod_bound(lo + next.off, b2k as int);
                let far = phase1::reach(g, cur.idx as int, m);
                lemma_add_mod_noop(lo + cur.off, far, b2k as int);
                lemma_add_mod_noop(cur.nmod as int, far, b2k as int);
                lemma_mod_twice(lo + cur.off, b2k as int);
                let stop = lesser(lo + next.off, hi);
                lemma_int_range(lo, stop);
                lemma_len_subset(
                    certificate::cross_end_survivors(lo, stop, b, k, high_mask),
                    set_int_range(lo, stop),
                );
            }
            total = total + cnt;
            cur = next;
        }
        total
    }
}

/// The lesser of two integers.
pub open spec fn lesser(x: int, y: int) -> int {
    if x <= y {
        x
    } else {
        y
    }
}

} // verus!
