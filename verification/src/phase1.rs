//! Phase 1 of the two-phase walk: stream the gap and low-mask tables in blocks
//! and compact the cross-end survivors into small buffers.
//!
//! A walk starts at a cursor and follows the gap table around. Candidate `j`
//! of the walk lies `reach(gaps, idx, j)` past the cursor. It survives when it
//! lies in range and its low digits avoid the high mask.

use vstd::arithmetic::div_mod::*;
use vstd::prelude::*;

verus! {

/// Candidates per phase-1 block; bounds the survivor buffers.
pub const BLOCK: usize = 1024;

/// Ranges shorter than this are searched in 64-bit offsets.
pub const WORD_LIMIT: u64 = 0x4000_0000_0000_0000;

/// Up to this bound a word has room for a group of gaps on top, whatever their
/// sizes.
pub const LANE_LIMIT: u64 = 0xffff_fff0_0000_0000;

/// Phase-1 output: survivors' offsets from the range start, `n mod b^{2k}` and
/// low masks, structure-of-arrays. Sized for a full block plus two groups of
/// eight lanes.
pub struct SurvivorBufs {
    pub offs: [u64; 1040],
    pub nmods: [u64; 1040],
    pub lows: [u64; 1040],
}

impl SurvivorBufs {
    /// Zeroed buffers.
    pub fn new() -> (bufs: Self)
        ensures
            forall|i: int| 0 <= i < 1040 ==> #[trigger] bufs.entry(i) == (Survivor {
                off: 0,
                nmod: 0,
                low: 0,
            }),
            forall|i: int| 0 <= i < 1040 ==> #[trigger] bufs.offs@[i] == 0,
            forall|i: int| 0 <= i < 1040 ==> #[trigger] bufs.nmods@[i] == 0,
            forall|i: int| 0 <= i < 1040 ==> #[trigger] bufs.lows@[i] == 0,
    {
        SurvivorBufs { offs: [0;1040], nmods: [0;1040], lows: [0;1040] }
    }

    /// The survivor in slot `i`.
    pub open spec fn entry(&self, i: int) -> Survivor {
        Survivor {
            off: self.offs@[i] as int,
            nmod: self.nmods@[i] as int,
            low: self.lows@[i],
        }
    }

    /// Write a survivor to slot `i`.
    fn store(&mut self, i: usize, off: u64, nmod: u64, low: u64)
        requires
            i < 1040,
        ensures
            final(self).entry(i as int) == (Survivor {
                off: off as int,
                nmod: nmod as int,
                low,
            }),
            forall|j: int|
                0 <= j < 1040 && j != i ==> #[trigger] final(self).entry(j) == old(self).entry(j),
    {
        self.offs[i] = off;
        self.nmods[i] = nmod;
        self.lows[i] = low;
    }
}

/// A candidate that phase 1 hands on: its offset from the range start, its
/// value modulo `b^{2k}` and its low mask.
pub ghost struct Survivor {
    pub off: int,
    pub nmod: int,
    pub low: u64,
}

/// Position in the walk: residue index, offset from the range start, and
/// `n mod b^{2k}` at that candidate.
#[derive(Clone, Copy, Debug, PartialEq, Eq)]
pub struct Cursor {
    pub idx: usize,
    pub off: u64,
    pub nmod: u64,
}

/// How far `m` steps along the gap table lead from residue `idx`.
pub open spec fn reach(gaps: Seq<u32>, idx: int, m: nat) -> int
    decreases m,
{
    if m == 0 {
        0
    } else {
        reach(gaps, idx, (m - 1) as nat) + gaps[(idx + m - 1) % (gaps.len() as int)]
    }
}

/// Candidate `j` of a walk from `cur`.
pub open spec fn candidate(
    gaps: Seq<u32>,
    masks: Seq<u64>,
    cur: Cursor,
    b2k: u64,
    j: nat,
) -> Survivor {
    Survivor {
        off: cur.off + reach(gaps, cur.idx as int, j),
        nmod: (cur.nmod + reach(gaps, cur.idx as int, j)) % (b2k as int),
        low: masks[(cur.idx + j) % (gaps.len() as int)],
    }
}

/// Whether phase 1 keeps a candidate.
pub open spec fn is_survivor(c: Survivor, end_off: u64, high_mask: u64) -> bool {
    c.off < end_off && c.low & high_mask == 0
}

/// The survivors among the first `m` candidates of a walk, in order.
pub open spec fn survivors(
    gaps: Seq<u32>,
    masks: Seq<u64>,
    cur: Cursor,
    end_off: u64,
    b2k: u64,
    high_mask: u64,
    m: nat,
) -> Seq<Survivor>
    decreases m,
{
    if m == 0 {
        Seq::empty()
    } else {
        let prefix = survivors(gaps, masks, cur, end_off, b2k, high_mask, (m - 1) as nat);
        let c = candidate(gaps, masks, cur, b2k, (m - 1) as nat);
        if is_survivor(c, end_off, high_mask) {
            prefix.push(c)
        } else {
            prefix
        }
    }
}

/// Whether `next` is the cursor `m` steps after `cur`.
pub open spec fn is_advanced(gaps: Seq<u32>, cur: Cursor, b2k: u64, m: nat, next: Cursor) -> bool {
    &&& next.idx == (cur.idx + m) % (gaps.len() as int)
    &&& next.off == cur.off + reach(gaps, cur.idx as int, m)
    &&& next.nmod == (cur.nmod + reach(gaps, cur.idx as int, m)) % (b2k as int)
}

/// Whether the slots of `bufs` from `cnt` on hold `s`.
pub open spec fn stored(bufs: SurvivorBufs, cnt: int, s: Seq<Survivor>) -> bool {
    forall|i: int| 0 <= i < s.len() ==> bufs.entry(#[trigger] (cnt + i)) == s[i]
}

/// Whether `r` and `bufs` are what phase 1 leaves after walking `m` candidates
/// from `cur` with `cnt` slots taken: the new count and the cursor to resume
/// from, and the survivors in the slots from `cnt` on.
pub open spec fn is_walked(
    gaps: Seq<u32>,
    masks: Seq<u64>,
    cur: Cursor,
    end_off: u64,
    b2k: u64,
    high_mask: u64,
    bufs: SurvivorBufs,
    cnt: usize,
    m: nat,
    r: (usize, Cursor),
) -> bool {
    let s = survivors(gaps, masks, cur, end_off, b2k, high_mask, m);
    &&& is_advanced(gaps, cur, b2k, m, r.1)
    &&& r.0 == cnt + s.len()
    &&& stored(bufs, cnt as int, s)
}

/// Whether `cur` is a reduced cursor on these tables, whose gaps are at most
/// the modulus.
pub open spec fn is_placed(gaps: Seq<u32>, masks: Seq<u64>, cur: Cursor, b2k: u64) -> bool {
    &&& 0 < gaps.len() == masks.len()
    &&& cur.idx < gaps.len()
    &&& cur.nmod < b2k
    &&& forall|i: int| 0 <= i < gaps.len() ==> #[trigger] gaps[i] <= b2k
}

/// Whether the first `steps` steps of a walk from `cur` stay in `u64` as long
/// as they start inside the range: the word has room for any gap above the
/// range and the modulus, or for each gap where the walk takes it.
pub open spec fn stays_in_words(
    gaps: Seq<u32>,
    cur: Cursor,
    end_off: u64,
    b2k: u64,
    steps: nat,
) -> bool {
    ||| forall|i: int|
        0 <= i < gaps.len() ==> {
            &&& end_off + #[trigger] gaps[i] <= 0x1_0000_0000_0000_0000
            &&& b2k + gaps[i] <= 0x1_0000_0000_0000_0000
        }
    ||| forall|m: nat|
        m < steps && cur.off + #[trigger] reach(gaps, cur.idx as int, m) < end_off ==> {
            let far = reach(gaps, cur.idx as int, m);
            let gap = gaps[(cur.idx + m) % (gaps.len() as int)];
            &&& cur.off + far + gap <= u64::MAX
            &&& (cur.nmod + far) % (b2k as int) + gap <= u64::MAX
        }
}

/// Whether the tables can be walked in groups: one turn around them is at most
/// the modulus, so that one subtraction reduces every lane, and the sums of a
/// group stay in `u64`.
pub open spec fn takes_groups(gaps: Seq<u32>, end_off: u64, b2k: u64) -> bool {
    &&& reach(gaps, 0, gaps.len()) <= b2k
    &&& b2k <= LANE_LIMIT
    &&& end_off <= LANE_LIMIT
}

/// Phase-1 implementation.
#[derive(Clone, Copy, PartialEq, Eq, Debug)]
pub enum Phase1Impl {
    /// One candidate a step.
    Scalar,
    /// Four candidates a step, the width of AVX2.
    Avx2,
    /// Eight candidates a step, the width of AVX-512.
    Avx512,
}

/// One more step along the gap table.
pub proof fn lemma_reach_step(gaps: Seq<u32>, idx: int, m: nat)
    ensures
        reach(gaps, idx, m + 1) == reach(gaps, idx, m) + gaps[(idx + m) % (gaps.len() as int)],
{
}

/// A walk of `l + m` steps is a walk of `l` steps and one of `m` more.
pub proof fn lemma_reach_add(gaps: Seq<u32>, idx: int, l: nat, m: nat)
    requires
        gaps.len() > 0,
        idx >= 0,
    ensures
        reach(gaps, idx, l + m) == reach(gaps, idx, l) + reach(
            gaps,
            (idx + l) % (gaps.len() as int),
            m,
        ),
    decreases m,
{
    if m > 0 {
        let n = gaps.len() as int;
        lemma_reach_add(gaps, idx, l, (m - 1) as nat);
        lemma_add_mod_noop(idx + l, m - 1, n);
        lemma_add_mod_noop((idx + l) % n, m - 1, n);
        lemma_mod_twice(idx + l, n);
    }
}

/// Offsets never go back.
pub proof fn lemma_reach_monotone(gaps: Seq<u32>, idx: int, l: nat, m: nat)
    requires
        l <= m,
    ensures
        reach(gaps, idx, l) <= reach(gaps, idx, m),
    decreases m - l,
{
    if l < m {
        lemma_reach_monotone(gaps, idx, l, (m - 1) as nat);
    }
}

/// Stepping the index by one, with the wrap at the end of the table.
pub proof fn lemma_index_step(i: int, len: int)
    requires
        0 <= i < len,
    ensures
        (i + 1) % len == if i + 1 == len { 0 } else { i + 1 },
{
    if i + 1 == len {
        lemma_mod_self_0(len);
    } else {
        lemma_small_mod((i + 1) as nat, len as nat);
    }
}

/// One conditional subtraction reduces a sum of a reduced value and a step of
/// at most the modulus.
proof fn lemma_reduce(x: int, step: int, m: int)
    requires
        0 <= x < m,
        0 <= step <= m,
    ensures
        (x + step) % m == if x + step >= m { x + step - m } else { x + step },
{
    if x + step >= m {
        lemma_mod_sub_multiples_vanish(x + step, m);
        lemma_small_mod((x + step - m) as nat, m as nat);
    } else {
        lemma_small_mod((x + step) as nat, m as nat);
    }
}

/// Scalar phase 1: unconditional store, conditional increment. Writes
/// survivors from buffer index `cnt` on, walks at most `max_candidates`
/// candidates, and returns the new survivor count.
pub fn phase1_scalar(
    gaps: &[u32],
    masks: &[u64],
    cursor: Cursor,
    end_off: u64,
    b2k: u64,
    high_mask: u64,
    bufs: &mut SurvivorBufs,
    start_cnt: usize,
    max_candidates: usize,
) -> (r: (usize, Cursor))
    requires
        is_placed(gaps@, masks@, cursor, b2k),
        stays_in_words(gaps@, cursor, end_off, b2k, max_candidates as nat),
        start_cnt + max_candidates <= 1040,
    ensures
        exists|m: nat|
            {
                &&& #[trigger] is_walked(
                    gaps@,
                    masks@,
                    cursor,
                    end_off,
                    b2k,
                    high_mask,
                    *final(bufs),
                    start_cnt,
                    m,
                    r,
                )
                &&& m <= max_candidates
                &&& m == max_candidates || r.1.off >= end_off
                &&& forall|j: nat| j < m ==> #[trigger] candidate(gaps@, masks@, cursor, b2k, j).off
                    < end_off
            },
        start_cnt <= r.0 <= start_cnt + max_candidates,
        forall|i: int|
            0 <= i < start_cnt ==> #[trigger] final(bufs).entry(i) == old(bufs).entry(i),
{
    let ghost g = gaps@;
    let ghost ms = masks@;
    let ghost c0 = cursor;
    let glen: usize = gaps.len();
    let mut cur: Cursor = cursor;
    let mut cnt: usize = start_cnt;
    let mut seen: usize = 0;
    proof {
        lemma_small_mod(cur.idx as nat, glen as nat);
        lemma_small_mod(cur.nmod as nat, b2k as nat);
    }
    while cur.off < end_off && seen < max_candidates
        invariant
            g == gaps@,
            ms == masks@,
            c0 == cursor,
            glen == g.len(),
            is_placed(g, ms, c0, b2k),
            is_placed(g, ms, cur, b2k),
            stays_in_words(g, c0, end_off, b2k, max_candidates as nat),
            start_cnt + max_candidates <= 1040,
            seen <= max_candidates,
            is_advanced(g, c0, b2k, seen as nat, cur),
            forall|j: nat| j < seen ==> #[trigger] candidate(g, ms, c0, b2k, j).off < end_off,
            cnt <= start_cnt + seen,
            cnt == start_cnt + survivors(
                g,
                ms,
                c0,
                end_off,
                b2k,
                high_mask,
                seen as nat,
            ).len(),
            stored(
                *bufs,
                start_cnt as int,
                survivors(g, ms, c0, end_off, b2k, high_mask, seen as nat),
            ),
            forall|i: int|
                0 <= i < start_cnt ==> #[trigger] bufs.entry(i) == old(bufs).entry(i),
        decreases max_candidates - seen,
    {
        let ghost s = survivors(g, ms, c0, end_off, b2k, high_mask, seen as nat);
        let ghost at = cur;
        let low: u64 = masks[cur.idx];
        bufs.store(cnt, cur.off, cur.nmod, low);
        if low & high_mask == 0 {
            cnt = cnt + 1;
        }
        let gap: u64 = gaps[cur.idx] as u64;
        cur.off = cur.off + gap;
        cur.nmod = cur.nmod + gap;
        if cur.nmod >= b2k {
            cur.nmod = cur.nmod - b2k;
        }
        cur.idx = cur.idx + 1;
        if cur.idx == glen {
            cur.idx = 0;
        }
        proof {
            let c = candidate(g, ms, c0, b2k, seen as nat);
            assert(c == bufs.entry((start_cnt + s.len()) as int));
            lemma_reach_step(g, c0.idx as int, seen as nat);
            lemma_index_step(at.idx as int, glen as int);
            lemma_reduce(at.nmod as int, gap as int, b2k as int);
            let far = c0.nmod + reach(g, c0.idx as int, seen as nat);
            lemma_add_mod_noop(far, gap as int, b2k as int);
            lemma_add_mod_noop(far % (b2k as int), gap as int, b2k as int);
            lemma_mod_twice(far, b2k as int);
            lemma_add_mod_noop(c0.idx + seen, 1, glen as int);
            lemma_add_mod_noop((c0.idx + seen) % (glen as int), 1, glen as int);
            lemma_mod_twice(c0.idx + seen, glen as int);
            let t = survivors(g, ms, c0, end_off, b2k, high_mask, (seen + 1) as nat);
            assert forall|i: int| 0 <= i < t.len() implies bufs.entry(#[trigger] (start_cnt + i))
                == t[i] by {
                if i < s.len() {
                    assert(s[i] == t[i]);
                }
            }
        }
        seen = seen + 1;
    }
    proof {
        assert(is_walked(
            gaps@,
            masks@,
            cursor,
            end_off,
            b2k,
            high_mask,
            *bufs,
            start_cnt,
            seen as nat,
            (cnt, cur),
        ));
    }
    (cnt, cur)
}

/// A walk seen from a later cursor: its candidates are those of the whole
/// walk, shifted.
proof fn lemma_candidate_shift(
    gaps: Seq<u32>,
    masks: Seq<u64>,
    cur: Cursor,
    b2k: u64,
    m: nat,
    next: Cursor,
    j: nat,
)
    requires
        gaps.len() > 0,
        b2k > 0,
        is_advanced(gaps, cur, b2k, m, next),
    ensures
        candidate(gaps, masks, next, b2k, j) == candidate(gaps, masks, cur, b2k, m + j),
{
    let n = gaps.len() as int;
    let b = b2k as int;
    lemma_reach_add(gaps, cur.idx as int, m, j);
    let far = cur.nmod + reach(gaps, cur.idx as int, m);
    let more = reach(gaps, next.idx as int, j);
    lemma_add_mod_noop(far, more, b);
    lemma_add_mod_noop(far % b, more, b);
    lemma_mod_twice(far, b);
    lemma_add_mod_noop(cur.idx + m, j as int, n);
    lemma_add_mod_noop((cur.idx + m) % n, j as int, n);
    lemma_mod_twice(cur.idx + m, n);
}

/// Advancing twice is advancing once, further.
proof fn lemma_advance_add(
    gaps: Seq<u32>,
    cur: Cursor,
    b2k: u64,
    l: nat,
    mid: Cursor,
    m: nat,
    next: Cursor,
)
    requires
        gaps.len() > 0,
        b2k > 0,
        is_advanced(gaps, cur, b2k, l, mid),
        is_advanced(gaps, mid, b2k, m, next),
    ensures
        is_advanced(gaps, cur, b2k, l + m, next),
{
    let masks = Seq::new(gaps.len(), |i: int| 0u64);
    lemma_candidate_shift(gaps, masks, cur, b2k, l, mid, m);
    let n = gaps.len() as int;
    lemma_add_mod_noop(cur.idx + l, m as int, n);
    lemma_add_mod_noop((cur.idx + l) % n, m as int, n);
    lemma_mod_twice(cur.idx + l, n);
}

/// The survivors of a walk are those of its first part and those of the rest.
pub proof fn lemma_survivors_add(
    gaps: Seq<u32>,
    masks: Seq<u64>,
    cur: Cursor,
    end_off: u64,
    b2k: u64,
    high_mask: u64,
    l: nat,
    mid: Cursor,
    m: nat,
)
    requires
        gaps.len() > 0,
        b2k > 0,
        is_advanced(gaps, cur, b2k, l, mid),
    ensures
        survivors(gaps, masks, cur, end_off, b2k, high_mask, l + m) == survivors(
            gaps,
            masks,
            cur,
            end_off,
            b2k,
            high_mask,
            l,
        ) + survivors(gaps, masks, mid, end_off, b2k, high_mask, m),
    decreases m,
{
    let whole = survivors(gaps, masks, cur, end_off, b2k, high_mask, l + m);
    let first = survivors(gaps, masks, cur, end_off, b2k, high_mask, l);
    let rest = survivors(gaps, masks, mid, end_off, b2k, high_mask, m);
    if m == 0 {
        assert(whole =~= first + rest);
    } else {
        let j = (m - 1) as nat;
        lemma_survivors_add(gaps, masks, cur, end_off, b2k, high_mask, l, mid, j);
        lemma_candidate_shift(gaps, masks, cur, b2k, l, mid, j);
        assert(l + m - 1 == l + j);
        assert(whole =~= first + rest);
    }
}

/// Phase 1 twice in a row, the second time from where the first left off,
/// is phase 1 over both stretches.
proof fn lemma_walked_add(
    gaps: Seq<u32>,
    masks: Seq<u64>,
    cur: Cursor,
    end_off: u64,
    b2k: u64,
    high_mask: u64,
    cnt: usize,
    bufs0: SurvivorBufs,
    l: nat,
    r0: (usize, Cursor),
    bufs1: SurvivorBufs,
    m: nat,
    r1: (usize, Cursor),
)
    requires
        gaps.len() > 0,
        b2k > 0,
        is_walked(gaps, masks, cur, end_off, b2k, high_mask, bufs0, cnt, l, r0),
        is_walked(gaps, masks, r0.1, end_off, b2k, high_mask, bufs1, r0.0, m, r1),
        forall|i: int| 0 <= i < r0.0 ==> #[trigger] bufs1.entry(i) == bufs0.entry(i),
    ensures
        is_walked(gaps, masks, cur, end_off, b2k, high_mask, bufs1, cnt, l + m, r1),
{
    lemma_advance_add(gaps, cur, b2k, l, r0.1, m, r1.1);
    lemma_survivors_add(gaps, masks, cur, end_off, b2k, high_mask, l, r0.1, m);
    let first = survivors(gaps, masks, cur, end_off, b2k, high_mask, l);
    let rest = survivors(gaps, masks, r0.1, end_off, b2k, high_mask, m);
    let whole = survivors(gaps, masks, cur, end_off, b2k, high_mask, l + m);
    assert forall|i: int| 0 <= i < whole.len() implies bufs1.entry(#[trigger] (cnt + i))
        == whole[i] by {
        if i < first.len() {
            assert(bufs0.entry(cnt + i) == first[i]);
        } else {
            assert(bufs1.entry(r0.0 + (i - first.len())) == rest[i - first.len()]);
        }
    }
}

/// A stretch of the table without a wrap is no longer than one turn around it.
proof fn lemma_window(gaps: Seq<u32>, i: int, l: nat)
    requires
        0 <= i < gaps.len(),
        i + l <= gaps.len(),
    ensures
        0 <= reach(gaps, i, l) <= reach(gaps, 0, gaps.len()),
{
    lemma_small_mod(i as nat, gaps.len());
    lemma_reach_add(gaps, 0, i as nat, l);
    lemma_reach_monotone(gaps, 0, 0, i as nat);
    lemma_reach_monotone(gaps, 0, i as nat + l, gaps.len());
    lemma_reach_monotone(gaps, i, 0, l);
}

/// One group of `lanes` candidates from `cur`, none of them past the end of
/// the table: each lane gets its offset from the sum of the gaps before it and
/// stores unconditionally; the count advances for the survivors.
fn walk_group(
    lanes: usize,
    gaps: &[u32],
    masks: &[u64],
    cur: Cursor,
    end_off: u64,
    b2k: u64,
    high_mask: u64,
    bufs: &mut SurvivorBufs,
    start_cnt: usize,
) -> (r: (usize, Cursor))
    requires
        is_placed(gaps@, masks@, cur, b2k),
        takes_groups(gaps@, end_off, b2k),
        cur.off < end_off,
        0 < lanes <= 8,
        cur.idx + lanes <= gaps@.len(),
        start_cnt + lanes <= 1040,
    ensures
        is_walked(
            gaps@,
            masks@,
            cur,
            end_off,
            b2k,
            high_mask,
            *final(bufs),
            start_cnt,
            lanes as nat,
            r,
        ),
        r.0 <= start_cnt + lanes,
        forall|i: int|
            0 <= i < start_cnt ==> #[trigger] final(bufs).entry(i) == old(bufs).entry(i),
{
    let ghost g = gaps@;
    let ghost ms = masks@;
    let glen: usize = gaps.len();
    let mut cnt: usize = start_cnt;
    let mut ex: u64 = 0;
    let mut lane: usize = 0;
    while lane < lanes
        invariant
            g == gaps@,
            ms == masks@,
            glen == g.len(),
            is_placed(g, ms, cur, b2k),
            takes_groups(g, end_off, b2k),
            cur.off < end_off,
            0 < lanes <= 8,
            cur.idx + lanes <= g.len(),
            start_cnt + lanes <= 1040,
            lane <= lanes,
            ex == reach(g, cur.idx as int, lane as nat),
            ex <= lane * 0x1_0000_0000,
            cnt <= start_cnt + lane,
            cnt == start_cnt + survivors(
                g,
                ms,
                cur,
                end_off,
                b2k,
                high_mask,
                lane as nat,
            ).len(),
            stored(
                *bufs,
                start_cnt as int,
                survivors(g, ms, cur, end_off, b2k, high_mask, lane as nat),
            ),
            forall|i: int|
                0 <= i < start_cnt ==> #[trigger] bufs.entry(i) == old(bufs).entry(i),
        decreases lanes - lane,
    {
        let ghost s = survivors(g, ms, cur, end_off, b2k, high_mask, lane as nat);
        let low: u64 = masks[cur.idx + lane];
        let off: u64 = cur.off + ex;
        let mut nmod: u64 = cur.nmod + ex;
        if nmod >= b2k {
            nmod = nmod - b2k;
        }
        bufs.store(cnt, off, nmod, low);
        if off < end_off && low & high_mask == 0 {
            cnt = cnt + 1;
        }
        proof {
            lemma_window(g, cur.idx as int, lane as nat);
            lemma_reduce(cur.nmod as int, ex as int, b2k as int);
            lemma_small_mod((cur.idx + lane) as nat, g.len());
            let c = candidate(g, ms, cur, b2k, lane as nat);
            assert(c == bufs.entry((start_cnt + s.len()) as int));
            lemma_reach_step(g, cur.idx as int, lane as nat);
            let t = survivors(g, ms, cur, end_off, b2k, high_mask, (lane + 1) as nat);
            assert forall|i: int| 0 <= i < t.len() implies bufs.entry(#[trigger] (start_cnt + i))
                == t[i] by {
                if i < s.len() {
                    assert(s[i] == t[i]);
                }
            }
        }
        ex = ex + gaps[cur.idx + lane] as u64;
        lane = lane + 1;
    }
    proof {
        lemma_window(g, cur.idx as int, lanes as nat);
        lemma_reduce(cur.nmod as int, ex as int, b2k as int);
        lemma_index_step(cur.idx + lanes - 1, glen as int);
    }
    let mut next: Cursor = cur;
    next.off = cur.off + ex;
    next.nmod = cur.nmod + ex;
    if next.nmod >= b2k {
        next.nmod = next.nmod - b2k;
    }
    next.idx = cur.idx + lanes;
    if next.idx == glen {
        next.idx = 0;
    }
    (cnt, next)
}

/// Phase 1 over at most one block, in groups of `lanes` candidates. Where fewer
/// are left before the table wraps or the block is full, the scalar loop walks
/// them.
fn phase1_lanes(
    lanes: usize,
    gaps: &[u32],
    masks: &[u64],
    cursor: Cursor,
    end_off: u64,
    b2k: u64,
    high_mask: u64,
    bufs: &mut SurvivorBufs,
) -> (r: (usize, Cursor))
    requires
        is_placed(gaps@, masks@, cursor, b2k),
        takes_groups(gaps@, end_off, b2k),
        0 < lanes <= 8,
    ensures
        exists|m: nat|
            {
                &&& #[trigger] is_walked(
                    gaps@,
                    masks@,
                    cursor,
                    end_off,
                    b2k,
                    high_mask,
                    *final(bufs),
                    0,
                    m,
                    r,
                )
                &&& m <= BLOCK
                &&& m == BLOCK || r.1.off >= end_off
            },
        r.0 <= BLOCK,
{
    let ghost g = gaps@;
    let ghost ms = masks@;
    let glen: usize = gaps.len();
    let mut cur: Cursor = cursor;
    let mut cnt: usize = 0;
    let mut seen: usize = 0;
    let ghost mut m: nat = 0;
    proof {
        lemma_small_mod(cur.idx as nat, glen as nat);
        lemma_small_mod(cur.nmod as nat, b2k as nat);
        assert(is_walked(g, ms, cursor, end_off, b2k, high_mask, *bufs, 0, 0, (cnt, cur)));
    }
    while cur.off < end_off && seen < BLOCK
        invariant
            g == gaps@,
            ms == masks@,
            glen == g.len(),
            is_placed(g, ms, cursor, b2k),
            is_placed(g, ms, cur, b2k),
            takes_groups(g, end_off, b2k),
            0 < lanes <= 8,
            seen <= BLOCK,
            m <= seen,
            cnt <= seen,
            m == seen || cur.off >= end_off,
            is_walked(g, ms, cursor, end_off, b2k, high_mask, *bufs, 0, m, (cnt, cur)),
        decreases BLOCK - seen,
    {
        let ghost bufs0 = *bufs;
        let ghost r0 = (cnt, cur);
        let room: usize = glen - cur.idx;
        let left: usize = BLOCK - seen;
        if room < lanes || left < lanes {
            let n: usize = if room < left {
                room
            } else {
                left
            };
            let (c, next) = phase1_scalar(
                gaps,
                masks,
                cur,
                end_off,
                b2k,
                high_mask,
                bufs,
                cnt,
                n,
            );
            proof {
                let l = choose|l: nat|
                    {
                        &&& #[trigger] is_walked(
                            g,
                            ms,
                            cur,
                            end_off,
                            b2k,
                            high_mask,
                            *bufs,
                            cnt,
                            l,
                            (c, next),
                        )
                        &&& l <= n
                        &&& l == n || next.off >= end_off
                    };
                lemma_walked_add(
                    g,
                    ms,
                    cursor,
                    end_off,
                    b2k,
                    high_mask,
                    0,
                    bufs0,
                    m,
                    r0,
                    *bufs,
                    l,
                    (c, next),
                );
                lemma_survivors_len(g, ms, cur, end_off, b2k, high_mask, l);
                lemma_mod_bound(cur.idx + l, g.len() as int);
                lemma_mod_bound(cur.nmod + reach(g, cur.idx as int, l), b2k as int);
                m = m + l;
            }
            cnt = c;
            cur = next;
            seen = seen + n;
        } else {
            let (c, next) = walk_group(
                lanes,
                gaps,
                masks,
                cur,
                end_off,
                b2k,
                high_mask,
                bufs,
                cnt,
            );
            proof {
                let l = lanes as nat;
                lemma_walked_add(
                    g,
                    ms,
                    cursor,
                    end_off,
                    b2k,
                    high_mask,
                    0,
                    bufs0,
                    m,
                    r0,
                    *bufs,
                    l,
                    (c, next),
                );
                lemma_mod_bound(cur.idx + l, g.len() as int);
                lemma_mod_bound(cur.nmod + reach(g, cur.idx as int, l), b2k as int);
                m = m + l;
            }
            cnt = c;
            cur = next;
            seen = seen + lanes;
        }
    }
    (cnt, cur)
}

/// Phase 1 over at most one block, in groups of four candidates, the shape that
/// AVX2 vectors take.
pub fn phase1_avx2(
    gaps: &[u32],
    masks: &[u64],
    cursor: Cursor,
    end_off: u64,
    b2k: u64,
    high_mask: u64,
    bufs: &mut SurvivorBufs,
) -> (r: (usize, Cursor))
    requires
        is_placed(gaps@, masks@, cursor, b2k),
        takes_groups(gaps@, end_off, b2k),
    ensures
        exists|m: nat|
            {
                &&& #[trigger] is_walked(
                    gaps@,
                    masks@,
                    cursor,
                    end_off,
                    b2k,
                    high_mask,
                    *final(bufs),
                    0,
                    m,
                    r,
                )
                &&& m <= BLOCK
                &&& m == BLOCK || r.1.off >= end_off
            },
        r.0 <= BLOCK,
{
    phase1_lanes(4, gaps, masks, cursor, end_off, b2k, high_mask, bufs)
}

/// Phase 1 over at most one block, in groups of eight candidates, the shape that
/// AVX-512 vectors take.
pub fn phase1_avx512(
    gaps: &[u32],
    masks: &[u64],
    cursor: Cursor,
    end_off: u64,
    b2k: u64,
    high_mask: u64,
    bufs: &mut SurvivorBufs,
) -> (r: (usize, Cursor))
    requires
        is_placed(gaps@, masks@, cursor, b2k),
        takes_groups(gaps@, end_off, b2k),
    ensures
        exists|m: nat|
            {
                &&& #[trigger] is_walked(
                    gaps@,
                    masks@,
                    cursor,
                    end_off,
                    b2k,
                    high_mask,
                    *final(bufs),
                    0,
                    m,
                    r,
                )
                &&& m <= BLOCK
                &&& m == BLOCK || r.1.off >= end_off
            },
        r.0 <= BLOCK,
{
    phase1_lanes(8, gaps, masks, cursor, end_off, b2k, high_mask, bufs)
}

/// Run phase 1 over at most one block of candidates from `cursor`, writing
/// survivors to `bufs`. Returns the survivor count and the cursor to resume
/// from (`off >= end_off` when the range is exhausted).
pub fn phase1(
    imp: Phase1Impl,
    gaps: &[u32],
    masks: &[u64],
    cursor: Cursor,
    end_off: u64,
    b2k: u64,
    high_mask: u64,
    bufs: &mut SurvivorBufs,
) -> (r: (usize, Cursor))
    requires
        is_placed(gaps@, masks@, cursor, b2k),
        imp is Scalar ==> stays_in_words(gaps@, cursor, end_off, b2k, BLOCK as nat),
        imp !is Scalar ==> takes_groups(gaps@, end_off, b2k),
    ensures
        exists|m: nat|
            {
                &&& #[trigger] is_walked(
                    gaps@,
                    masks@,
                    cursor,
                    end_off,
                    b2k,
                    high_mask,
                    *final(bufs),
                    0,
                    m,
                    r,
                )
                &&& m <= BLOCK
                &&& m == BLOCK || r.1.off >= end_off
            },
        r.0 <= BLOCK,
{
    match imp {
        Phase1Impl::Scalar => phase1_scalar(
            gaps,
            masks,
            cursor,
            end_off,
            b2k,
            high_mask,
            bufs,
            0,
            BLOCK,
        ),
        Phase1Impl::Avx2 => phase1_avx2(gaps, masks, cursor, end_off, b2k, high_mask, bufs),
        Phase1Impl::Avx512 => phase1_avx512(gaps, masks, cursor, end_off, b2k, high_mask, bufs),
    }
}

/// The best implementation for a CPU. `cap` limits the choice: `0` forces the
/// scalar loop, `avx2` the four-lane one; anything else takes the best that
/// the CPU supports.
pub fn select_phase1_impl(cap: &str, has_avx512: bool, has_avx2: bool) -> (imp: Phase1Impl)
    ensures
        imp == if cap@ == seq!['0'] {
            Phase1Impl::Scalar
        } else if has_avx512 && cap@ != seq!['a', 'v', 'x', '2'] {
            Phase1Impl::Avx512
        } else if has_avx2 {
            Phase1Impl::Avx2
        } else {
            Phase1Impl::Scalar
        },
{
    let len: usize = cap.unicode_len();
    if len == 1 && cap.get_char(0) == '0' {
        proof {
            assert(cap@ =~= seq!['0']);
        }
        return Phase1Impl::Scalar;
    }
    let capped: bool = len == 4 && cap.get_char(0) == 'a' && cap.get_char(1) == 'v' && cap.get_char(2)
        == 'x' && cap.get_char(3) == '2';
    proof {
        if capped {
            assert(cap@ =~= seq!['a', 'v', 'x', '2']);
        }
    }
    if has_avx512 && !capped {
        return Phase1Impl::Avx512;
    }
    if has_avx2 {
        return Phase1Impl::Avx2;
    }
    Phase1Impl::Scalar
}

/// A walk has no more survivors than candidates.
pub proof fn lemma_survivors_len(
    gaps: Seq<u32>,
    masks: Seq<u64>,
    cur: Cursor,
    end_off: u64,
    b2k: u64,
    high_mask: u64,
    m: nat,
)
    ensures
        survivors(gaps, masks, cur, end_off, b2k, high_mask, m).len() <= m,
    decreases m,
{
    if m > 0 {
        lemma_survivors_len(gaps, masks, cur, end_off, b2k, high_mask, (m - 1) as nat);
    }
}

/// Every survivor is one of the candidates.
pub proof fn lemma_survivor_source(
    gaps: Seq<u32>,
    masks: Seq<u64>,
    cur: Cursor,
    end_off: u64,
    b2k: u64,
    high_mask: u64,
    m: nat,
    i: int,
) -> (j: nat)
    requires
        0 <= i < survivors(gaps, masks, cur, end_off, b2k, high_mask, m).len(),
    ensures
        j < m,
        survivors(gaps, masks, cur, end_off, b2k, high_mask, m)[i] == candidate(
            gaps,
            masks,
            cur,
            b2k,
            j,
        ),
        is_survivor(candidate(gaps, masks, cur, b2k, j), end_off, high_mask),
    decreases m,
{
    let p = (m - 1) as nat;
    if i < survivors(gaps, masks, cur, end_off, b2k, high_mask, p).len() {
        lemma_survivor_source(gaps, masks, cur, end_off, b2k, high_mask, p, i)
    } else {
        p
    }
}

/// Every candidate that survives is handed on.
pub proof fn lemma_survivor_kept(
    gaps: Seq<u32>,
    masks: Seq<u64>,
    cur: Cursor,
    end_off: u64,
    b2k: u64,
    high_mask: u64,
    m: nat,
    j: nat,
) -> (i: int)
    requires
        j < m,
        is_survivor(candidate(gaps, masks, cur, b2k, j), end_off, high_mask),
    ensures
        0 <= i < survivors(gaps, masks, cur, end_off, b2k, high_mask, m).len(),
        survivors(gaps, masks, cur, end_off, b2k, high_mask, m)[i] == candidate(
            gaps,
            masks,
            cur,
            b2k,
            j,
        ),
    decreases m,
{
    let p = (m - 1) as nat;
    if j < p {
        lemma_survivor_kept(gaps, masks, cur, end_off, b2k, high_mask, p, j)
    } else {
        survivors(gaps, masks, cur, end_off, b2k, high_mask, p).len() as int
    }
}

/// Over positive gaps the survivors ascend.
pub proof fn lemma_survivors_ascend(
    gaps: Seq<u32>,
    masks: Seq<u64>,
    cur: Cursor,
    end_off: u64,
    b2k: u64,
    high_mask: u64,
    m: nat,
    i: int,
    l: int,
)
    requires
        gaps.len() > 0,
        forall|x: int| 0 <= x < gaps.len() ==> #[trigger] gaps[x] > 0,
        0 <= i < l < survivors(gaps, masks, cur, end_off, b2k, high_mask, m).len(),
    ensures
        survivors(gaps, masks, cur, end_off, b2k, high_mask, m)[i].off < survivors(
            gaps,
            masks,
            cur,
            end_off,
            b2k,
            high_mask,
            m,
        )[l].off,
    decreases m,
{
    let p = (m - 1) as nat;
    let prefix = survivors(gaps, masks, cur, end_off, b2k, high_mask, p);
    if l < prefix.len() {
        lemma_survivors_ascend(gaps, masks, cur, end_off, b2k, high_mask, p, i, l);
    } else {
        let j = lemma_survivor_source(gaps, masks, cur, end_off, b2k, high_mask, p, i);
        lemma_reach_step(gaps, cur.idx as int, j);
        lemma_mod_bound(cur.idx + j, gaps.len() as int);
        lemma_reach_monotone(gaps, cur.idx as int, j + 1, p);
    }
}

/// Once a walk has left the range, walking on changes nothing: all walks that
/// exhaust a range hand on the same survivors, however they are cut into
/// blocks.
pub proof fn lemma_exhausted_walks_agree(
    gaps: Seq<u32>,
    masks: Seq<u64>,
    cur: Cursor,
    end_off: u64,
    b2k: u64,
    high_mask: u64,
    l: nat,
    m: nat,
)
    requires
        cur.off + reach(gaps, cur.idx as int, l) >= end_off,
        cur.off + reach(gaps, cur.idx as int, m) >= end_off,
    ensures
        survivors(gaps, masks, cur, end_off, b2k, high_mask, l) == survivors(
            gaps,
            masks,
            cur,
            end_off,
            b2k,
            high_mask,
            m,
        ),
    decreases l + m,
{
    if l < m {
        lemma_reach_monotone(gaps, cur.idx as int, l, (m - 1) as nat);
        lemma_exhausted_walks_agree(
            gaps,
            masks,
            cur,
            end_off,
            b2k,
            high_mask,
            l,
            (m - 1) as nat,
        );
    } else if m < l {
        lemma_reach_monotone(gaps, cur.idx as int, m, (l - 1) as nat);
        lemma_exhausted_walks_agree(
            gaps,
            masks,
            cur,
            end_off,
            b2k,
            high_mask,
            (l - 1) as nat,
            m,
        );
    }
}

/// A walk can go on from where it stopped: what holds of its first `l + m`
/// steps holds of `m` steps from the cursor after `l`.
pub proof fn lemma_walk_goes_on(
    gaps: Seq<u32>,
    masks: Seq<u64>,
    cur: Cursor,
    end_off: u64,
    b2k: u64,
    l: nat,
    next: Cursor,
    m: nat,
)
    requires
        is_placed(gaps, masks, cur, b2k),
        stays_in_words(gaps, cur, end_off, b2k, l + m),
        is_advanced(gaps, cur, b2k, l, next),
    ensures
        is_placed(gaps, masks, next, b2k),
        stays_in_words(gaps, next, end_off, b2k, m),
{
    let n = gaps.len() as int;
    lemma_mod_bound(cur.idx + l, n);
    lemma_mod_bound(cur.nmod + reach(gaps, cur.idx as int, l), b2k as int);
    if !(forall|i: int|
        0 <= i < gaps.len() ==> {
            &&& end_off + #[trigger] gaps[i] <= 0x1_0000_0000_0000_0000
            &&& b2k + gaps[i] <= 0x1_0000_0000_0000_0000
        }) {
        assert forall|j: nat|
            j < m && next.off + #[trigger] reach(gaps, next.idx as int, j) < end_off implies {
            let far = reach(gaps, next.idx as int, j);
            let gap = gaps[(next.idx + j) % n];
            &&& next.off + far + gap <= u64::MAX
            &&& (next.nmod + far) % (b2k as int) + gap <= u64::MAX
        } by {
            lemma_candidate_shift(gaps, masks, cur, b2k, l, next, j);
            lemma_add_mod_noop(cur.idx + l, j as int, n);
            lemma_add_mod_noop((cur.idx + l) % n, j as int, n);
            lemma_mod_twice(cur.idx + l, n);
            assert(candidate(gaps, masks, next, b2k, j) == candidate(gaps, masks, cur, b2k, l + j));
            assert(cur.off + reach(gaps, cur.idx as int, l + j) < end_off);
        }
    }
}

/// What a call of phase 1 that started with empty buffers leaves in them.
pub open spec fn taken(bufs: SurvivorBufs, cnt: usize) -> Seq<Survivor> {
    Seq::new(cnt as nat, |i: int| bufs.entry(i))
}

/// One call of phase 1 from cursor `from`, with empty buffers: it walked
/// `steps` candidates and left `cnt` survivors in `bufs`.
pub ghost struct Call {
    pub from: Cursor,
    pub steps: nat,
    pub bufs: SurvivorBufs,
    pub cnt: usize,
}

/// Whether `calls` are calls of phase 1 in a row, the first from `first`, each
/// later one from the cursor that the one before it returned, and `next` the
/// cursor that the last one returned.
pub open spec fn is_run(
    gaps: Seq<u32>,
    masks: Seq<u64>,
    first: Cursor,
    end_off: u64,
    b2k: u64,
    high_mask: u64,
    calls: Seq<Call>,
    next: Cursor,
) -> bool
    decreases calls.len(),
{
    if calls.len() == 0 {
        next == first
    } else {
        let c = calls.last();
        &&& is_walked(
            gaps,
            masks,
            c.from,
            end_off,
            b2k,
            high_mask,
            c.bufs,
            0,
            c.steps,
            (c.cnt, next),
        )
        &&& is_run(gaps, masks, first, end_off, b2k, high_mask, calls.drop_last(), c.from)
    }
}

/// The candidates that a run walked.
pub open spec fn run_steps(calls: Seq<Call>) -> nat
    decreases calls.len(),
{
    if calls.len() == 0 {
        0
    } else {
        run_steps(calls.drop_last()) + calls.last().steps
    }
}

/// What a run handed on, call after call.
pub open spec fn run_output(calls: Seq<Call>) -> Seq<Survivor>
    decreases calls.len(),
{
    if calls.len() == 0 {
        Seq::empty()
    } else {
        run_output(calls.drop_last()) + taken(calls.last().bufs, calls.last().cnt)
    }
}

/// A run hands on what one walk over all its candidates hands on, and ends
/// where that walk ends.
pub proof fn lemma_run_is_a_walk(
    gaps: Seq<u32>,
    masks: Seq<u64>,
    first: Cursor,
    end_off: u64,
    b2k: u64,
    high_mask: u64,
    calls: Seq<Call>,
    next: Cursor,
)
    requires
        is_placed(gaps, masks, first, b2k),
        is_run(gaps, masks, first, end_off, b2k, high_mask, calls, next),
    ensures
        is_advanced(gaps, first, b2k, run_steps(calls), next),
        run_output(calls) == survivors(
            gaps,
            masks,
            first,
            end_off,
            b2k,
            high_mask,
            run_steps(calls),
        ),
    decreases calls.len(),
{
    if calls.len() == 0 {
        lemma_small_mod(first.idx as nat, gaps.len() as nat);
        lemma_small_mod(first.nmod as nat, b2k as nat);
    } else {
        let before = calls.drop_last();
        let c = calls.last();
        let l = run_steps(before);
        let s = survivors(gaps, masks, c.from, end_off, b2k, high_mask, c.steps);
        lemma_run_is_a_walk(gaps, masks, first, end_off, b2k, high_mask, before, c.from);
        lemma_advance_add(gaps, first, b2k, l, c.from, c.steps, next);
        lemma_survivors_add(gaps, masks, first, end_off, b2k, high_mask, l, c.from, c.steps);
        assert forall|i: int| 0 <= i < s.len() implies taken(c.bufs, c.cnt)[i] == s[i] by {
            assert(c.bufs.entry(0 + i) == s[i]);
        }
        assert(taken(c.bufs, c.cnt) =~= s);
    }
}

/// However a range is cut into calls, phase 1 hands on the same: two runs from
/// one cursor that both exhaust the range have the same output, whichever
/// implementation each call used and however many candidates it walked.
pub proof fn lemma_runs_agree(
    gaps: Seq<u32>,
    masks: Seq<u64>,
    first: Cursor,
    end_off: u64,
    b2k: u64,
    high_mask: u64,
    one: Seq<Call>,
    one_next: Cursor,
    other: Seq<Call>,
    other_next: Cursor,
)
    requires
        is_placed(gaps, masks, first, b2k),
        is_run(gaps, masks, first, end_off, b2k, high_mask, one, one_next),
        is_run(gaps, masks, first, end_off, b2k, high_mask, other, other_next),
        one_next.off >= end_off,
        other_next.off >= end_off,
    ensures
        run_output(one) == run_output(other),
{
    lemma_run_is_a_walk(gaps, masks, first, end_off, b2k, high_mask, one, one_next);
    lemma_run_is_a_walk(gaps, masks, first, end_off, b2k, high_mask, other, other_next);
    lemma_exhausted_walks_agree(
        gaps,
        masks,
        first,
        end_off,
        b2k,
        high_mask,
        run_steps(one),
        run_steps(other),
    );
}

} // verus!
