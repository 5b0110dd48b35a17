use nice_common::affine_filter::{middle_digits, supports, survives, survives_const};
use nice_common::phase1::{Phase1Impl, SurvivorBufs};
use nice_common::stride_filter::StrideTable;
use nice_common::wide::Wide;
use nice_common::FieldSize;

fn wide_digits(mut w: Wide, base: u32) -> Vec<u32> {
    let mut out = Vec::new();
    while !w.is_zero() {
        out.push(w.div_assign_rem_u32(base));
    }
    out
}

fn true_digits(n: u128, base: u32) -> (Vec<u32>, Vec<u32>) {
    let sq = Wide::from_u128(n).mul_u128(n);
    let cu = sq.mul_u128(n);
    (wide_digits(sq, base), wide_digits(cu, base))
}

/// The numbers whose square and cube have `base` digits together.
fn base_range(base: u32) -> FieldSize {
    let total = |n: u128| {
        let (sq, cu) = true_digits(n, base);
        (sq.len() + cu.len()) as u32
    };
    let first_with = |least: u32| {
        let (mut lo, mut hi) = (0u128, 1u128 << 100);
        while lo < hi {
            let mid = (lo + hi) / 2;
            if total(mid) >= least {
                hi = mid;
            } else {
                lo = mid + 1;
            }
        }
        lo
    };
    FieldSize::new(first_with(base), first_with(base + 1))
}

/// The mask of the digits, from position 6 on, that all numbers of a range
/// share at the top of both powers; `None` when one of them repeats.
fn top_mask(range: FieldSize, base: u32) -> Option<u64> {
    let (sq0, cu0) = true_digits(range.start(), base);
    let (sq1, cu1) = true_digits(range.end() - 1, base);
    let mut mask = 0u64;
    for (first, last) in [(sq0, sq1), (cu0, cu1)] {
        if first.len() != last.len() {
            continue;
        }
        for i in (6..first.len()).rev() {
            if first[i] != last[i] {
                break;
            }
            if mask & (1u64 << first[i]) != 0 {
                return None;
            }
            mask |= 1u64 << first[i];
        }
    }
    Some(mask)
}

fn lcg(state: &mut u128) -> u128 {
    *state = state
        .wrapping_mul(6_364_136_223_846_793_005)
        .wrapping_add(1_442_695_040_888_963_407);
    *state
}

#[test]
fn middle_digits_match_true_digits_all_specialized_bases() {
    // The filter only ever rejects on a genuine duplicate among real
    // output digits, so digit equality with wide arithmetic is what makes
    // it sound.
    let bases: &[u32] = &[
        40, 42, 43, 44, 45, 47, 48, 49, 50, 52, 53, 54, 55, 57, 58, 59, 60, 62, 64,
    ];
    let mut state: u128 = 0x9e37_79b9_7f4a_7c15_f39c_c060_5ced_c834;
    for &base in bases {
        assert!(supports(base, 3));
        let r = base_range(base);
        let b6 = u128::from(base).pow(6);
        for _ in 0..3000 {
            let n = r.start() + lcg(&mut state) % r.size();
            let nmod = (n % b6) as u64;
            let (sq, cu) = middle_digits(base, nmod);
            let (tsq, tcu) = true_digits(n, base);
            assert!(
                tsq.len() >= 6 && tcu.len() >= 6,
                "b{base}: powers too short"
            );
            assert_eq!(sq, tsq[3..6], "b{base} n={n}: square middle digits");
            assert_eq!(cu, tcu[3..6], "b{base} n={n}: cube middle digits");
            // And the verdict is exactly "six real digits, distinct,
            // disjoint from known" for an arbitrary known mask.
            let known = (lcg(&mut state) as u64) & (1u64.checked_shl(base).unwrap_or(0).wrapping_sub(1));
            let mut seen = known;
            let mut ok = true;
            for &d in sq.iter().chain(cu.iter()) {
                if seen & (1u64 << d) != 0 {
                    ok = false;
                }
                seen |= 1u64 << d;
            }
            assert_eq!(
                survives(base, nmod, known),
                ok,
                "b{base} n={n} known={known:#x}"
            );
        }
    }
}

#[test]
fn unsupported_bases_never_filter() {
    assert!(!supports(10, 3));
    assert!(!supports(40, 2));
    assert!(!supports(65, 3));
    assert!(survives(10, 12345, u64::MAX));
    assert!(survives(65, 12345, u64::MAX));
}

#[test]
fn masked_iteration_with_filter_matches_without_on_windows() {
    // End-to-end: the filtered stride iteration must return exactly the
    // same nice set as the plain seeded check on real production
    // windows.
    for (base, start) in [
        (40u32, 5_007_828_088_304u128),
        (52, 407_887_399_136_188_818),
    ] {
        let table = StrideTable::new(base, 3);
        let mut with = Vec::new();
        let mut without = Vec::new();
        let mut lanes = Vec::new();
        let mut bufs = SurvivorBufs::new();
        for i in 0..100u128 {
            let leaf = FieldSize::new(start + i * 20_000, start + (i + 1) * 20_000);
            if let Some(hi) = top_mask(leaf, base) {
                with.extend(table.iterate_range_masked(&leaf, base, hi));
                without.extend(table.iterate_range_masked_unfiltered(&leaf, base, hi));
                lanes.extend(table.iterate_range_masked_with(
                    &leaf,
                    base,
                    hi,
                    Phase1Impl::Avx512,
                    &mut bufs,
                ));
            }
        }
        assert_eq!(with, without);
        assert_eq!(with, lanes);
    }
}

#[test]
fn supported_bases_are_exactly_the_specialized_ones() {
    let bases = [
        40u32, 42, 43, 44, 45, 47, 48, 49, 50, 52, 53, 54, 55, 57, 58, 59, 60, 62, 64,
    ];
    for base in 0..200u32 {
        assert_eq!(supports(base, 3), bases.contains(&base));
        assert!(!supports(base, 2));
        assert!(!supports(base, 4));
    }
}

#[test]
fn middle_digits_of_a_small_number() {
    // 1234² = 1522756 and 1234³ = 1879080904.
    assert_eq!(middle_digits(10, 1234), ([2, 2, 5], [0, 8, 0]));
    // A base of one has only zeros.
    assert_eq!(middle_digits(1, 7), ([0, 0, 0], [0, 0, 0]));
    // 69² = 4761 has no digits past position 3.
    assert_eq!(middle_digits(10, 69), ([4, 0, 0], [8, 2, 3]));
}

#[test]
fn repeated_or_known_middle_digits_are_rejected() {
    // In base 40, zero has only zeros in the middle.
    assert!(!survives(40, 0, 0));
    let mut kept = 0u32;
    for nmod in 1_000_000_000u64..1_000_002_000 {
        let (sq, cu) = middle_digits(40, nmod);
        let mut mask = 0u64;
        for d in sq.iter().chain(cu.iter()) {
            mask |= 1u64 << d;
        }
        let distinct = mask.count_ones() == 6;
        assert_eq!(survives(40, nmod, 0), distinct);
        assert_eq!(survives(40, nmod, !mask), distinct);
        for d in sq {
            assert!(!survives(40, nmod, 1u64 << d));
        }
        kept += u32::from(distinct);
    }
    assert!(kept > 0);
}

#[test]
fn verdict_is_the_one_on_the_digits() {
    let mut state = 0x5eed_u128;
    let (mut kept, mut dropped) = (0u32, 0u32);
    for _ in 0..20_000 {
        let nmod = (lcg(&mut state) % 42u128.pow(6)) as u64;
        let known = (lcg(&mut state) & 0x1ff) as u64;
        let (sq, cu) = middle_digits(42, nmod);
        let mut mask = 0u64;
        let mut want = true;
        for d in sq.iter().chain(cu.iter()) {
            let bit = 1u64 << d;
            want = want && mask & bit == 0 && known & bit == 0;
            mask |= bit;
        }
        assert_eq!(survives(42, nmod, known), want);
        assert_eq!(survives_const::<42>(nmod, known), want);
        if want {
            kept += 1;
        } else {
            dropped += 1;
        }
    }
    assert!(kept > 0 && dropped > 0);
}

#[test]
fn distinct_output_is_kept_though_not_nice() {
    let base = 64u32;
    let mut seen = 0u32;
    // From 64^{5/2} on a square has six digits.
    for n in 32_768..60_000u128 {
        let (sq, cu) = true_digits(n, base);
        let mut all: Vec<u32> = sq.iter().chain(cu.iter()).copied().collect();
        all.sort_unstable();
        let len = all.len();
        all.dedup();
        if all.len() < len {
            continue;
        }
        let mut known = 0u64;
        for power in [&sq, &cu] {
            for (i, d) in power.iter().enumerate() {
                if !(3..6).contains(&i) {
                    known |= 1 << d;
                }
            }
        }
        let nmod = (n % 64u128.pow(6)) as u64;
        assert!(survives(base, nmod, known), "n={n}");
        seen += 1;
    }
    assert!(seen > 100);
}
