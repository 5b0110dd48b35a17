use nice_common::client_process::{get_is_nice, get_is_nice_with_known_lsd};
use nice_common::digits::checked_pow;
use nice_common::lsd_filter::get_valid_multi_lsd_bitmap;
use nice_common::mask::count_digits;
use nice_common::phase1::{
    phase1, phase1_avx2, phase1_avx512, phase1_scalar, select_phase1_impl, Cursor, Phase1Impl,
    SurvivorBufs, BLOCK, LANE_LIMIT,
};
use nice_common::residue_filter::get_residue_filter;
use nice_common::stride_filter::StrideTable;
use nice_common::wide::Wide;
use nice_common::{FieldSize, NiceNumberSimple};

/// Nice numbers of a small range, digit by digit in 128 bits.
fn brute_force(start: u128, end: u128, base: u32) -> Vec<u128> {
    let mut out = Vec::new();
    for n in start..end {
        let mut seen = vec![0u32; base as usize];
        for power in [n * n, n * n * n] {
            let mut x = power;
            while x > 0 {
                seen[(x % u128::from(base)) as usize] += 1;
                x /= u128::from(base);
            }
        }
        if seen.iter().all(|&c| c == 1) {
            out.push(n);
        }
    }
    out
}

#[test]
fn sixty_nine_is_the_nice_number_of_base_ten() {
    assert_eq!(brute_force(0, 20_000, 10), vec![69]);
    let range = FieldSize::new(0, 20_000);
    for k in 0..=4u32 {
        let table = StrideTable::new(10, k);
        let want = vec![NiceNumberSimple { number: 69, num_uniques: 10 }];
        assert_eq!(table.iterate_range(&range, 10), want);
    }
}

#[test]
fn every_small_base_is_searched_completely() {
    for base in 4..=20u32 {
        let want = brute_force(0, 30_000, base);
        for k in 1..=2u32 {
            let table = StrideTable::new(base, k);
            if table.valid_residues.is_empty() {
                assert!(want.is_empty());
                continue;
            }
            let found = table.iterate_range(&FieldSize::new(0, 30_000), base);
            let got: Vec<u128> = found.iter().map(|r| r.number).collect();
            assert_eq!(got, want, "base {base} k={k}");
        }
    }
}

#[test]
fn a_table_deeper_than_the_square_loses_its_number() {
    // 69² = 4761 has four digits; at depth 5 its padding repeats the zero of
    // 69³ = 328509.
    let table = StrideTable::new(10, 5);
    assert!(!table.valid_residues.contains(&69));
    assert!(table.iterate_range(&FieldSize::new(60, 80), 10).is_empty());
}

#[test]
fn nice_check_wants_every_digit_once() {
    assert!(get_is_nice(69, 10));
    // 3² = 9 and 3³ = 27 repeat nothing, but leave seven digits out.
    assert!(!get_is_nice(3, 10));
    assert!(!get_is_nice(0, 10));
    assert!(!get_is_nice(70, 10));
    // Base 4: 2² = 10 and 2³ = 20 repeat the zero.
    assert!(!get_is_nice(2, 4));
    // Large numbers and large bases.
    assert!(!get_is_nice(u128::MAX, 10));
    assert!(!get_is_nice(u128::MAX, 2));
    assert!(!get_is_nice(u128::MAX, 65));
    assert!(!get_is_nice(u128::MAX, u32::MAX));
    assert!(!get_is_nice(12, 1000));
}

#[test]
fn nice_check_agrees_with_brute_force() {
    for base in [2u32, 3, 5, 7, 10, 12, 13, 14, 15, 17, 64, 65, 66, 100] {
        let want = brute_force(0, 2_000, base);
        let got: Vec<u128> = (0..2_000u128).filter(|&n| get_is_nice(n, base)).collect();
        assert_eq!(got, want, "base {base}");
    }
}

#[test]
fn seeded_check_handles_numbers_shorter_than_the_seed() {
    // 69³ ends in 509 and 69² in 761.
    let mask = [1u64, 6, 7, 9, 0, 5].iter().fold(0u64, |m, d| m | (1 << d));
    assert!(get_is_nice_with_known_lsd(69, 10, 3, mask));
    // At depth 1 the known digits are 1 and 9.
    assert!(get_is_nice_with_known_lsd(69, 10, 1, (1 << 1) | (1 << 9)));
    assert!(get_is_nice_with_known_lsd(69, 10, 0, 0));
    assert!(!get_is_nice_with_known_lsd(3, 10, 1, (1 << 9) | (1 << 7)));
    // Bases above 64 have no masks.
    assert!(!get_is_nice_with_known_lsd(69, 100, 3, 0));
}

#[test]
fn residue_filter_of_base_ten() {
    assert_eq!(get_residue_filter(&10), vec![0, 3, 6, 8]);
    assert_eq!(get_residue_filter(&2), vec![0]);
    assert!(get_residue_filter(&10).contains(&(69 % 9)));
}

#[test]
fn lsd_bitmap_of_base_ten() {
    let want = vec![false, false, true, true, true, false, false, true, true, true];
    assert_eq!(get_valid_multi_lsd_bitmap(10, 1), want);
    assert_eq!(get_valid_multi_lsd_bitmap(10, 0), vec![true]);
    let two = get_valid_multi_lsd_bitmap(10, 2);
    assert_eq!(two.len(), 100);
    // 69² ends in 61 and 69³ in 09.
    assert!(two[69]);
    // 13² ends in 69 and 13³ in 97.
    assert!(!two[13]);
}

#[test]
fn stride_table_of_base_ten() {
    let table = StrideTable::new(10, 1);
    assert_eq!(table.valid_residues[..5], [3, 8, 9, 12, 17]);
    assert_eq!(table.gap_table[..4], [5, 1, 3, 5]);
    assert_eq!(table.gap_table[table.gap_table.len() - 1], 90 - table.valid_residues[table.valid_residues.len() - 1] + 3);
    // 3² = 9 and 3³ = 27.
    assert_eq!(table.low_digit_masks[0], (1 << 9) | (1 << 7));
    assert_eq!(table.k, 1);
    for r in 0..90u32 {
        let residue = get_residue_filter(&10).contains(&(r % 9));
        let lsd = get_valid_multi_lsd_bitmap(10, 1)[(r % 10) as usize];
        assert_eq!(table.valid_residues.contains(&r), residue && lsd);
    }
}

#[test]
fn bases_above_64_have_no_masks() {
    let table = StrideTable::new(65, 1);
    assert!(table.low_digit_masks.is_empty());
    assert!(!table.valid_residues.is_empty());
    let range = FieldSize::new(1_000_000, 1_010_000);
    let plain = table.iterate_range(&range, 65);
    assert_eq!(plain, table.iterate_range_masked(&range, 65, u64::MAX));
    assert_eq!(plain, table.iterate_range_masked_unfiltered(&range, 65, u64::MAX));
}

#[test]
fn tables_without_residues() {
    // In base 2 the last digits of square and cube agree.
    let table = StrideTable::new(2, 1);
    assert_eq!(table.modulus, 2);
    assert!(table.valid_residues.is_empty());
    assert!(table.gap_table.is_empty());
}

#[test]
fn first_valid_is_the_smallest() {
    let table = StrideTable::new(10, 2);
    for start in 0..2_000u128 {
        let (n, idx) = table.first_valid_at_or_after(start);
        let mut want = start;
        while !table.valid_residues.contains(&((want % table.modulus) as u32)) {
            want += 1;
        }
        assert_eq!(n, want);
        assert_eq!(u128::from(table.valid_residues[idx]), n % table.modulus);
    }
}

#[test]
fn first_valid_at_the_top_of_the_type() {
    let table = StrideTable::new(10, 1);
    let mut last = u128::MAX;
    while !table.valid_residues.contains(&((last % 90) as u32)) {
        last -= 1;
    }
    assert_eq!(table.first_valid_at_or_after(last).0, last);
    // The walk ends on that last candidate.
    let range = FieldSize::new(last - 500, last);
    assert!(table.iterate_range(&range, 10).is_empty());
}

#[test]
fn high_mask_drops_what_it_meets() {
    let table = StrideTable::new(10, 1);
    let range = FieldSize::new(60, 80);
    // 69² = 4761 and 69³ = 328509: 4 and 3 lead, 1 and 9 come last.
    let certified = (1u64 << 4) | (1 << 3);
    assert_eq!(table.iterate_range_masked(&range, 10, certified).len(), 1);
    assert_eq!(table.iterate_range_masked_unfiltered(&range, 10, certified).len(), 1);
    assert!(table.iterate_range_masked(&range, 10, 1 << 9).is_empty());
    assert!(table.iterate_range_masked_unfiltered(&range, 10, 1 << 1).is_empty());
}

#[test]
fn search_is_the_same_through_every_implementation() {
    let table = StrideTable::new(10, 1);
    let deep = StrideTable::new(40, 3);
    let mut bufs = SurvivorBufs::new();
    for imp in [Phase1Impl::Scalar, Phase1Impl::Avx2, Phase1Impl::Avx512] {
        let small = FieldSize::new(0, 1_000);
        assert_eq!(
            table.iterate_range_masked_with(&small, 10, 0, imp, &mut bufs),
            table.iterate_range(&small, 10)
        );
        let window = FieldSize::new(5_007_828_088_304, 5_007_828_288_304);
        assert_eq!(
            deep.iterate_range_masked_with(&window, 40, 0, imp, &mut bufs),
            deep.iterate_range(&window, 40)
        );
    }
}

#[test]
fn empty_ranges_hold_nothing() {
    let table = StrideTable::new(10, 1);
    let range = FieldSize::new(69, 69);
    assert_eq!(range.size(), 0);
    assert!(table.iterate_range(&range, 10).is_empty());
    let deep = StrideTable::new(40, 3);
    assert!(deep.iterate_range(&range, 40).is_empty());
    assert_eq!(deep.two_phase_survivor_count(&range, 40, 0), 0);
}

#[test]
fn survivor_count_of_a_small_table() {
    let table = StrideTable::new(10, 1);
    let range = FieldSize::new(0, 90);
    assert_eq!(table.two_phase_survivor_count(&range, 10, 0), table.valid_residues.len());
    let ends_in_nine = table
        .low_digit_masks
        .iter()
        .filter(|&&m| m & (1 << 9) != 0)
        .count();
    assert_eq!(
        table.two_phase_survivor_count(&range, 10, 1 << 9),
        table.valid_residues.len() - ends_in_nine
    );
}

#[test]
fn implementation_is_capped_by_name() {
    assert_eq!(select_phase1_impl("0", true, true), Phase1Impl::Scalar);
    assert_eq!(select_phase1_impl("avx2", true, true), Phase1Impl::Avx2);
    assert_eq!(select_phase1_impl("avx2", true, false), Phase1Impl::Scalar);
    assert_eq!(select_phase1_impl("", true, true), Phase1Impl::Avx512);
    assert_eq!(select_phase1_impl("avx512", true, false), Phase1Impl::Avx512);
    assert_eq!(select_phase1_impl("00", false, true), Phase1Impl::Avx2);
    assert_eq!(select_phase1_impl("", false, false), Phase1Impl::Scalar);
}

#[test]
fn wide_arithmetic() {
    let n = u128::MAX;
    let mut w = Wide::from_u128(n).mul_u128(n).mul_u128(n);
    // (2^128 - 1)³ leaves 0 by 3, 5 and 17 and is divisible by 2^128 - 1.
    assert!(!w.is_zero());
    assert_eq!(w.div_assign_rem_u32(15), 0);
    let mut digits = 0u32;
    while !w.is_zero() {
        let _ = w.div_assign_rem_u32(2);
        digits += 1;
    }
    assert_eq!(digits, 381);
    assert!(Wide::from_u128(0).is_zero());
    assert!(Wide::from_u128(7).mul_u128(0).is_zero());
    let mut x = Wide::from_u128(1_000_000_007).mul_u128(1_000_000_009);
    assert_eq!(x.div_assign_rem_u32(1_000), 63);
    assert_eq!(x.div_assign_rem_u32(1_000_000_000), 16_000_000);
    assert_eq!(x.div_assign_rem_u32(u32::MAX), 1_000_000);
    assert!(x.is_zero());
}

#[test]
fn small_helpers() {
    assert_eq!(checked_pow(10, 9), Some(1_000_000_000));
    assert_eq!(checked_pow(10, 10), None);
    assert_eq!(checked_pow(2, 31), Some(1 << 31));
    assert_eq!(checked_pow(2, 32), None);
    assert_eq!(checked_pow(7, 0), Some(1));
    assert_eq!(count_digits(0), 0);
    assert_eq!(count_digits(u64::MAX), 64);
    assert_eq!(count_digits(0b1011), 3);
}

#[test]
fn squares_take_two_fifths_of_the_digits() {
    for base in 4..=40u32 {
        for n in 1..3_000u128 {
            let (mut sq, mut cu) = (0u32, 0u32);
            let mut x = n * n;
            while x > 0 {
                x /= u128::from(base);
                sq += 1;
            }
            let mut x = n * n * n;
            while x > 0 {
                x /= u128::from(base);
                cu += 1;
            }
            if sq + cu == base {
                assert!(sq >= 2 * (base / 5), "base {base} n={n}");
            }
        }
    }
}

#[test]
fn moduli_fit_and_stay_below_the_square() {
    for base in 2..=256u32 {
        for k in 1..=3u32 {
            let p = checked_pow(base, k).unwrap();
            let modulus = (base - 1).checked_mul(p).unwrap();
            assert!(u64::from(modulus) < u64::from(p) * u64::from(p));
        }
    }
    let table = StrideTable::new(12, 2);
    assert_eq!(table.modulus, 11 * 144);
    assert!(table.gap_table.iter().all(|&g| u128::from(g) <= table.modulus));
}

#[test]
fn a_call_of_phase_one_walks_at_most_one_block() {
    // Seven gaps are no multiple of the lanes: 1024 = 146 * 7 + 2.
    let gaps = [1u32, 2, 3, 4, 5, 6, 7];
    let masks = [1u64, 2, 4, 8, 16, 32, 64];
    let start = Cursor { idx: 0, off: 0, nmod: 0 };
    let mut bufs = SurvivorBufs::new();
    for imp in [Phase1Impl::Scalar, Phase1Impl::Avx2, Phase1Impl::Avx512] {
        let (cnt, next) = phase1(imp, &gaps, &masks, start, 1 << 40, 1000, 0, &mut bufs);
        assert_eq!(cnt, BLOCK);
        assert_eq!(next, Cursor { idx: 2, off: 146 * 28 + 3, nmod: 91 });
        assert_eq!(bufs.offs[1023], 146 * 28 + 1);
        assert_eq!(bufs.nmods[1023], 89);
        assert_eq!(bufs.lows[1023], 2);
        // The next block starts where this one stopped.
        let (cnt, next) = phase1(imp, &gaps, &masks, next, 1 << 40, 1000, 1, &mut bufs);
        assert_eq!(cnt, 1024 - 146);
        assert_eq!(next.idx, 4);
        assert_eq!(bufs.offs[0], 146 * 28 + 3);
    }
    let (cnt, next) = phase1_avx2(&gaps, &masks, start, 1 << 40, 1000, 0, &mut bufs);
    assert_eq!((cnt, next.idx), (1024, 2));
    let (cnt, next) = phase1_avx512(&gaps, &masks, start, 1 << 40, 1000, 0, &mut bufs);
    assert_eq!((cnt, next.idx), (1024, 2));
}

#[test]
fn calls_of_any_size_hand_on_the_same() {
    let table = StrideTable::new(10, 2);
    let (lo, hi) = (12_345u128, 20_000u128);
    for high_mask in [0u64, 1 << 4, (1 << 1) | (1 << 7)] {
        let mut want = Vec::new();
        for n in lo..hi {
            let r = (n % table.modulus) as u32;
            if let Ok(i) = table.valid_residues.binary_search(&r) {
                let low = table.low_digit_masks[i];
                if low & high_mask == 0 {
                    want.push(((n - lo) as u64, (n % 10_000) as u64, low));
                }
            }
        }
        assert!(!want.is_empty());
        let (n0, idx) = table.first_valid_at_or_after(lo);
        let start = Cursor { idx, off: (n0 - lo) as u64, nmod: (n0 % 10_000) as u64 };
        let end_off = (hi - lo) as u64;
        let mut bufs = SurvivorBufs::new();
        for max in [1usize, 2, 3, 7, 64, 1000, 1024] {
            let mut got = Vec::new();
            let mut cur = start;
            while cur.off < end_off {
                let (cnt, next) = phase1_scalar(
                    &table.gap_table,
                    &table.low_digit_masks,
                    cur,
                    end_off,
                    10_000,
                    high_mask,
                    &mut bufs,
                    0,
                    max,
                );
                assert!(cnt <= max);
                for i in 0..cnt {
                    got.push((bufs.offs[i], bufs.nmods[i], bufs.lows[i]));
                }
                cur = next;
            }
            assert_eq!(got, want, "blocks of {max}");
        }
    }
}

#[test]
fn searches_are_refused_where_the_walk_leaves_the_type() {
    let table = StrideTable::new(10, 1);
    assert!(table.can_search(&FieldSize::new(0, 1_000), 10, true));
    let mut last = u128::MAX;
    while !table.valid_residues.contains(&((last % 90) as u32)) {
        last -= 1;
    }
    assert!(last < u128::MAX);
    assert!(table.has_valid_at_or_after(last));
    assert!(!table.has_valid_at_or_after(last + 1));
    assert!(table.can_search(&FieldSize::new(last - 500, last), 10, true));
    assert!(!table.can_search(&FieldSize::new(last - 500, last + 1), 10, true));
    // The two-phase walk only has to reach its first candidate.
    let deep = StrideTable::new(40, 3);
    let mut last = u128::MAX;
    while !deep.valid_residues.contains(&((last % deep.modulus) as u32)) {
        last -= 1;
    }
    assert!(last < u128::MAX);
    let range = FieldSize::new(last, u128::MAX);
    assert!(deep.can_search(&range, 40, true));
    assert!(!deep.can_search(&range, 40, false));
    assert!(deep.iterate_range(&range, 40).is_empty());
    // No residues, no search.
    let empty = StrideTable::new(2, 1);
    assert!(!empty.can_search(&FieldSize::new(0, 10), 2, true));
    assert!(!empty.has_valid_at_or_after(0));
}

#[test]
fn a_certified_mask_changes_nothing() {
    let table = StrideTable::new(10, 1);
    let range = FieldSize::new(69, 70);
    let plain = table.iterate_range(&range, 10);
    assert_eq!(plain.len(), 1);
    // 69² = 4761 and 69³ = 328509: all digits but 1 and 9 stand above the
    // last position.
    let high_mask = [0u64, 2, 3, 4, 5, 6, 7, 8].iter().fold(0u64, |m, d| m | (1 << d));
    assert_eq!(table.iterate_range_masked(&range, 10, high_mask), plain);
    assert_eq!(table.iterate_range_masked_unfiltered(&range, 10, high_mask), plain);
    assert_eq!(table.iterate_range_impl(&range, 10, high_mask, false), plain);
}

#[test]
fn leaves_list_the_same_in_a_row() {
    let table = StrideTable::new(40, 3);
    let start = 5_007_828_088_304u128;
    let mut bufs = SurvivorBufs::new();
    let (mut with, mut without) = (Vec::new(), Vec::new());
    for i in 0..8u128 {
        let leaf = FieldSize::new(start + i * 50_000, start + (i + 1) * 50_000);
        let two_phase = table.iterate_range_two_phase(&leaf, 40, 0, Phase1Impl::Avx512, &mut bufs);
        assert_eq!(two_phase, table.iterate_range_impl(&leaf, 40, 0, true));
        assert_eq!(two_phase, table.iterate_range_impl(&leaf, 40, 0, false));
        with.extend(table.iterate_range_masked(&leaf, 40, 0));
        without.extend(table.iterate_range_masked_unfiltered(&leaf, 40, 0));
    }
    assert_eq!(with, without);
}

#[test]
fn offsets_may_run_to_the_top_of_the_word() {
    let gaps = [5u32, 7, 3];
    let masks = [1u64, 2, 1];
    let mut bufs = SurvivorBufs::new();
    // Two steps end on the last offset of the type.
    let start = Cursor { idx: 0, off: u64::MAX - 12, nmod: 0 };
    let (cnt, next) =
        phase1_scalar(&gaps, &masks, start, u64::MAX, 20, 2, &mut bufs, 0, 1024);
    assert_eq!(cnt, 1);
    assert_eq!(next, Cursor { idx: 2, off: u64::MAX, nmod: 12 });
    assert_eq!((bufs.offs[0], bufs.nmods[0], bufs.lows[0]), (u64::MAX - 12, 0, 1));
    // A single step needs room for its own gap only.
    let (cnt, next) = phase1_scalar(&gaps, &masks, start, u64::MAX, 20, 0, &mut bufs, 1, 1);
    assert_eq!(cnt, 2);
    assert_eq!(next, Cursor { idx: 1, off: u64::MAX - 7, nmod: 5 });
    // Groups leave room for all their lanes.
    let gaps = [3u32; 16];
    let masks = [1u64; 16];
    let start = Cursor { idx: 0, off: LANE_LIMIT - 7, nmod: LANE_LIMIT - 1 };
    for imp in [Phase1Impl::Scalar, Phase1Impl::Avx2, Phase1Impl::Avx512] {
        let (cnt, next) =
            phase1(imp, &gaps, &masks, start, LANE_LIMIT, LANE_LIMIT, 0, &mut bufs);
        assert_eq!(cnt, 3);
        assert!(next.off >= LANE_LIMIT);
        assert_eq!(bufs.offs[..3], [LANE_LIMIT - 7, LANE_LIMIT - 4, LANE_LIMIT - 1]);
        assert_eq!(bufs.nmods[..3], [LANE_LIMIT - 1, 2, 5]);
    }
}
