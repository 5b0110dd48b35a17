use nice_common::client_process::{get_is_nice, get_is_nice_with_known_lsd};
use nice_common::phase1::{
    phase1, phase1_avx2, phase1_avx512, phase1_scalar, Cursor, Phase1Impl, SurvivorBufs,
};
use nice_common::stride_filter::StrideTable;
use nice_common::wide::Wide;
use nice_common::FieldSize;

/// The digits of a wide number, least significant first.
fn wide_digits(mut w: Wide, base: u32) -> Vec<u32> {
    let mut out = Vec::new();
    while !w.is_zero() {
        out.push(w.div_assign_rem_u32(base));
    }
    out
}

fn power_digits(n: u128, base: u32) -> (Vec<u32>, Vec<u32>) {
    let sq = Wide::from_u128(n).mul_u128(n);
    let cu = sq.mul_u128(n);
    (wide_digits(sq, base), wide_digits(cu, base))
}

/// The numbers whose square and cube have `base` digits together.
fn base_range(base: u32) -> FieldSize {
    let total = |n: u128| {
        let (sq, cu) = power_digits(n, base);
        (sq.len() + cu.len()) as u32
    };
    let first_with = |least: u32| {
        let (mut lo, mut hi) = (0u128, 1u128 << 100);
        while lo < hi {
            let mid = (lo + hi) / 2;
            if total(mid) >= least {
                hi = mid;
            } else {
                lo = mid + 1;
            }
        }
        lo
    };
    FieldSize::new(first_with(base), first_with(base + 1))
}

/// The digits, from position 6 on, that both ends of a range and so all
/// numbers in it share at the top of one power.
fn shared_top(first: &[u32], last: &[u32]) -> Vec<u32> {
    let mut out = Vec::new();
    if first.len() == last.len() {
        for i in (6..first.len()).rev() {
            if first[i] != last[i] {
                return out;
            }
            out.push(first[i]);
        }
    }
    out
}

/// Cut a range into leaves, drop those whose shared top digits repeat, and
/// give the others the mask of those digits.
fn masked_leaves(range: FieldSize, base: u32, leaves: &mut Vec<(FieldSize, u64)>) {
    let (sq0, cu0) = power_digits(range.start(), base);
    let (sq1, cu1) = power_digits(range.end() - 1, base);
    let mut tops = shared_top(&sq0, &sq1);
    tops.extend(shared_top(&cu0, &cu1));
    let mut mask = 0u64;
    for d in tops {
        if mask & (1u64 << d) != 0 {
            return;
        }
        mask |= 1u64 << d;
    }
    if range.size() <= 50_000 {
        leaves.push((range, mask));
    } else {
        let mid = range.start() + range.size() / 2;
        masked_leaves(FieldSize::new(range.start(), mid), base, leaves);
        masked_leaves(FieldSize::new(mid, range.end()), base, leaves);
    }
}

fn valid_ranges_masked(range: FieldSize, base: u32) -> Vec<(FieldSize, u64)> {
    let mut leaves = Vec::new();
    masked_leaves(range, base, &mut leaves);
    leaves
}

#[test]
fn test_stride_table_base10_k1() {
    let table = StrideTable::new(10, 1);

    // Base 10: (b-1) = 9, b^1 = 10, M = 90
    assert_eq!(table.modulus, 90);

    // Should have valid residues combining both filters
    assert!(!table.valid_residues.is_empty());
    assert_eq!(table.valid_residues.len(), table.gap_table.len());

    // Verify gap table covers full cycle
    let total_gap: u128 = table.gap_table.iter().map(|&g| u128::from(g)).sum();
    assert_eq!(total_gap, table.modulus);
}

#[test]
fn test_stride_table_base40_k2() {
    let table = StrideTable::new(40, 2);

    // Base 40: (b-1) = 39, b^2 = 1600, M = 62400
    assert_eq!(table.modulus, 62_400);

    // Should filter significantly
    assert!(table.valid_residues.len() < (table.modulus as usize));

    // Verify properties
    assert_eq!(table.valid_residues.len(), table.gap_table.len());
    let total_gap: u128 = table.gap_table.iter().map(|&g| u128::from(g)).sum();
    assert_eq!(total_gap, table.modulus);
}

#[test]
fn test_first_valid_at_or_after() {
    let table = StrideTable::new(10, 1);

    // Start at 0 should find first valid
    let (n, idx) = table.first_valid_at_or_after(0);
    assert_eq!(n, u128::from(table.valid_residues[idx]));

    // Start at a valid residue should return it
    let first_valid = u128::from(table.valid_residues[0]);
    let (n, idx) = table.first_valid_at_or_after(first_valid);
    assert_eq!(n, first_valid);
    assert_eq!(idx, 0);

    // Start beyond modulus should wrap correctly
    let (n, idx) = table.first_valid_at_or_after(table.modulus + 5);
    assert!(n >= table.modulus + 5);
    assert_eq!(n % table.modulus, u128::from(table.valid_residues[idx]));
}

#[test]
fn test_stride_iteration_finds_known_nice() {
    // Base 10: 69 is a known nice number
    let table = StrideTable::new(10, 1);

    let range = FieldSize::new(60, 80);
    let results = table.iterate_range(&range, 10);

    // Should find 69
    assert!(results.iter().any(|r| r.number == 69));
}

#[test]
fn test_k3_candidates_subset_of_k2() {
    // Deeper LSD filtering must only remove candidates, never add them:
    // all 3+3 fixed low digits distinct implies the low 2+2 subset is
    // distinct, so every k=3 candidate must also be a k=2 candidate.
    for base in [10u32, 40] {
        let t2 = StrideTable::new(base, 2);
        let t3 = StrideTable::new(base, 3);
        let start = 1_000_000u128;
        let range = FieldSize::new(start, start + 200_000);

        let collect = |t: &StrideTable| {
            let mut out = Vec::new();
            let (mut n, mut idx) = t.first_valid_at_or_after(range.start());
            while n < range.end() {
                out.push(n);
                n += u128::from(t.gap_table[idx]);
                idx = (idx + 1) % t.gap_table.len();
            }
            out
        };
        let c2 = collect(&t2);
        let c3 = collect(&t3);
        assert!(c3.len() < c2.len(), "base {base}: k=3 should filter more");
        let c2set: std::collections::HashSet<u128> = c2.into_iter().collect();
        for n in c3 {
            assert!(c2set.contains(&n), "base {base}: {n} in k=3 but not k=2");
        }
    }
}

#[test]
fn test_k3_finds_known_nice() {
    // 69 must survive the k=3 table in base 10
    let table = StrideTable::new(10, 3);
    let range = FieldSize::new(60, 80);
    let results = table.iterate_range(&range, 10);
    assert!(results.iter().any(|r| r.number == 69));
}

/// Phase 1 must hand phase 2 exactly the cross-end survivors a plain walk
/// finds, in count and content, through every implementation, on windows of
/// every specialized base, including the residue table's wrap.
#[test]
fn two_phase_walk_matches_plain_walk() {
    for base in [40u32, 42, 45, 50, 52, 53, 57, 60, 62, 64] {
        let table = StrideTable::new(base, 3);
        let range = base_range(base);
        // The top digits reject some windows outright; take the first of a
        // few evenly spaced ones that leaves work for the walk.
        let leaves = (1..200)
            .map(|step| {
                let start = range.start() + range.size() / 200 * step;
                valid_ranges_masked(FieldSize::new(start, start + 3_000_000), base)
            })
            .find(|leaves| !leaves.is_empty())
            .unwrap_or_else(|| panic!("b{base}: every probed window fully rejected"));
        let bk = u64::from(base).pow(3);
        let b2k = bk * bk;
        let mut checked = 0usize;
        for (leaf, hi) in leaves {
            // Plain survivor list.
            let mut want: Vec<(u64, u64, u64)> = Vec::new();
            let (mut n, mut idx) = table.first_valid_at_or_after(leaf.start());
            while n < leaf.end() {
                let low = table.low_digit_masks[idx];
                if low & hi == 0 {
                    want.push(((n - leaf.start()) as u64, (n % u128::from(b2k)) as u64, low));
                }
                n += u128::from(table.gap_table[idx]);
                idx = (idx + 1) % table.gap_table.len();
            }
            // Block-wise phase 1 through every implementation, called
            // directly and through the dispatch.
            let (n0, idx0) = table.first_valid_at_or_after(leaf.start());
            let end_off = (leaf.end() - leaf.start()) as u64;
            let start_cursor = Cursor {
                idx: idx0,
                off: (n0 - leaf.start()) as u64,
                nmod: (n0 % u128::from(b2k)) as u64,
            };
            let mut bufs = SurvivorBufs::new();
            for name in ["scalar", "dispatch avx2", "dispatch avx512", "avx2", "avx512"] {
                let mut cur = start_cursor;
                let mut got: Vec<(u64, u64, u64)> = Vec::new();
                while cur.off < end_off {
                    let (g, m) = (&table.gap_table, &table.low_digit_masks);
                    let (cnt, next) = match name {
                        "scalar" => {
                            phase1(Phase1Impl::Scalar, g, m, cur, end_off, b2k, hi, &mut bufs)
                        }
                        "dispatch avx2" => {
                            phase1(Phase1Impl::Avx2, g, m, cur, end_off, b2k, hi, &mut bufs)
                        }
                        "dispatch avx512" => {
                            phase1(Phase1Impl::Avx512, g, m, cur, end_off, b2k, hi, &mut bufs)
                        }
                        "avx2" => phase1_avx2(g, m, cur, end_off, b2k, hi, &mut bufs),
                        _ => phase1_avx512(g, m, cur, end_off, b2k, hi, &mut bufs),
                    };
                    for i in 0..cnt {
                        got.push((bufs.offs[i], bufs.nmods[i], bufs.lows[i]));
                    }
                    cur = next;
                }
                assert_eq!(got, want, "b{base} leaf {leaf:?} ({name})");
            }
            let mut cur = start_cursor;
            // And the scalar implementation on its own, in small blocks so
            // block boundaries and the wrap are both exercised.
            let mut got_scalar: Vec<(u64, u64, u64)> = Vec::new();
            while cur.off < end_off {
                let (cnt, next) = phase1_scalar(
                    &table.gap_table,
                    &table.low_digit_masks,
                    cur,
                    end_off,
                    b2k,
                    hi,
                    &mut bufs,
                    0,
                    13,
                );
                for i in 0..cnt {
                    got_scalar.push((bufs.offs[i], bufs.nmods[i], bufs.lows[i]));
                }
                cur = next;
            }
            assert_eq!(got_scalar, want, "b{base} leaf {leaf:?} (scalar)");
            assert_eq!(table.two_phase_survivor_count(&leaf, base, hi), want.len());
            checked += want.len();
        }
        assert!(checked > 100, "b{base}: too few survivors exercised");
    }
}

#[test]
fn test_seeded_nice_check_matches_plain() {
    // The seeded fast path must agree with the plain check for every
    // stride candidate. Walk real candidates inside each base's search
    // range and compare both paths.
    for base in [40u32, 50, 52, 60, 64] {
        let table = StrideTable::new(base, 3);
        assert!(!table.low_digit_masks.is_empty());
        let range = base_range(base);
        let start = range.start() + (range.end() - range.start()) / 3;
        let (mut n, mut idx) = table.first_valid_at_or_after(start);
        for _ in 0..5_000 {
            let plain = get_is_nice(n, base);
            let seeded =
                get_is_nice_with_known_lsd(n, base, table.k, table.low_digit_masks[idx]);
            assert_eq!(plain, seeded, "base {base}: mismatch at n={n}");
            n += u128::from(table.gap_table[idx]);
            idx = (idx + 1) % table.gap_table.len();
        }
    }
}

#[test]
fn test_low_digit_masks_have_2k_bits() {
    // Every mask covers exactly 2k distinct digits (k from the square
    // suffix, k from the cube suffix, all pairwise distinct).
    for (base, k) in [(10u32, 2u32), (40, 3), (50, 3)] {
        let table = StrideTable::new(base, k);
        for (&r, &mask) in table.valid_residues.iter().zip(&table.low_digit_masks) {
            assert_eq!(
                mask.count_ones(),
                2 * k,
                "base {base} k={k} residue {r}: expected {} distinct digits",
                2 * k
            );
        }
    }
}

#[test]
fn test_k3_large_base_construction() {
    // Largest production-adjacent table: base 60, k=3.
    // M = 59 * 60^3 = 12,744,000 and all residues/gaps must fit u32.
    let table = StrideTable::new(60, 3);
    assert_eq!(table.modulus, 12_744_000);
    assert!(!table.valid_residues.is_empty());
    let total_gap: u128 = table.gap_table.iter().map(|&g| u128::from(g)).sum();
    assert_eq!(total_gap, table.modulus);
}

#[test]
fn test_gap_table_properties() {
    let table = StrideTable::new(10, 2);

    // All gaps should be positive
    for gap in &table.gap_table {
        assert!(*gap > 0, "Gap should be positive");
    }

    // Sum of gaps should equal modulus (complete cycle)
    let total: u128 = table.gap_table.iter().map(|&g| u128::from(g)).sum();
    assert_eq!(total, table.modulus);

    // Valid residues should be sorted
    for i in 1..table.valid_residues.len() {
        assert!(
            table.valid_residues[i] > table.valid_residues[i - 1],
            "Valid residues should be sorted"
        );
    }
}
