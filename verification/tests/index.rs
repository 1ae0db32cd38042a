//! The combinatorial number system: binomials and the two rank/unrank bijections.

use game_solver::index::{
    mask_to_points, rank_black_in_empties, rank_subset, unrank_black_in_empties, unrank_subset,
    Binom,
};

#[test]
fn binomials() {
    let b = Binom::new();
    assert_eq!(b.c(0, 0), 1);
    assert_eq!(b.c(5, 2), 10);
    assert_eq!(b.c(16, 6), 8008);
    assert_eq!(b.c(24, 9), 1_307_504);
    assert_eq!(b.c(3, 5), 0); // k > n
}

/// rank/unrank must be a bijection on `[0, C(n, k))` for every subset.
#[test]
fn subset_bijection_exhaustive() {
    let b = Binom::new();
    for n in 0..=18usize {
        for k in 0..=n.min(9) {
            let total = b.c(n, k);
            // Walk all k-subsets in ascending-rank order and check round-trip.
            for r in 0..total {
                let pts = unrank_subset(&b, r, n, k);
                assert_eq!(pts.len(), k, "n={n} k={k} r={r}");
                // strictly ascending and in range
                for w in pts.windows(2) {
                    assert!(w[0] < w[1], "not ascending: n={n} k={k} r={r} {pts:?}");
                }
                if let Some(&last) = pts.last() {
                    assert!((last as usize) < n, "out of range: n={n} k={k} r={r}");
                }
                assert_eq!(rank_subset(&b, &pts), r, "rank!=unrank inverse n={n} k={k}");
            }
        }
    }
}

/// The black-in-empties ranking must be a bijection for each white placement.
#[test]
fn black_in_empties_bijection() {
    let b = Binom::new();
    let n = 9usize;
    // a couple of white placements
    for white in [0b000000000u32, 0b000010101, 0b111000000] {
        let nw = white.count_ones() as usize;
        let empties = n - nw;
        for nb in 0..=empties {
            let total = b.c(empties, nb);
            for r in 0..total {
                let black = unrank_black_in_empties(&b, white, r, n, nb);
                assert_eq!(black & white, 0, "black overlaps white");
                assert_eq!(black.count_ones() as usize, nb);
                assert_eq!(rank_black_in_empties(&b, white, black), r);
            }
        }
    }
}

#[test]
fn binomials_follow_pascal_and_stop_at_the_table_edge() {
    let b = Binom::default();
    for n in 1..33usize {
        for k in 1..=n {
            assert_eq!(b.c(n, k), b.c(n - 1, k - 1) + b.c(n - 1, k));
        }
    }
    assert_eq!(b.c(32, 16), 601_080_390);
    assert_eq!(b.c(33, 1), 0);
}

#[test]
fn rank_of_known_subsets() {
    let b = Binom::new();
    // {0, 1, 2} is the first 3-subset; {1, 3} is C(1,1) + C(3,2) = 4.
    assert_eq!(rank_subset(&b, &[0, 1, 2]), 0);
    assert_eq!(rank_subset(&b, &[1, 3]), 4);
    assert_eq!(unrank_subset(&b, 4, 5, 2), vec![1, 3]);
    assert_eq!(rank_subset(&b, &[]), 0);
}

#[test]
fn mask_to_points_lists_set_bits_in_order() {
    assert_eq!(mask_to_points(0), Vec::<u8>::new());
    assert_eq!(mask_to_points(0b1010_0001), vec![0, 5, 7]);
    assert_eq!(mask_to_points(1 << 31), vec![31]);
}

#[test]
fn black_ranks_in_compressed_coordinates() {
    let b = Binom::new();
    // White on 0 and 2: the empties are 1, 3, 4, ... so black on {1, 3} is
    // compressed {0, 1}, the first pair.
    assert_eq!(rank_black_in_empties(&b, 0b101, 0b1010), 0);
    assert_eq!(unrank_black_in_empties(&b, 0b101, 0, 6, 2), 0b1010);
}
