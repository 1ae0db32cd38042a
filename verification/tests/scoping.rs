//! Scoping figures for a morris solve: exact movement-slice sizes, and counts
//! written out with thousands separators.

use game_solver::decimal::with_thousands;
use game_solver::index::Binom;

#[test]
fn nine_mens_movement_slices() {
    let b = Binom::new();
    let (slices, all, work) = game_solver::slices::movement_slices(&b, 24, 9);
    assert_eq!(slices.len(), 100);
    assert_eq!(all, 143_122_694_691);
    assert_eq!(work, 142_430_121_724);
    assert_eq!(slices[0], (8, 8, 9_465_511_770));
    // Equal sizes keep white-count-first order.
    assert_eq!(&slices[1..4], &[(7, 8, 8_413_788_240), (7, 9, 8_413_788_240), (8, 7, 8_413_788_240)]);
    for w in slices.windows(2) {
        assert!(w[0].2 >= w[1].2);
    }
    let total: u128 = slices.iter().map(|s| s.2).sum();
    assert_eq!(total, all);
}

#[test]
fn six_mens_movement_slices() {
    let b = Binom::new();
    let (slices, all, work) = game_solver::slices::movement_slices(&b, 16, 6);
    assert_eq!(slices.len(), 49);
    assert_eq!(all, 21_094_789);
    assert_eq!(work, 19_207_188);
    assert_eq!(&slices[..3], &[(5, 5, 2_018_016), (5, 6, 2_018_016), (6, 5, 2_018_016)]);
}

#[test]
fn thousands_separators() {
    assert_eq!(with_thousands(0), b"0".to_vec());
    assert_eq!(with_thousands(999), b"999".to_vec());
    assert_eq!(with_thousands(1000), b"1,000".to_vec());
    assert_eq!(with_thousands(1_234_567), b"1,234,567".to_vec());
    assert_eq!(with_thousands(143_122_694_691), b"143,122,694,691".to_vec());
    assert_eq!(with_thousands(100_000), b"100,000".to_vec());
    assert_eq!(with_thousands(u128::MAX), u128::MAX.to_string().as_bytes().rchunks(3).rev().map(|c| c.to_vec()).collect::<Vec<_>>().join(&b','));
}
