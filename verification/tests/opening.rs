//! Opening helpers: the points of the boards and White's first placements.

use game_solver::games::generic_morris::GenericMorris;
use game_solver::games::opening::{all_inner, all_outer, opening_representatives, ring_point, RingPoint};
use game_solver::games::three_mens_morris::{point_kind, PointKind, ThreeMensMorris, BLACK, WHITE};
use game_solver::Game;

#[test]
fn three_mens_points_are_corners_edges_and_the_centre() {
    let kinds: Vec<PointKind> = (0..9).map(point_kind).collect();
    let (c, e, m) = (PointKind::Corner, PointKind::Edge, PointKind::Centre);
    assert_eq!(kinds, vec![c, e, c, e, m, e, c, e, c]);
}

#[test]
fn three_mens_opening_places_a_white_man() {
    let g = ThreeMensMorris;
    for i in 0..9 {
        let p = g.opening(i);
        let start = g.start();
        assert_eq!(p.cells[i], WHITE);
        for c in 0..9 {
            if c != i {
                assert_eq!(p.cells[c], start.cells[c]);
            }
        }
        assert_eq!(p.w_hand, start.w_hand - 1);
        assert_eq!(p.b_hand, start.b_hand);
        assert_eq!(p.turn, BLACK);
        assert!(g.successors(&start).contains(&p));
    }
}

#[test]
fn ring_points_split_by_ring_and_parity() {
    assert_eq!(ring_point(0), RingPoint::OuterCorner);
    assert_eq!(ring_point(7), RingPoint::OuterMid);
    assert_eq!(ring_point(8), RingPoint::InnerCorner);
    assert_eq!(ring_point(13), RingPoint::InnerMid);
}

#[test]
fn one_opening_per_kind_of_point() {
    let g = GenericMorris::six_mens();
    let reps = opening_representatives(&g);
    let kinds: Vec<RingPoint> = reps.iter().map(|s| ring_point(s.white.trailing_zeros())).collect();
    assert_eq!(
        kinds,
        vec![RingPoint::OuterCorner, RingPoint::OuterMid, RingPoint::InnerCorner, RingPoint::InnerMid]
    );
    let points: Vec<u32> = reps.iter().map(|s| s.white.trailing_zeros()).collect();
    assert_eq!(points, vec![0, 1, 8, 9]);
}

#[test]
fn ring_membership_of_point_lists() {
    assert!(all_inner(&vec![8, 15, 9]));
    assert!(!all_inner(&vec![8, 7]));
    assert!(all_outer(&vec![0, 7]));
    assert!(!all_outer(&vec![0, 8]));
    assert!(all_inner(&vec![]) && all_outer(&vec![]));
}
