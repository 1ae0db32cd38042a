//! Six men's morris: mills, captures and the end of the game.

use game_solver::games::morris::{completes_mill, SixMensMorris, State, WHITE};
use game_solver::reachable::RulesGame;
use game_solver::Outcome;

fn mask(points: &[usize]) -> u16 {
    points.iter().fold(0u16, |m, &p| m | (1 << p))
}

#[test]
fn mill_detection() {
    let m = mask(&[0, 1, 2]); // top side of the outer square
    assert!(completes_mill(m, 1));
    assert!(!completes_mill(mask(&[0, 1]), 1));
}

#[test]
fn placing_into_a_mill_captures() {
    // White at 0,1 with a man in hand; Black at 8,9,10 (a mill) and 11.
    let s = State {
        white: mask(&[0, 1]),
        black: mask(&[8, 9, 10, 11]),
        w_hand: 1,
        b_hand: 0,
        turn: WHITE,
    };
    let succ = SixMensMorris.successors(&s);
    // White can place on any of the empty points; placing at 2 completes the
    // 0-1-2 mill and must capture a Black man. Black's only non-mill man is 11
    // (8,9,10 are a mill), so exactly one capture target.
    let captures: Vec<_> = succ
        .iter()
        .filter(|n| n.black.count_ones() == 3) // a Black man was removed
        .collect();
    assert!(!captures.is_empty(), "placing into the mill should capture");
    for c in &captures {
        // the removed man must be 11 (the only one not in a mill)
        assert_eq!(c.black, mask(&[8, 9, 10]), "must capture the non-mill man");
    }
}

#[test]
fn reduced_below_three_is_a_loss() {
    // Movement phase, White (to move) has only two men: a loss.
    let s = State {
        white: mask(&[0, 1]),
        black: mask(&[8, 9, 10]),
        w_hand: 0,
        b_hand: 0,
        turn: WHITE,
    };
    assert_eq!(SixMensMorris.terminal(&s), Some(Outcome::Loss));
}

#[test]
fn start_is_not_terminal_and_has_moves() {
    let g = SixMensMorris;
    let s = g.start();
    assert_eq!(g.terminal(&s), None);
    assert_eq!(g.successors(&s).len(), 16); // first placement: any of 16 points
}

#[test]
fn all_opponent_men_in_mills_any_removable() {
    // Black's only men form a mill (8,9,10). White completes 0-1-2 by placing
    // at 2 — since every Black man is in a mill, any may be captured.
    let s = State {
        white: mask(&[0, 1]),
        black: mask(&[8, 9, 10]),
        w_hand: 1,
        b_hand: 0,
        turn: WHITE,
    };
    let captures: Vec<u16> = SixMensMorris
        .successors(&s)
        .into_iter()
        .filter(|n| n.white == mask(&[0, 1, 2]) && n.black.count_ones() == 2)
        .map(|n| n.black)
        .collect();
    // Three distinct capture results (remove 8, 9, or 10).
    assert_eq!(captures.len(), 3);
}

#[test]
fn capturing_by_sliding_into_a_mill() {
    // Movement phase. White {1,2,7}; sliding 7->0 completes the 0-1-2 mill.
    // Black {8,9,10,11}: 8,9,10 are a mill, so only 11 is capturable.
    let s = State {
        white: mask(&[1, 2, 7]),
        black: mask(&[8, 9, 10, 11]),
        w_hand: 0,
        b_hand: 0,
        turn: WHITE,
    };
    let slid_and_captured = SixMensMorris.successors(&s).into_iter().any(|n| {
        n.white == mask(&[0, 1, 2]) && n.black == mask(&[8, 9, 10])
    });
    assert!(slid_and_captured, "sliding into a mill should capture the non-mill man");
}

#[test]
fn blocked_side_loses_and_placing_phase_never_ends_the_game() {
    // White {0, 2, 4} hemmed in: every neighbour of every white man is black.
    let s = State {
        white: mask(&[0, 2, 4]),
        black: mask(&[1, 3, 5, 7]),
        w_hand: 0,
        b_hand: 0,
        turn: WHITE,
    };
    assert_eq!(SixMensMorris.terminal(&s), Some(Outcome::Loss));
    assert!(SixMensMorris.successors(&s).is_empty());
    let placing = State { w_hand: 1, ..s };
    assert_eq!(SixMensMorris.terminal(&placing), None);
}
