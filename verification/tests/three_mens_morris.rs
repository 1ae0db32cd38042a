//! Locks in our strong solution of three men's morris (Tapatan ruleset).
//! Computed by the engine; cross-checks the classical "first player wins by the
//! centre" result and records the full opening classification.

use game_solver::games::three_mens_morris::Pos;
use game_solver::games::ThreeMensMorris;
use game_solver::{solve, Game, Outcome};

const BLACK: u8 = 2;

fn after_white_opening(game: &ThreeMensMorris, point: usize) -> Pos {
    let mut p = game.start();
    p.cells[point] = 1; // WHITE
    p.w_hand -= 1;
    p.turn = BLACK;
    p
}

#[test]
fn first_player_wins() {
    let game = ThreeMensMorris;
    let tb = solve(&game);
    assert_eq!(tb.value(game.index(&game.start())), Outcome::Win);
}

#[test]
fn centre_is_the_unique_winning_opening() {
    let game = ThreeMensMorris;
    let tb = solve(&game);
    // After White's opening it is Black to move: Loss => White wins, Win => White loses.
    let value_for_black = |point| tb.value(game.index(&after_white_opening(&game, point)));

    assert_eq!(value_for_black(4), Outcome::Loss, "centre should win for White");
    for corner in [0, 2, 6, 8] {
        assert_eq!(value_for_black(corner), Outcome::Draw, "corner {corner} should draw");
    }
    for edge in [1, 3, 5, 7] {
        assert_eq!(value_for_black(edge), Outcome::Win, "edge {edge} should lose for White");
    }
}

#[test]
fn start_round_trips_and_has_nine_placements() {
    let game = ThreeMensMorris;
    let start = game.start();
    assert_eq!(game.from_index(game.index(&start)), Some(start));
    assert_eq!(game.successors(&start).len(), 9);
    assert_eq!(game.terminal(&start), None);
    assert_eq!(game.num_states(), 629_856);
}

#[test]
fn a_completed_mill_loses_for_the_side_to_move() {
    let game = ThreeMensMorris;
    // White completed the top row; Black to move has lost.
    let p = Pos { cells: [1, 1, 1, 2, 2, 0, 0, 0, 0], w_hand: 0, b_hand: 1, turn: BLACK };
    assert_eq!(game.terminal(&p), Some(Outcome::Loss));
}

#[test]
fn index_round_trips_on_every_kept_position() {
    let game = ThreeMensMorris;
    let mut kept = 0u64;
    for i in 0..game.num_states() {
        if let Some(p) = game.from_index(i) {
            assert_eq!(game.index(&p), i);
            kept += 1;
        }
    }
    // Three men a side, split between the board and the hand.
    assert_eq!(kept, 2 * KEPT_BOARDS);
}

/// Boards with `w` white and `b` black men, summed over 0..=3 each: the hands
/// are then fixed, and either side may be to move.
const KEPT_BOARDS: u64 = 6_799;
