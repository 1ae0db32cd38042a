//! The dense fixpoint solver, checked against the queue solver and known values.

use game_solver::dense_solve::{solve_dense, DenseSolution};
use game_solver::games::{ThreeMensMorris, TicTacToe};
use game_solver::{solve, Game, Outcome};

#[test]
fn tic_tac_toe_is_a_draw() {
    // The dense fixpoint solver must agree with the known tic-tac-toe result.
    let g = TicTacToe;
    let sol = solve_dense(&g, |_, _| {});
    let start = Game::index(&g, &Game::start(&g));
    assert_eq!(sol.value_at(start), Outcome::Draw);
}

fn agree<G: Game>(g: &G, sol: &DenseSolution) {
    let tb = solve(g);
    assert_eq!(tb.len() as u64, g.num_states());
    for i in 0..g.num_states() {
        assert_eq!(sol.value_at(i), tb.value(i), "index {i}");
    }
    assert_eq!(sol.count(Outcome::Win), tb.count(Outcome::Win) as u64);
    assert_eq!(sol.count(Outcome::Loss), tb.count(Outcome::Loss) as u64);
    assert_eq!(sol.count(Outcome::Draw), tb.count(Outcome::Draw) as u64);
}

#[test]
fn dense_agrees_with_queue_solver() {
    let mut rounds = Vec::new();
    let sol = solve_dense(&TicTacToe, |r, changed| rounds.push((r, changed)));
    agree(&TicTacToe, &sol);
    // One report per round, `(round, positions still unknown)`; the last round
    // settles nothing new, and what is left is drawn.
    assert!(rounds.len() >= 2);
    for (k, &(r, _)) in rounds.iter().enumerate() {
        assert_eq!(r as usize, k + 1);
    }
    let (_, last) = rounds[rounds.len() - 1];
    let (_, before) = rounds[rounds.len() - 2];
    assert_eq!(last, before, "the last round changes nothing");
    assert_eq!(sol.rounds as usize, rounds.len());
    agree(&ThreeMensMorris, &solve_dense(&ThreeMensMorris, |_, _| {}));
}

#[test]
fn pack_2bit_packs_four_values_per_byte() {
    let sol = solve_dense(&TicTacToe, |_, _| {});
    let packed = sol.pack_2bit();
    assert_eq!(packed.len() as u64, (TicTacToe.num_states() + 3) / 4);
    for i in 0..TicTacToe.num_states() {
        let code = (packed[(i / 4) as usize] >> ((i % 4) * 2)) & 3;
        let expect = match sol.value_at(i) {
            Outcome::Win => 1,
            Outcome::Loss => 2,
            Outcome::Draw => 3,
        };
        assert_eq!(code, expect, "index {i}");
    }
}

#[test]
fn reports_count_down_to_the_drawn_open_positions() {
    let g = TicTacToe;
    let mut reports = Vec::new();
    let sol = solve_dense(&g, |r, u| reports.push((r, u)));
    let mut open = 0usize;
    let mut drawn = 0usize;
    for i in 0..g.num_states() {
        if let Some(s) = g.from_index(i) {
            if g.terminal(&s).is_none() {
                open += 1;
                if sol.values[i as usize] == game_solver::dense_solve::DRAW {
                    drawn += 1;
                }
            }
        }
    }
    assert_eq!(reports.len(), sol.rounds as usize);
    let mut before = open;
    for k in 0..reports.len() - 1 {
        assert!(reports[k].1 < before, "round {} decided nothing", k + 1);
        before = reports[k].1;
    }
    assert_eq!(reports[reports.len() - 1].1, before);
    assert_eq!(reports[reports.len() - 1].1, drawn);
}
