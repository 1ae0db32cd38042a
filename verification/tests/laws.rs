//! The solvers' answers obey the rules move by move.

use game_solver::games::generic_morris::{Board, GenericMorris};
use game_solver::games::TicTacToe;
use game_solver::reachable::RulesGame;
use game_solver::{solve, solve_reachable, Game, Outcome};

#[test]
fn solved_table_obeys_the_rules_move_by_move() {
    let g = TicTacToe;
    let tb = solve(&g);
    for i in 0..g.num_states() {
        match g.from_index(i) {
            None => assert_eq!(tb.value(i), Outcome::Draw),
            Some(s) => match g.terminal(&s) {
                Some(o) => assert_eq!(tb.value(i), o),
                None => {
                    let vals: Vec<Outcome> = g.successors(&s).iter().map(|t| tb.value(g.index(t))).collect();
                    assert_eq!(tb.value(i) == Outcome::Win, vals.contains(&Outcome::Loss));
                    assert_eq!(
                        tb.value(i) == Outcome::Loss,
                        !vals.is_empty() && vals.iter().all(|&v| v == Outcome::Win)
                    );
                }
            },
        }
    }
}

#[test]
fn reachable_solve_obeys_the_rules_move_by_move() {
    let g = GenericMorris::new(Board::rings(2, 3));
    let sol = solve_reachable(&g);
    for (s, o) in sol.iter() {
        match RulesGame::terminal(&g, &s) {
            Some(t) => assert_eq!(o, t),
            None => {
                let vals: Vec<Outcome> = RulesGame::successors(&g, &s)
                    .iter()
                    .map(|t| sol.get(t).expect("every move from a listed position is listed"))
                    .collect();
                assert_eq!(o == Outcome::Win, vals.contains(&Outcome::Loss));
                assert_eq!(o == Outcome::Loss, !vals.is_empty() && vals.iter().all(|&v| v == Outcome::Win));
            }
        }
    }
}

#[test]
fn solved_wins_and_losses_are_the_least_closed_sets() {
    // Grow the win and loss sets from the terminal positions by the rules until
    // nothing changes; they must be exactly the table's wins and losses.
    let g = TicTacToe;
    let tb = solve(&g);
    let n = g.num_states() as usize;
    let mut win = vec![false; n];
    let mut loss = vec![false; n];
    let mut moves: Vec<Option<Vec<usize>>> = vec![None; n];
    for i in 0..n {
        if let Some(s) = g.from_index(i as u64) {
            match g.terminal(&s) {
                Some(Outcome::Win) => win[i] = true,
                Some(Outcome::Loss) => loss[i] = true,
                Some(Outcome::Draw) => {}
                None => moves[i] = Some(g.successors(&s).iter().map(|t| g.index(t) as usize).collect()),
            }
        }
    }
    let mut changed = true;
    while changed {
        changed = false;
        for i in 0..n {
            if let Some(ms) = &moves[i] {
                if !win[i] && ms.iter().any(|&j| loss[j]) {
                    win[i] = true;
                    changed = true;
                }
                if !loss[i] && !ms.is_empty() && ms.iter().all(|&j| win[j]) {
                    loss[i] = true;
                    changed = true;
                }
            }
        }
    }
    for i in 0..n {
        assert_eq!(tb.value(i as u64) == Outcome::Win, win[i], "index {i}");
        assert_eq!(tb.value(i as u64) == Outcome::Loss, loss[i], "index {i}");
    }
}
