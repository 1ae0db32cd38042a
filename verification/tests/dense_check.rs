//! The dense index and the dense solver held to the rules solve on small
//! two-ring boards, the packed tablebase, and the laws that tie the solvers
//! together, each on concrete values.

use game_solver::games::dense_check::{dense_vs_oracle, index_check};
use game_solver::games::generic_morris::{Board, GenericMorris};
use game_solver::games::tablebase::pack_tablebase;
use game_solver::games::y::Y;
use game_solver::games::TicTacToe;
use game_solver::reachable::RulesGame;
use game_solver::{solve, solve_reachable_capped, Game, Outcome};

const CAP: usize = 200_000_000;

#[test]
fn dense_solver_agrees_with_rules_on_small_boards() {
    for men in [2u8, 3] {
        let (g, check) = dense_vs_oracle(men, CAP);
        let c = check.expect("small boards fit the cap");
        assert_eq!(c.mismatches, 0, "{men} men's: the two solves disagree");
        assert_eq!((c.dense_wins, c.dense_losses, c.dense_draws), (c.oracle_wins, c.oracle_losses, c.oracle_draws));
        assert_eq!(c.dense_start, c.oracle_start);
        assert_eq!((c.oracle_wins + c.oracle_losses + c.oracle_draws) as usize, c.oracle.len());
        assert_eq!(c.dense.values.len() as u64, Game::num_states(&g));
        assert_eq!(c.oracle.get(&RulesGame::start(&g)), Some(c.oracle_start));
    }
}

#[test]
fn dense_vs_oracle_declines_past_the_cap() {
    // Three positions cannot hold every reachable position of the board.
    let (_, check) = dense_vs_oracle(3, 3);
    assert!(check.is_none());
}

#[test]
fn index_check_on_the_reachable_set() {
    let g = GenericMorris::new(Board::rings(2, 3));
    let oracle = solve_reachable_capped(&g, CAP).unwrap();
    let c = index_check(&g, &oracle);
    assert_eq!(c.invalid, 0);
    assert_eq!(c.round_trip_failures, 0);
    assert_eq!(c.collisions, 0);
    assert_eq!(c.distinct as usize, oracle.len());
    assert!(c.max_index < Game::num_states(&g));

    // Positions of another board are listed as invalid, not indexed.
    let small = GenericMorris::new(Board::rings(2, 2));
    let c2 = index_check(&small, &oracle);
    assert!(c2.invalid > 0);
    assert_eq!(c2.invalid + c2.distinct, oracle.len() as u64);
    assert_eq!(c2.collisions, 0);
}

#[test]
fn packed_tablebase_reads_back_every_value() {
    let g = GenericMorris::new(Board::rings(2, 3));
    let sol = solve_reachable_capped(&g, CAP).unwrap();
    let packed = pack_tablebase(&g, &sol);
    let total = Game::num_states(&g);
    assert_eq!(packed.len() as u64, (total + 3) / 4);
    let mut taken = 0u64;
    for (s, o) in sol.iter() {
        let i = g.index(&s);
        let code = (packed[(i / 4) as usize] >> ((i % 4) * 2)) & 3;
        let expect = match o {
            Outcome::Win => 1,
            Outcome::Loss => 2,
            Outcome::Draw => 3,
        };
        assert_eq!(code, expect);
        taken += 1;
    }
    // Every other slot is empty.
    let mut nonzero = 0u64;
    for i in 0..total {
        if (packed[(i / 4) as usize] >> ((i % 4) * 2)) & 3 != 0 {
            nonzero += 1;
        }
    }
    assert_eq!(nonzero, taken);
}

#[test]
fn solved_values_agree_with_their_moves() {
    let g = TicTacToe;
    let tb = solve(&g);
    for i in 0..g.num_states() {
        let Some(s) = g.from_index(i) else {
            assert_eq!(tb.value(i), Outcome::Draw);
            continue;
        };
        match g.terminal(&s) {
            Some(o) => assert_eq!(tb.value(i), o),
            None => {
                let next: Vec<Outcome> = g.successors(&s).iter().map(|t| tb.value(g.index(t))).collect();
                let win = next.iter().any(|&v| v == Outcome::Loss);
                let loss = !next.is_empty() && next.iter().all(|&v| v == Outcome::Win);
                assert_eq!(tb.value(i) == Outcome::Win, win, "index {i}");
                assert_eq!(tb.value(i) == Outcome::Loss, loss, "index {i}");
            }
        }
    }
}

#[test]
fn the_three_counts_cover_every_position() {
    let tb = solve(&TicTacToe);
    assert_eq!(tb.count(Outcome::Win) + tb.count(Outcome::Loss) + tb.count(Outcome::Draw), tb.len());
    let sol = solve_reachable_capped(&Y::new(3), CAP).unwrap();
    assert_eq!(sol.count(Outcome::Win) + sol.count(Outcome::Loss) + sol.count(Outcome::Draw), sol.len());
}

#[test]
fn a_y_move_adds_one_stone() {
    let game = Y::new(4);
    let mut p = game.start();
    for _ in 0..5 {
        let before = p.p1.count_ones() + p.p2.count_ones();
        let next = game.successors(&p);
        assert_eq!(next.len() as u32, game.cells as u32 - before);
        for q in &next {
            assert_eq!(q.p1.count_ones() + q.p2.count_ones(), before + 1);
            assert_eq!(q.p1 & p.p1, p.p1);
            assert_eq!(q.p2 & p.p2, p.p2);
        }
        p = next[next.len() / 2];
    }
}

#[test]
fn reply_split_tallies_the_replies() {
    let g = GenericMorris::new(Board::rings(2, 3));
    let sol = solve_reachable_capped(&g, CAP).unwrap();
    let start = RulesGame::start(&g);
    let first = RulesGame::successors(&g, &start);
    assert_eq!(first.len(), 16);
    for s in &first {
        let split = game_solver::games::opening::reply_split(&g, &sol, s).unwrap();
        let replies = RulesGame::successors(&g, s);
        let (mut w, mut d, mut l) = (0u64, 0u64, 0u64);
        let (mut dp, mut lp) = (Vec::new(), Vec::new());
        for ns in &replies {
            match sol.get(ns).unwrap() {
                Outcome::Loss => w += 1,
                Outcome::Draw => {
                    d += 1;
                    dp.push(ns.black.trailing_zeros());
                }
                Outcome::Win => {
                    l += 1;
                    lp.push(ns.black.trailing_zeros());
                }
            }
        }
        assert_eq!((split.wins, split.draws, split.losses), (w, d, l));
        assert_eq!(split.wins + split.draws + split.losses, replies.len() as u64);
        assert_eq!(split.draw_points, dp);
        assert_eq!(split.loss_points, lp);
    }
    // A solve of another board lists none of these replies.
    let small = GenericMorris::new(Board::rings(2, 2));
    let small_sol = solve_reachable_capped(&small, CAP).unwrap();
    assert!(game_solver::games::opening::reply_split(&g, &small_sol, &first[0]).is_none());
}

#[test]
fn rules_values_agree_with_their_moves() {
    let game = Y::new(3);
    let sol = solve_reachable_capped(&game, CAP).unwrap();
    for (s, v) in sol.iter() {
        match game.terminal(&s) {
            Some(o) => assert_eq!(v, o),
            None => {
                let next: Vec<Outcome> = game.successors(&s).iter().map(|t| sol.get(t).unwrap()).collect();
                let win = next.iter().any(|&x| x == Outcome::Loss);
                let loss = !next.is_empty() && next.iter().all(|&x| x == Outcome::Win);
                assert_eq!(v == Outcome::Win, win);
                assert_eq!(v == Outcome::Loss, loss);
            }
        }
    }
}
