//! The cell-array morris implementation against the bitmask ones.

use game_solver::games::array_morris::{adjacency, mills, ArrMorris, ArrState, B, E, W};
use game_solver::games::generic_morris::{Board, GenericMorris};
use game_solver::games::morris::{SixMensMorris, State};
use game_solver::reachable::RulesGame;
use game_solver::{solve_reachable, Outcome};

fn to_masks(s: &ArrState) -> State {
    let mut white = 0u16;
    let mut black = 0u16;
    for p in 0..16 {
        if s.cells[p] == W {
            white |= 1 << p;
        } else if s.cells[p] == B {
            black |= 1 << p;
        }
    }
    State { white, black, w_hand: s.w_hand, b_hand: s.b_hand, turn: s.turn }
}

#[test]
fn derived_board_matches_the_ring_geometry() {
    let adj = adjacency();
    assert_eq!(adj[0], vec![1, 7]);
    assert_eq!(adj[1], vec![0, 2, 9]);
    assert_eq!(adj[9], vec![8, 10, 1]);
    assert_eq!(adj[15], vec![14, 8, 7]);
    // The same neighbours as the hand-written six men's masks.
    let masks: [u16; 16] = [
        130, 517, 10, 2068, 40, 8272, 160, 32833, 33280, 1282, 2560, 5128, 10240, 20512, 40960, 16768,
    ];
    for p in 0..16 {
        let m = adj[p].iter().fold(0u16, |m, &q| m | (1 << q));
        assert_eq!(m, masks[p], "point {p}");
    }
    let m = mills();
    assert_eq!(m[0], [0, 1, 2]);
    assert_eq!(m[3], [6, 7, 0]);
    assert_eq!(m[7], [14, 15, 8]);
}

#[test]
fn start_has_sixteen_drops() {
    let g = ArrMorris::new(6);
    let s = g.start();
    assert_eq!(s.cells, [E; 16]);
    assert_eq!(g.terminal(&s), None);
    assert_eq!(g.successors(&s).len(), 16);
}

#[test]
fn array_moves_are_the_bitmask_moves() {
    let arr = ArrMorris::new(6);
    let six = SixMensMorris;
    let mut frontier = vec![arr.start()];
    for _ in 0..4 {
        let mut next = Vec::new();
        for s in &frontier {
            let mut a: Vec<State> = arr.successors(s).iter().map(to_masks).collect();
            let mut b = six.successors(&to_masks(s));
            let key = |t: &State| (t.white, t.black, t.w_hand, t.b_hand, t.turn);
            a.sort_by_key(key);
            b.sort_by_key(key);
            assert_eq!(a, b);
            assert_eq!(arr.terminal(s), six.terminal(&to_masks(s)));
            next.extend(arr.successors(s).into_iter().step_by(5));
        }
        frontier = next;
    }
}

#[test]
fn three_men_solves_agree() {
    let arr = solve_reachable(&ArrMorris::new(3));
    let gen = solve_reachable(&GenericMorris::new(Board::rings(2, 3)));
    assert_eq!(arr.len(), gen.len());
    for o in [Outcome::Win, Outcome::Loss, Outcome::Draw] {
        assert_eq!(arr.count(o), gen.count(o));
    }
    let a0 = arr.get(&ArrMorris::new(3).start());
    let g0 = gen.get(&GenericMorris::new(Board::rings(2, 3)).start());
    assert_eq!(a0, g0);
    assert!(a0.is_some());
}

#[test]
fn capture_takes_a_man_outside_the_mills() {
    let g = ArrMorris::new(6);
    let mut cells = [E; 16];
    cells[0] = W;
    cells[1] = W;
    for p in [8, 9, 10, 11] {
        cells[p] = B;
    }
    let s = ArrState { cells, w_hand: 1, b_hand: 0, turn: W };
    let captures: Vec<ArrState> =
        g.successors(&s).into_iter().filter(|n| n.cells.iter().filter(|&&c| c == B).count() == 3).collect();
    assert_eq!(captures.len(), 1);
    assert_eq!(captures[0].cells[11], E);
    assert_eq!(captures[0].cells[2], W);
    assert_eq!(captures[0].turn, B);
    assert_eq!(captures[0].w_hand, 0);
}

#[test]
fn lookup_answers_only_for_solved_states() {
    // A cell value the board never holds must not be taken for a solved state
    // that shares its low bits.
    let g = ArrMorris::new(3);
    let sol = solve_reachable(&g);
    let start = g.start();
    assert!(sol.get(&start).is_some());
    let mut alias = start;
    alias.cells[0] = 4;
    assert_eq!(sol.get(&alias), None);
    for (s, o) in sol.iter() {
        assert_eq!(sol.get(&s), Some(o));
    }
}
