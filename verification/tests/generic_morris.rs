//! The board family: ring-built tables, the symmetry group, the dense index,
//! and flying.

use game_solver::games::generic_morris::{is_automorphism, permute, Board, GenericMorris, State, WHITE};
use game_solver::games::morris::{SixMensMorris, State as SixState};
use game_solver::reachable::RulesGame;
use game_solver::{solve_reachable, Game};

#[test]
fn six_mens_board_matches_handcoded() {
    // The ring-built six men's board must reproduce super::morris's tables.
    let b = Board::six_mens();
    let expected_adj: [u32; 16] = [
        130, 517, 10, 2068, 40, 8272, 160, 32833, 33280, 1282, 2560, 5128, 10240, 20512, 40960,
        16768,
    ];
    assert_eq!(b.adj, expected_adj.to_vec());
    let mut mills = b.mills.clone();
    mills.sort();
    let mut expected = vec![7u32, 28, 112, 193, 1792, 7168, 28672, 49408];
    expected.sort();
    assert_eq!(mills, expected);
}

#[test]
fn nine_mens_board_shape() {
    let b = Board::nine_mens();
    assert_eq!(b.n, 24);
    assert_eq!(b.mills.len(), 16); // 12 ring sides + 4 spokes
    assert_eq!(b.sym.len(), 16);
    // every spoke mill spans the three rings at one mid
    assert!(b.mills.contains(&((1 << 1) | (1 << 9) | (1 << 17))));
}

#[test]
fn index_round_trips_on_start_and_a_few_states() {
    let g = GenericMorris::six_mens();
    let s = RulesGame::start(&g);
    let i = g.index(&s);
    assert_eq!(Game::from_index(&g, i).unwrap(), s);

    // a handful of successors round-trip too
    for ns in RulesGame::successors(&g, &s) {
        let j = g.index(&ns);
        assert_eq!(Game::from_index(&g, j).unwrap(), ns, "round trip failed for {ns:?}");
    }
}

#[test]
fn canon_is_idempotent_and_orbit_invariant() {
    let g = GenericMorris::six_mens();
    let s = State { white: (1 << 0) | (1 << 1), black: 1 << 8, w_hand: 4, b_hand: 5, turn: WHITE };
    let c = g.canon(&s);
    assert_eq!(g.canon(&c), c, "canon not idempotent");
    // every symmetric image canonicalises to the same representative
    for perm in &g.board.sym {
        let img = State { white: permute(perm, s.white), black: permute(perm, s.black), ..s };
        assert_eq!(g.canon(&img), c, "orbit member canonicalised differently");
    }
}

#[test]
fn flying_lets_three_men_jump() {
    let m = |pts: &[usize]| pts.iter().fold(0u32, |a, &p| a | (1 << p));
    // White has exactly three men in the movement phase; point 12 is empty and
    // not adjacent to White's man at 0.
    let s = State { white: m(&[0, 2, 4]), black: m(&[8, 9, 10, 11]), w_hand: 0, b_hand: 0, turn: WHITE };
    let fly = GenericMorris::new(Board::rings(2, 6).with_flying());
    let no_fly = GenericMorris::new(Board::rings(2, 6));
    assert!(RulesGame::successors(&fly, &s).iter().any(|n| (n.white >> 12) & 1 == 1), "flying should allow the jump");
    assert!(!RulesGame::successors(&no_fly, &s).iter().any(|n| (n.white >> 12) & 1 == 1), "no-fly should not allow it");
}

#[test]
fn every_symmetry_is_an_automorphism() {
    for b in [Board::six_mens(), Board::nine_mens()] {
        assert_eq!(b.sym.len(), 16);
        assert_eq!(b.sym[0], (0..b.n as u8).collect::<Vec<u8>>(), "identity first");
        for perm in &b.sym {
            assert!(is_automorphism(perm, &b.adj, &b.mills));
        }
        for i in 0..b.sym.len() {
            for j in 0..i {
                assert_ne!(b.sym[i], b.sym[j]);
            }
        }
    }
    // A map that is not an automorphism: swap a corner with a midpoint.
    let b = Board::six_mens();
    let mut bad: Vec<u8> = (0..16).collect();
    bad.swap(0, 1);
    assert!(!is_automorphism(&bad, &b.adj, &b.mills));
}

#[test]
fn index_is_a_bijection_on_a_small_board() {
    // Three men a side on the sixteen points: every reachable position gets
    // its own index, and decoding it gives the position back.
    let g = GenericMorris::new(Board::rings(2, 3));
    let total = Game::num_states(&g);
    let sol = solve_reachable(&g);
    let mut seen = vec![false; total as usize];
    for (s, _) in sol.iter() {
        let i = g.index(&s);
        assert!(i < total);
        assert!(!seen[i as usize], "index collision at {i}");
        seen[i as usize] = true;
        assert_eq!(Game::from_index(&g, i), Some(s));
    }
}

#[test]
fn generic_rules_match_the_six_mens_rules() {
    let g = GenericMorris::six_mens();
    let six = SixMensMorris;
    let mut frontier = vec![SixState { white: 0, black: 0, w_hand: 6, b_hand: 6, turn: WHITE }];
    for _ in 0..3 {
        let mut next = Vec::new();
        for s in &frontier {
            let wide = State { white: s.white as u32, black: s.black as u32, w_hand: s.w_hand, b_hand: s.b_hand, turn: s.turn };
            let a: Vec<State> = six
                .successors(s)
                .iter()
                .map(|t| State { white: t.white as u32, black: t.black as u32, w_hand: t.w_hand, b_hand: t.b_hand, turn: t.turn })
                .collect();
            assert_eq!(a, RulesGame::successors(&g, &wide));
            assert_eq!(six.terminal(s), RulesGame::terminal(&g, &wide));
            next.extend(six.successors(s).into_iter().take(3));
        }
        frontier = next;
    }
}

#[test]
fn canon_names_each_orbit_once() {
    // Several positions on both boards: every image canonicalises alike, and
    // the canonical form is its own canonical form.
    let m = |pts: &[u32]| pts.iter().fold(0u32, |a, &p| a | (1 << p));
    for g in [GenericMorris::six_mens(), GenericMorris::nine_mens()] {
        let states = [
            State { white: m(&[0]), black: 0, w_hand: 5, b_hand: 6, turn: 2 },
            State { white: m(&[1, 3, 9]), black: m(&[2, 10, 15]), w_hand: 0, b_hand: 1, turn: WHITE },
            State { white: m(&[4, 5, 6, 14]), black: m(&[0, 8]), w_hand: 2, b_hand: 3, turn: 2 },
        ];
        for s in states {
            let c = g.canon(&s);
            assert_eq!(g.canon(&c), c);
            for perm in &g.board.sym {
                let img = State { white: permute(perm, s.white), black: permute(perm, s.black), ..s };
                assert_eq!(g.canon(&img), c);
                assert!((c.white, c.black) <= (img.white, img.black));
            }
        }
    }
}

#[test]
fn thirteen_men_index_round_trips_on_the_nine_mens_board() {
    // The index is built for more men than the standard games use.
    let g = GenericMorris::new(Board::rings(3, 13));
    let total = Game::num_states(&g);
    let start = RulesGame::start(&g);
    let i = g.index(&start);
    assert!(i < total);
    assert_eq!(Game::from_index(&g, i), Some(start));
    for s in RulesGame::successors(&g, &start) {
        let j = g.index(&s);
        assert!(j < total);
        assert_eq!(Game::from_index(&g, j), Some(s));
    }
}

#[test]
fn index_buckets_follow_the_count_order() {
    // Indices grow with (turn, white in hand, white on board, black in hand,
    // black on board): the start (all men in hand, White to move) comes after
    // every White-to-move position with fewer white men in hand.
    let g = GenericMorris::six_mens();
    let start = RulesGame::start(&g);
    let after = RulesGame::successors(&g, &start)[0];
    assert!(g.index(&start) < g.index(&after));
    let s = State { white: 1, black: 2, w_hand: 5, b_hand: 5, turn: WHITE };
    assert!(g.index(&s) < g.index(&start));
}

#[test]
fn one_man_two_ring_game_has_616_indices() {
    // 2 turns x (1 + 16 + 1 + 16 + 240 + 16 + 1 + 16 + 1) placements.
    let g = GenericMorris::new(Board::rings(2, 1));
    assert_eq!(Game::num_states(&g), 616);
}

#[test]
fn every_index_decodes_to_a_position_with_that_index() {
    for men in [1u8, 2] {
        let g = GenericMorris::new(Board::rings(2, men));
        for i in 0..Game::num_states(&g) {
            let s = Game::from_index(&g, i).expect("every index decodes");
            assert_eq!(g.index(&s), i);
        }
    }
}

#[test]
fn canon_works_on_the_thirty_two_point_board() {
    let g = GenericMorris::new(Board::rings(4, 2));
    let s = State { white: 1 << 31, black: 1 << 2, w_hand: 1, b_hand: 1, turn: WHITE };
    let c = g.canon(&s);
    assert_eq!((c.w_hand, c.b_hand, c.turn), (s.w_hand, s.b_hand, s.turn));
    assert_eq!(c.white.count_ones(), 1);
    assert_eq!(c.black.count_ones(), 1);
    assert!((c.white, c.black) <= (s.white, s.black));
    assert_eq!(g.canon(&c), c);
}

#[test]
fn ring_boards_have_symmetric_loop_free_adjacency_and_three_point_mills() {
    for rings in [2usize, 3, 4] {
        let b = Board::rings(rings, 3);
        for a in 0..b.n {
            assert_eq!((b.adj[a] >> a) & 1, 0);
            for q in 0..b.n {
                assert_eq!((b.adj[a] >> q) & 1, (b.adj[q] >> a) & 1);
            }
        }
        assert_eq!(b.mills.len(), 4 * rings + 4 * (rings - 2));
        for m in b.mills.iter() {
            assert_eq!(m.count_ones(), 3);
            assert!(b.n == 32 || *m >> b.n == 0);
        }
        assert_eq!(b.sym.len(), 16);
        assert_eq!(b.sym[0], (0..b.n as u8).collect::<Vec<u8>>());
    }
}

#[test]
fn index_fits_on_the_standard_boards() {
    assert!(GenericMorris::index_fits_for(&Board::rings(2, 6)));
    assert!(GenericMorris::index_fits_for(&Board::rings(3, 9)));
    assert!(GenericMorris::index_fits_for(&Board::rings(3, 13)));
    assert!(GenericMorris::index_fits_for(&Board::rings(2, 1)));
}
