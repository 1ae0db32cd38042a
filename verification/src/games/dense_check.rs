//! Solving the sixteen-point morris board two ways and holding them to each
//! other: the dense fixpoint solver over the combinatorial index, and the
//! forward-only rules solve over the reachable positions. On every reachable
//! position the two give the same value, and the dense index takes each
//! reachable position to an index of its own that decodes back to it.

use vstd::prelude::*;
use crate::{count_outcome, solved_value, Game, Outcome};
use crate::dense_solve::{outcome_of_code, solve_dense, DenseSolution};
use crate::games::generic_morris::{
    lemma_index_value_is_rules_value, lemma_reachable_is_valid, lemma_ring_board_fits, Board, GenericMorris, State,
};
use crate::games::index_fit::{code_count, lemma_index_fits, three_to};
use crate::games::y::{bit64, lemma_bit64_or_one, lemma_bit64_zero};
use crate::reachable::{
    distinct, over_cap, reachable, reachable_within, solve_reachable_capped, state_value, ReachableSolution, RulesGame,
};
use crate::retrograde::{lemma_occurrences_push, occurrences};

verus! {

/// The values of the solved positions, in order.
pub open spec fn oracle_values(sol: Seq<(State, Outcome)>) -> Seq<Outcome> {
    sol.map_values(|p: (State, Outcome)| p.1)
}

/// The dense values at the indices of the solved positions, in order.
pub open spec fn dense_values(g: &GenericMorris, values: Seq<u8>, sol: Seq<(State, Outcome)>) -> Seq<Outcome> {
    sol.map_values(|p: (State, Outcome)| outcome_of_code(values[g.index_of(p.0)]))
}

/// Whether `a` and `b` agree, entry by entry.
pub open spec fn agreement(a: Seq<Outcome>, b: Seq<Outcome>) -> Seq<bool> {
    Seq::new(a.len(), |i: int| a[i] == b[i])
}

/// The two solves of one morris game, compared over the reachable positions.
pub struct DenseVsOracle {
    /// Every reachable position with its value from the rules.
    pub oracle: ReachableSolution<State>,
    /// The value of every index.
    pub dense: DenseSolution,
    pub oracle_wins: u64,
    pub oracle_losses: u64,
    pub oracle_draws: u64,
    /// The dense values at the reachable positions' indices, counted.
    pub dense_wins: u64,
    pub dense_losses: u64,
    pub dense_draws: u64,
    /// Reachable positions on which the two solves disagree.
    pub mismatches: u64,
    pub oracle_start: Outcome,
    pub dense_start: Outcome,
}

/// Solve `men`-men's morris on the two-ring board with the dense fixpoint
/// solver and with the rules solve (discovering at most `cap` positions),
/// and compare the two on every reachable position. There is no comparison
/// when the index space does not fit `u32` or more than `cap` positions are
/// reachable. The board's code table must fit memory. The two always agree: no mismatches, the same split into wins,
/// losses and draws, and the same value at the start.
pub fn dense_vs_oracle(men: u8, cap: usize) -> (r: (GenericMorris, Option<DenseVsOracle>))
    requires
        code_count(men as int) <= usize::MAX,
    ensures
        r.0.wf(),
        r.0.board_view().ring_board(2, men),
        r.1 is None <==> (r.0.state_count() > u32::MAX || over_cap(&r.0, cap as int)),
        r.1 matches Some(c) ==> {
            let g = r.0;
            let sol = c.oracle@;
            &&& forall|s: State| reachable(&g, s) <==> exists|i: int| 0 <= i < sol.len() && #[trigger] sol[i].0 == s
            &&& forall|i: int| 0 <= i < sol.len() ==> #[trigger] sol[i].1 == state_value(&g, sol[i].0)
            &&& c.dense.values@.len() == g.state_count()
            &&& forall|i: int|
                0 <= i < g.state_count() ==> #[trigger] outcome_of_code(c.dense.values@[i]) == solved_value(&g, i)
            &&& c.oracle_wins == occurrences(oracle_values(sol), Outcome::Win)
            &&& c.oracle_losses == occurrences(oracle_values(sol), Outcome::Loss)
            &&& c.oracle_draws == occurrences(oracle_values(sol), Outcome::Draw)
            &&& c.dense_wins == occurrences(dense_values(&g, c.dense.values@, sol), Outcome::Win)
            &&& c.dense_losses == occurrences(dense_values(&g, c.dense.values@, sol), Outcome::Loss)
            &&& c.dense_draws == occurrences(dense_values(&g, c.dense.values@, sol), Outcome::Draw)
            &&& c.mismatches == occurrences(agreement(dense_values(&g, c.dense.values@, sol), oracle_values(sol)), false)
            &&& c.oracle_start == state_value(&g, g.initial())
            &&& c.dense_start == outcome_of_code(c.dense.values@[g.index_of(g.initial())])
            &&& c.mismatches == 0
            &&& c.dense_wins == c.oracle_wins && c.dense_losses == c.oracle_losses && c.dense_draws == c.oracle_draws
            &&& c.dense_start == c.oracle_start
        },
{
    let board = Board::rings(2, men);
    proof {
        lemma_ring_board_fits(board, 2, men);
        let cc = code_count(men as int);
        assert(cc <= 2 * 256 * 256 * 256 * 256) by (nonlinear_arith)
            requires
                cc == 2 * (men + 1) * (men + 1) * (men + 1) * (men + 1),
                0 <= men <= 255,
        ;
        assert(three_to(16) == 43046721) by {
            reveal_with_fuel(three_to, 17);
        }
        assert(cc * three_to(16) <= u64::MAX) by (nonlinear_arith)
            requires
                0 <= cc <= 2 * 256 * 256 * 256 * 256,
                three_to(16) == 43046721,
        ;
        lemma_index_fits(16, men as int);
    }
    let g = GenericMorris::new(board);
    let total = g.num_states();
    if total > 0xffff_ffffu64 {
        return (g, None);
    }
    let oracle = match solve_reachable_capped(&g, cap) {
        Some(o) => o,
        None => {
            return (g, None);
        },
    };
    let dense = solve_dense(&g, |_r: u32, _u: usize| {});
    let items = oracle.iter();
    let ghost sol = oracle@;
    let ghost dv = dense_values(&g, dense.values@, sol);
    let ghost ov = oracle_values(sol);

    // Walk the reachable positions, reading each one's dense value.
    let mut dense_seen: Vec<Outcome> = Vec::new();
    let mut oracle_seen: Vec<Outcome> = Vec::new();
    let mut mismatches: u64 = 0;
    let mut i: usize = 0;
    while i < items.len()
        invariant
            g.wf(),
            g.state_count() <= u32::MAX,
            items@ == sol,
            dv == dense_values(&g, dense.values@, sol),
            ov == oracle_values(sol),
            dense.values@.len() == g.state_count(),
            forall|j: int|
                0 <= j < g.state_count() ==> #[trigger] outcome_of_code(dense.values@[j]) == solved_value(&g, j),
            forall|s: State| reachable(&g, s) <==> exists|j: int| 0 <= j < sol.len() && #[trigger] sol[j].0 == s,
            forall|j: int| 0 <= j < sol.len() ==> #[trigger] sol[j].1 == state_value(&g, sol[j].0),
            i <= items@.len(),
            dense_seen@ == dv.subrange(0, i as int),
            oracle_seen@ == ov.subrange(0, i as int),
            mismatches == occurrences(agreement(dv, ov).subrange(0, i as int), false),
            mismatches == 0,
            forall|j: int| 0 <= j < i ==> #[trigger] dv[j] == ov[j],
        decreases items@.len() - i,
    {
        let (s, o) = items[i];
        proof {
            assert(sol[i as int].0 == s);
            assert(reachable(&g, s));
            lemma_reachable_is_valid(&g, s);
        }
        let idx = g.index(&s);
        let v = dense.value_at(idx);
        proof {
            lemma_index_value_is_rules_value(&g, s);
            assert(v == o);
            assert(dv[i as int] == v);
            assert(ov[i as int] == o);
            let a = agreement(dv, ov);
            assert(a.subrange(0, i as int + 1) =~= a.subrange(0, i as int).push(a[i as int]));
            lemma_occurrences_push(a.subrange(0, i as int), a[i as int], false);
        }
        if v != o {
            mismatches += 1;
        }
        dense_seen.push(v);
        oracle_seen.push(o);
        proof {
            assert(dense_seen@ =~= dv.subrange(0, i as int + 1));
            assert(oracle_seen@ =~= ov.subrange(0, i as int + 1));
        }
        i += 1;
    }
    proof {
        assert(dense_seen@ =~= dv);
        assert(oracle_seen@ =~= ov);
        assert(agreement(dv, ov).subrange(0, i as int) =~= agreement(dv, ov));
        assert(dv =~= ov);
    }
    let oracle_wins = count_outcome(&oracle_seen, Outcome::Win) as u64;
    let oracle_losses = count_outcome(&oracle_seen, Outcome::Loss) as u64;
    let oracle_draws = count_outcome(&oracle_seen, Outcome::Draw) as u64;
    let dense_wins = count_outcome(&dense_seen, Outcome::Win) as u64;
    let dense_losses = count_outcome(&dense_seen, Outcome::Loss) as u64;
    let dense_draws = count_outcome(&dense_seen, Outcome::Draw) as u64;

    // The start is reachable, so the rules solve holds it.
    let start = RulesGame::start(&g);
    proof {
        assert(reachable_within(&g, start, 0));
        assert(reachable(&g, start));
        lemma_reachable_is_valid(&g, start);
        lemma_index_value_is_rules_value(&g, start);
    }
    let oracle_start = match oracle.get(&start) {
        Some(o) => o,
        None => {
            proof {
                let j = choose|j: int| 0 <= j < sol.len() && #[trigger] sol[j].0 == start;
                assert(false);
            }
            Outcome::Draw
        },
    };
    proof {
        let j = choose|j: int| 0 <= j < sol.len() && sol[j] == (start, oracle_start);
        assert(sol[j].1 == state_value(&g, sol[j].0));
    }
    let dense_start = dense.value_at(g.index(&start));
    let c = DenseVsOracle {
        oracle,
        dense,
        oracle_wins,
        oracle_losses,
        oracle_draws,
        dense_wins,
        dense_losses,
        dense_draws,
        mismatches,
        oracle_start,
        dense_start,
    };
    (g, Some(c))
}

/// Whether each listed position is a position of the board.
pub open spec fn validity(g: &GenericMorris, sol: Seq<(State, Outcome)>) -> Seq<bool> {
    sol.map_values(|p: (State, Outcome)| g.valid(p.0))
}

/// Index `x` is taken by one of the first `i` listed positions.
pub open spec fn taken_by(g: &GenericMorris, items: Seq<(State, Outcome)>, i: int, x: int) -> bool {
    exists|k: int| 0 <= k < i && g.valid(items[k].0) && #[trigger] g.index_of(items[k].0) == x
}

/// The dense index checked on a list of solved positions.
pub struct IndexCheck {
    /// Listed positions that are not positions of the board, and have no index.
    pub invalid: u64,
    /// Positions whose index does not decode back to them.
    pub round_trip_failures: u64,
    /// Positions whose index an earlier position already took.
    pub collisions: u64,
    /// Indices taken.
    pub distinct: u64,
    /// The largest index taken, or 0 when none is.
    pub max_index: u64,
}

/// Check the dense index on the positions of a rules solve: index each
/// position of the board, decode the index back, and mark it taken in a
/// bitset. Every index decodes back to its position and no two positions
/// share one.
pub fn index_check(g: &GenericMorris, sol: &ReachableSolution<State>) -> (r: IndexCheck)
    requires
        g.wf(),
        g.state_count() <= usize::MAX,
    ensures
        r.invalid == occurrences(validity(g, sol@), false),
        r.distinct == occurrences(validity(g, sol@), true),
        r.round_trip_failures == 0,
        r.collisions == 0,
        forall|i: int|
            0 <= i < sol@.len() && g.valid(sol@[i].0) ==> g.index_of(#[trigger] sol@[i].0) <= r.max_index,
        r.max_index == 0 || taken_by(g, sol@, sol@.len() as int, r.max_index as int),
{
    let total = g.num_states();
    let words = (total / 64 + if total % 64 == 0 {
        0
    } else {
        1
    }) as usize;
    let mut seen: Vec<u64> = Vec::new();
    let mut z: usize = 0;
    while z < words
        invariant
            z <= words,
            seen@.len() == z,
            forall|w: int| 0 <= w < z ==> #[trigger] seen@[w] == 0,
        decreases words - z,
    {
        seen.push(0);
        z += 1;
    }
    proof {
        assert forall|x: int| 0 <= x < words * 64 implies !bit64(#[trigger] seen@[x / 64], x % 64) by {
            lemma_bit64_zero(x % 64);
        }
    }
    let items = sol.iter();
    let ghost val = validity(g, sol@);
    let mut invalid: u64 = 0;
    let mut distinct_count: u64 = 0;
    let mut round_trip_failures: u64 = 0;
    let mut collisions: u64 = 0;
    let mut max_index: u64 = 0;
    let mut i: usize = 0;
    while i < items.len()
        invariant
            g.wf(),
            total == g.state_count(),
            total <= usize::MAX,
            words == (total + 63) / 64,
            seen@.len() == words,
            items@ == sol@,
            distinct(items@.map_values(|p: (State, Outcome)| p.0)),
            val == validity(g, sol@),
            i <= items@.len(),
            invalid == occurrences(val.subrange(0, i as int), false),
            distinct_count == occurrences(val.subrange(0, i as int), true),
            invalid + distinct_count == i,
            round_trip_failures == 0,
            collisions == 0,
            forall|x: int|
                0 <= x < words * 64 ==> (bit64(#[trigger] seen@[x / 64], x % 64) <==> taken_by(g, items@, i as int, x)),
            forall|k: int|
                0 <= k < i && g.valid(items@[k].0) ==> g.index_of(#[trigger] items@[k].0) <= max_index,
            max_index == 0 || taken_by(g, items@, i as int, max_index as int),
        decreases items@.len() - i,
    {
        let (s, _o) = items[i];
        let ghost before = seen@;
        proof {
            assert(val.subrange(0, i as int + 1) =~= val.subrange(0, i as int).push(val[i as int]));
            lemma_occurrences_push(val.subrange(0, i as int), val[i as int], false);
            lemma_occurrences_push(val.subrange(0, i as int), val[i as int], true);
            assert(val[i as int] == g.valid(s));
        }
        if !g.is_valid(&s) {
            invalid += 1;
            proof {
                assert forall|x: int| taken_by(g, items@, i as int + 1, x) implies taken_by(g, items@, i as int, x) by {
                    let k = choose|k: int| 0 <= k < i + 1 && g.valid(items@[k].0) && #[trigger] g.index_of(items@[k].0) == x;
                    assert(k != i);
                }
            }
        } else {
            let idx = g.index(&s);
            proof {
                g.lemma_index_round_trip(s);
            }
            if idx > max_index {
                max_index = idx;
            }
            match g.from_index(idx) {
                Some(t) => {
                    if !(t.white == s.white && t.black == s.black && t.w_hand == s.w_hand && t.b_hand == s.b_hand
                        && t.turn == s.turn) {
                        round_trip_failures += 1;
                    }
                },
                None => {
                    round_trip_failures += 1;
                },
            }
            let w = (idx >> 6) as usize;
            let b = idx & 63;
            proof {
                assert(idx >> 6 == idx / 64 && idx & 63 == idx % 64) by (bit_vector);
            }
            if (seen[w] >> b) & 1 == 1 {
                proof {
                    assert(bit64(seen@[idx as int / 64], idx as int % 64));
                    let k = choose|k: int|
                        0 <= k < i && g.valid(items@[k].0) && #[trigger] g.index_of(items@[k].0) == idx as int;
                    g.lemma_index_round_trip(items@[k].0);
                    assert(items@[k].0 == s);
                    let states = items@.map_values(|p: (State, Outcome)| p.0);
                    assert(states[k] == states[i as int]);
                }
                collisions += 1;
            } else {
                let cur = seen[w];
                seen.set(w, cur | (1u64 << b));
                distinct_count += 1;
            }
            proof {
                assert forall|x: int| 0 <= x < words * 64 implies (bit64(#[trigger] seen@[x / 64], x % 64)
                    <==> taken_by(g, items@, i as int + 1, x)) by {
                    if taken_by(g, items@, i as int + 1, x) && !taken_by(g, items@, i as int, x) {
                        let k = choose|k: int|
                            0 <= k < i + 1 && g.valid(items@[k].0) && #[trigger] g.index_of(items@[k].0) == x;
                        assert(k == i);
                    }
                    if x == idx as int {
                        assert(g.index_of(items@[i as int].0) == x);
                    }
                    if x / 64 == w as int {
                        lemma_bit64_or_one(before[x / 64], b as int, x % 64);
                    }
                }
                assert forall|k: int| 0 <= k < i + 1 && g.valid(items@[k].0) implies g.index_of(
                    #[trigger] items@[k].0,
                ) <= max_index by {}
                if max_index == idx {
                    assert(g.index_of(items@[i as int].0) == max_index);
                } else if max_index != 0 {
                    let k = choose|k: int|
                        0 <= k < i && g.valid(items@[k].0) && #[trigger] g.index_of(items@[k].0) == max_index as int;
                    assert(taken_by(g, items@, i as int + 1, max_index as int));
                }
            }
        }
        i += 1;
    }
    proof {
        assert(val.subrange(0, i as int) =~= val);
    }
    IndexCheck { invalid, round_trip_failures, collisions, distinct: distinct_count, max_index }
}

} // verus!
