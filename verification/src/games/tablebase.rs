//! A morris tablebase on disk: two bits per dense index, little-endian within
//! each byte — 0 for an index no solved position takes, else the position's
//! value (1 win, 2 loss, 3 draw, for the side to move).

use vstd::prelude::*;
use crate::{Game, Outcome};
use crate::dense_solve::{code_of, unpacked_2bit, DRAW, LOSS, WIN};
use crate::games::generic_morris::{GenericMorris, State};
use crate::reachable::{distinct, ReachableSolution};

verus! {

/// The code the tablebase holds at index `x` after the first `i` listed
/// positions: the code of the last of them that takes `x`, or 0 when none does.
pub open spec fn code_at(g: &GenericMorris, items: Seq<(State, Outcome)>, i: int, x: int) -> u8
    decreases i,
{
    if i <= 0 {
        0
    } else if g.valid(items[i - 1].0) && g.index_of(items[i - 1].0) == x {
        code_of(items[i - 1].1)
    } else {
        code_at(g, items, i - 1, x)
    }
}

/// Two listed positions of the board with one index are one entry.
proof fn lemma_one_taker(g: &GenericMorris, items: Seq<(State, Outcome)>, k1: int, k2: int)
    requires
        g.wf(),
        distinct(items.map_values(|p: (State, Outcome)| p.0)),
        0 <= k1 < items.len(),
        0 <= k2 < items.len(),
        g.valid(items[k1].0),
        g.valid(items[k2].0),
        g.index_of(items[k1].0) == g.index_of(items[k2].0),
    ensures
        k1 == k2,
{
    g.lemma_index_round_trip(items[k1].0);
    g.lemma_index_round_trip(items[k2].0);
    let states = items.map_values(|p: (State, Outcome)| p.0);
    assert(states[k1] == states[k2]);
}

/// No listed position among the first `i` takes `x`: the code there is 0.
proof fn lemma_code_at_none(g: &GenericMorris, items: Seq<(State, Outcome)>, i: int, x: int)
    requires
        forall|k: int| 0 <= k < i ==> !(g.valid(items[k].0) && #[trigger] g.index_of(items[k].0) == x),
    ensures
        code_at(g, items, i, x) == 0,
    decreases i,
{
    if i > 0 {
        lemma_code_at_none(g, items, i - 1, x);
    }
}

/// The code at the index of a listed position of the board is its code.
proof fn lemma_code_at_taker(g: &GenericMorris, items: Seq<(State, Outcome)>, i: int, k: int)
    requires
        g.wf(),
        distinct(items.map_values(|p: (State, Outcome)| p.0)),
        0 <= k < i <= items.len(),
        g.valid(items[k].0),
    ensures
        code_at(g, items, i, g.index_of(items[k].0)) == code_of(items[k].1),
    decreases i,
{
    let x = g.index_of(items[k].0);
    if i - 1 != k {
        if g.valid(items[i - 1].0) && g.index_of(items[i - 1].0) == x {
            lemma_one_taker(g, items, i - 1, k);
        } else {
            lemma_code_at_taker(g, items, i - 1, k);
        }
    }
}

/// Writing code `c` into an empty two-bit slot of a byte (at shift `sj`)
/// sets that slot to `c` and leaves the other slots as they were.
proof fn lemma_slot_write(cur: u8, c: u8, sj: u8, sk: u8)
    requires
        c <= 3,
        sj < 8 && sj % 2 == 0,
        sk < 8 && sk % 2 == 0,
        (cur >> sj) & 3u8 == 0,
    ensures
        ((cur | (c << sj)) >> sk) & 3u8 == if sk == sj {
            c
        } else {
            (cur >> sk) & 3u8
        },
{
    assert(((cur | (c << sj)) >> sk) & 3u8 == if sk == sj {
        c
    } else {
        (cur >> sk) & 3u8
    }) by (bit_vector)
        requires
            c <= 3,
            sj < 8 && sj % 2 == 0,
            sk < 8 && sk % 2 == 0,
            (cur >> sj) & 3u8 == 0,
    ;
}

/// Pack the values of a rules solve into a tablebase addressed by the dense
/// index: two bits per index, the code of the listed position that takes the
/// index, or 0 where none does. Listed positions that are not positions of
/// the board take no index.
pub fn pack_tablebase(g: &GenericMorris, sol: &ReachableSolution<State>) -> (out: Vec<u8>)
    requires
        g.wf(),
        g.state_count() <= usize::MAX,
    ensures
        out@.len() == (g.state_count() + 3) / 4,
        forall|x: int|
            0 <= x < g.state_count() ==> #[trigger] unpacked_2bit(out@, x) == code_at(g, sol@, sol@.len() as int, x),
        forall|k: int|
            0 <= k < sol@.len() && g.valid(sol@[k].0) ==> unpacked_2bit(out@, g.index_of(#[trigger] sol@[k].0))
                == code_of(sol@[k].1),
{
    let total = g.num_states();
    let nbytes = (total / 4 + if total % 4 == 0 {
        0
    } else {
        1
    }) as usize;
    let mut out: Vec<u8> = Vec::new();
    let mut z: usize = 0;
    while z < nbytes
        invariant
            z <= nbytes,
            out@.len() == z,
            forall|b: int| 0 <= b < z ==> #[trigger] out@[b] == 0,
        decreases nbytes - z,
    {
        out.push(0);
        z += 1;
    }
    proof {
        assert forall|x: int| 0 <= x < total implies #[trigger] unpacked_2bit(out@, x) == code_at(g, sol@, 0, x) by {
            let sh = (x % 4 * 2) as u8;
            assert(out@[x / 4] == 0);
            assert((0u8 >> sh) & 3u8 == 0) by (bit_vector);
        }
    }
    let items = sol.iter();
    let mut i: usize = 0;
    while i < items.len()
        invariant
            g.wf(),
            total == g.state_count(),
            total <= usize::MAX,
            nbytes == (total + 3) / 4,
            out@.len() == nbytes,
            items@ == sol@,
            distinct(items@.map_values(|p: (State, Outcome)| p.0)),
            i <= items@.len(),
            forall|x: int| 0 <= x < total ==> #[trigger] unpacked_2bit(out@, x) == code_at(g, items@, i as int, x),
        decreases items@.len() - i,
    {
        let (s, o) = items[i];
        let ghost before = out@;
        if g.is_valid(&s) {
            let idx = g.index(&s);
            proof {
                g.lemma_index_round_trip(s);
            }
            let code: u8 = match o {
                Outcome::Win => WIN,
                Outcome::Loss => LOSS,
                Outcome::Draw => DRAW,
            };
            let b = (idx / 4) as usize;
            let sh = (idx % 4 * 2) as u8;
            let cur = out[b];
            proof {
                // The slot is still empty: no earlier position takes this index.
                assert forall|k: int| 0 <= k < i implies !(g.valid(items@[k].0) && #[trigger] g.index_of(items@[k].0)
                    == idx as int) by {
                    if g.valid(items@[k].0) && g.index_of(items@[k].0) == idx as int {
                        lemma_one_taker(g, items@, k, i as int);
                    }
                }
                lemma_code_at_none(g, items@, i as int, idx as int);
                assert(unpacked_2bit(before, idx as int) == 0);
                assert(idx as int / 4 == b);
            }
            out.set(b, cur | (code << sh));
            proof {
                assert forall|x: int| 0 <= x < total implies #[trigger] unpacked_2bit(out@, x) == code_at(
                    g,
                    items@,
                    i as int + 1,
                    x,
                ) by {
                    assert(unpacked_2bit(before, x) == code_at(g, items@, i as int, x));
                    if x / 4 == b as int {
                        lemma_slot_write(cur, code, sh, (x % 4 * 2) as u8);
                        if (x % 4 * 2) as u8 == sh {
                            assert(x == idx as int);
                        }
                    } else {
                        assert(out@[x / 4] == before[x / 4]);
                    }
                }
            }
        } else {
            proof {
                assert forall|x: int| 0 <= x < total implies #[trigger] unpacked_2bit(out@, x) == code_at(
                    g,
                    items@,
                    i as int + 1,
                    x,
                ) by {
                    assert(unpacked_2bit(before, x) == code_at(g, items@, i as int, x));
                }
            }
        }
        i += 1;
    }
    proof {
        assert forall|k: int| 0 <= k < sol@.len() && g.valid(sol@[k].0) implies unpacked_2bit(
            out@,
            g.index_of(#[trigger] sol@[k].0),
        ) == code_of(sol@[k].1) by {
            g.lemma_index_round_trip(sol@[k].0);
            lemma_code_at_taker(g, sol@, sol@.len() as int, k);
        }
    }
    out
}

} // verus!
