//! The shape of a ring-built morris board: its adjacency is symmetric and
//! loop-free, its mills are lines of three points, and its symmetry list
//! starts with the identity.

use vstd::prelude::*;
use crate::games::automorphism::lemma_ring_adj_bits;
use crate::games::generic_morris::{identity_map, ring_mills, side_mill, spoke_mill, Board};
use crate::games::symmetry::lemma_mod8;
use crate::index::{bit, lemma_bit_one, lemma_bit_or};

verus! {

/// The bits of `m` are exactly the three distinct board points `p1`, `p2`, `p3`
/// below `n`.
pub open spec fn three_points(m: u32, n: int, p1: int, p2: int, p3: int) -> bool {
    &&& 0 <= p1 < n && 0 <= p2 < n && 0 <= p3 < n
    &&& p1 != p2 && p2 != p3 && p1 != p3
    &&& forall|q: int| 0 <= q < 32 ==> (#[trigger] bit(m, q) <==> (q == p1 || q == p2 || q == p3))
}

/// `m` is a mill of three distinct points of an `n`-point board.
pub open spec fn three_point_mill(m: u32, n: int) -> bool {
    exists|p1: int, p2: int, p3: int| three_points(m, n, p1, p2, p3)
}

proof fn lemma_three_bits(p1: int, p2: int, p3: int, q: int)
    requires
        0 <= p1 < 32,
        0 <= p2 < 32,
        0 <= p3 < 32,
        0 <= q < 32,
    ensures
        bit((1u32 << (p1 as u32)) | (1u32 << (p2 as u32)) | (1u32 << (p3 as u32)), q) <==> (q == p1 || q == p2
            || q == p3),
{
    lemma_bit_or((1u32 << (p1 as u32)) | (1u32 << (p2 as u32)), 1u32 << (p3 as u32), q);
    lemma_bit_or(1u32 << (p1 as u32), 1u32 << (p2 as u32), q);
    lemma_bit_one(p1, q);
    lemma_bit_one(p2, q);
    lemma_bit_one(p3, q);
}

/// The ring-built board is a proper morris board: adjacency is symmetric and
/// no point is its own neighbour; there are `4 rings` side mills and
/// `4 (rings - 2)` spoke mills, each of three distinct points of the board;
/// and there are sixteen symmetries, the identity first.
pub proof fn lemma_ring_board_shape(b: Board, rings: int, men: u8)
    requires
        2 <= rings <= 4,
        b.ring_board(rings, men),
    ensures
        forall|a: int, q: int|
            0 <= a < b.n && 0 <= q < b.n ==> (bit(#[trigger] b.adj@[a], q) <==> bit(#[trigger] b.adj@[q], a)),
        forall|a: int| 0 <= a < b.n ==> !bit(#[trigger] b.adj@[a], a),
        b.mills@.len() == 4 * rings + 4 * (rings - 2),
        forall|j: int| 0 <= j < b.mills@.len() ==> three_point_mill(#[trigger] b.mills@[j], b.n as int),
        b.sym@.len() == 16,
        b.sym_views()[0] == identity_map(b.n as int),
{
    let n = b.n as int;
    assert forall|a: int, q: int| 0 <= a < n && 0 <= q < n implies (bit(#[trigger] b.adj@[a], q) <==> bit(
        #[trigger] b.adj@[q],
        a,
    )) by {
        lemma_ring_adj_bits(rings, a, q);
        lemma_ring_adj_bits(rings, q, a);
        let (ra, ia, rq, iq) = (a / 8, a % 8, q / 8, q % 8);
        vstd::arithmetic::div_mod::lemma_fundamental_div_mod(a, 8);
        vstd::arithmetic::div_mod::lemma_fundamental_div_mod(q, 8);
        lemma_mod8(ia + 1);
        lemma_mod8(ia + 7);
        lemma_mod8(iq + 1);
        lemma_mod8(iq + 7);
    }
    assert forall|a: int| 0 <= a < n implies !bit(#[trigger] b.adj@[a], a) by {
        lemma_ring_adj_bits(rings, a, a);
        let ia = a % 8;
        lemma_mod8(ia + 1);
        lemma_mod8(ia + 7);
    }
    let ms = ring_mills(rings);
    assert forall|j: int| 0 <= j < b.mills@.len() implies three_point_mill(#[trigger] b.mills@[j], b.n as int) by {
        if j < 4 * rings {
            let base = 8 * (j / 4);
            let sd = j % 4;
            assert(ms[j] == side_mill(base, sd));
            let p1 = base + 2 * sd;
            let p2 = base + 2 * sd + 1;
            let p3 = base + (2 * sd + 2) % 8;
            lemma_mod8(2 * sd + 2);
            assert forall|q: int| 0 <= q < 32 implies (#[trigger] bit(ms[j], q) <==> (q == p1 || q == p2 || q
                == p3)) by {
                lemma_three_bits(p1, p2, p3, q);
            }
            assert(three_points(b.mills@[j], b.n as int, p1, p2, p3));
        } else {
            let i = j - 4 * rings;
            let r = i / 4;
            let m = 2 * (i % 4) + 1;
            assert(ms[j] == spoke_mill(r, m));
            let p1 = r * 8 + m;
            let p2 = (r + 1) * 8 + m;
            let p3 = (r + 2) * 8 + m;
            assert forall|q: int| 0 <= q < 32 implies (#[trigger] bit(ms[j], q) <==> (q == p1 || q == p2 || q
                == p3)) by {
                lemma_three_bits(p1, p2, p3, q);
            }
            assert(three_points(b.mills@[j], b.n as int, p1, p2, p3));
        }
    }
}

} // verus!
