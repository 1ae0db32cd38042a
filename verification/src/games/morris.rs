//! Six men's morris — the two-ring (16-point) board, 6 men per side, no diagonals,
//! no flying. Standard capture rules: forming a mill (three in a line) removes one
//! opponent man (one not itself in a mill, unless all are); a player loses when
//! reduced below 3 men or left with no legal move.
//!
//! Solved through [`crate::reachable::RulesGame`] /
//! [`crate::reachable::solve_reachable`] — capture games drop men off the
//! board, so a dense index is awkward; we enumerate the reachable graph instead.
//!
//! Board points (two concentric squares joined at the side-midpoints):
//! ```text
//!   0 --- 1 --- 2          outer ring: 0..7  (corners 0,2,4,6; mids 1,3,5,7)
//!   |   8-9-10  |          inner ring: 8..15 (corners 8,10,12,14; mids 9,11,13,15)
//!   7  15   11  3          spokes join outer mid -> inner mid: 1-9, 3-11, 5-13, 7-15
//!   |  14-13-12 |
//!   6 --- 5 --- 4
//! ```
//!
//! The positions are 16-bit masks; the rules are those of
//! [`crate::games::morris_rules`] over this board's fixed tables.

use vstd::prelude::*;
use crate::{solved_value, Game, Outcome};
use crate::games::generic_morris::{lemma_index_value_is_rules_value, lemma_ring_board_fits, ring_adj, ring_mills, GenericMorris, State as WideState};
use crate::games::morris_rules::{
    lemma_legal_moves_on_board, legal_moves, mill_through, morris_result, morris_successors, morris_terminal, on_board,
    valid_state,
};
use crate::index::{bit, within32};
use crate::reachable::{next_fn, result_fn, state_value, RulesGame, StateKey};
use crate::retrograde::lemma_graph_map_value;

verus! {

pub const WHITE: u8 = 1;

pub const BLACK: u8 = 2;

pub const MEN: u8 = 6;

/// Adjacency bitmask per point (for sliding). Corners have 2 neighbours, mids 3.
pub open spec fn six_adj() -> Seq<u32> {
    seq![130, 517, 10, 2068, 40, 8272, 160, 32833, 33280, 1282, 2560, 5128, 10240, 20512, 40960, 16768]
}

/// The eight mills: the four sides of each square. (The spokes are only two points
/// long on a two-ring board, so they are not mills.)
pub open spec fn six_mills() -> Seq<u32> {
    seq![7, 28, 112, 193, 1792, 7168, 28672, 49408]
}

/// The generic two-ring board has exactly this board's adjacency and mills.
pub proof fn lemma_two_ring_tables()
    ensures
        Seq::new(16, |a: int| ring_adj(2, a)) == six_adj(),
        ring_mills(2) == six_mills(),
{
    // Each point's neighbour mask, then each side mill, worked out bit by bit.
    assert(((((1u32 << 1u32) | (1u32 << 7u32)) | 0u32) | 0u32) == 130u32
        && ((((1u32 << 2u32) | (1u32 << 0u32)) | 0u32) | (1u32 << 9u32)) == 517u32
        && ((((1u32 << 3u32) | (1u32 << 1u32)) | 0u32) | 0u32) == 10u32
        && ((((1u32 << 4u32) | (1u32 << 2u32)) | 0u32) | (1u32 << 11u32)) == 2068u32
        && ((((1u32 << 5u32) | (1u32 << 3u32)) | 0u32) | 0u32) == 40u32
        && ((((1u32 << 6u32) | (1u32 << 4u32)) | 0u32) | (1u32 << 13u32)) == 8272u32
        && ((((1u32 << 7u32) | (1u32 << 5u32)) | 0u32) | 0u32) == 160u32
        && ((((1u32 << 0u32) | (1u32 << 6u32)) | 0u32) | (1u32 << 15u32)) == 32833u32
        && ((((1u32 << 9u32) | (1u32 << 15u32)) | 0u32) | 0u32) == 33280u32
        && ((((1u32 << 10u32) | (1u32 << 8u32)) | (1u32 << 1u32)) | 0u32) == 1282u32
        && ((((1u32 << 11u32) | (1u32 << 9u32)) | 0u32) | 0u32) == 2560u32
        && ((((1u32 << 12u32) | (1u32 << 10u32)) | (1u32 << 3u32)) | 0u32) == 5128u32
        && ((((1u32 << 13u32) | (1u32 << 11u32)) | 0u32) | 0u32) == 10240u32
        && ((((1u32 << 14u32) | (1u32 << 12u32)) | (1u32 << 5u32)) | 0u32) == 20512u32
        && ((((1u32 << 15u32) | (1u32 << 13u32)) | 0u32) | 0u32) == 40960u32
        && ((((1u32 << 8u32) | (1u32 << 14u32)) | (1u32 << 7u32)) | 0u32) == 16768u32
        && ((1u32 << 0u32) | (1u32 << 1u32) | (1u32 << 2u32)) == 7u32
        && ((1u32 << 2u32) | (1u32 << 3u32) | (1u32 << 4u32)) == 28u32
        && ((1u32 << 4u32) | (1u32 << 5u32) | (1u32 << 6u32)) == 112u32
        && ((1u32 << 6u32) | (1u32 << 7u32) | (1u32 << 0u32)) == 193u32
        && ((1u32 << 8u32) | (1u32 << 9u32) | (1u32 << 10u32)) == 1792u32
        && ((1u32 << 10u32) | (1u32 << 11u32) | (1u32 << 12u32)) == 7168u32
        && ((1u32 << 12u32) | (1u32 << 13u32) | (1u32 << 14u32)) == 28672u32
        && ((1u32 << 14u32) | (1u32 << 15u32) | (1u32 << 8u32)) == 49408u32) by (bit_vector);
    assert(Seq::new(16, |a: int| ring_adj(2, a)) =~= six_adj());
    assert(ring_mills(2) =~= six_mills());
}

/// A mask with no point past the sixteenth survives the cut to 16 bits.
proof fn lemma_low16(m: u32)
    requires
        within32(m, 16),
    ensures
        (m as u16) as u32 == m,
{
    assert(!bit(m, 16) && !bit(m, 17) && !bit(m, 18) && !bit(m, 19) && !bit(m, 20) && !bit(m, 21) && !bit(m, 22)
        && !bit(m, 23) && !bit(m, 24) && !bit(m, 25) && !bit(m, 26) && !bit(m, 27) && !bit(m, 28) && !bit(m, 29)
        && !bit(m, 30) && !bit(m, 31));
    assert((m as u16) as u32 == m) by (bit_vector)
        requires
            (m >> 16u32) & 1u32 != 1u32 && (m >> 17u32) & 1u32 != 1u32 && (m >> 18u32) & 1u32 != 1u32 && (m
                >> 19u32) & 1u32 != 1u32 && (m >> 20u32) & 1u32 != 1u32 && (m >> 21u32) & 1u32 != 1u32 && (m
                >> 22u32) & 1u32 != 1u32 && (m >> 23u32) & 1u32 != 1u32 && (m >> 24u32) & 1u32 != 1u32 && (m
                >> 25u32) & 1u32 != 1u32 && (m >> 26u32) & 1u32 != 1u32 && (m >> 27u32) & 1u32 != 1u32 && (m
                >> 28u32) & 1u32 != 1u32 && (m >> 29u32) & 1u32 != 1u32 && (m >> 30u32) & 1u32 != 1u32 && (m
                >> 31u32) & 1u32 != 1u32,
    ;
}

/// A widened position's men lie on the sixteen points.
proof fn lemma_wide_on_board(s: State)
    ensures
        on_board(16, s.wide()),
{
    let w = s.wide();
    lemma_low_bits_clear(w.white);
    lemma_low_bits_clear(w.black);
}

proof fn lemma_low_bits_clear(m: u32)
    requires
        m < 65536,
    ensures
        within32(m, 16),
{
    assert forall|p: int| 16 <= p < 32 implies !#[trigger] bit(m, p) by {
        let pp = p as u32;
        assert((m >> pp) & 1u32 != 1u32) by (bit_vector)
            requires
                m < 65536u32,
                16u32 <= pp < 32u32,
        ;
    }
}

/// The generic morris game on the two-ring board is six men's morris: from
/// every position both end the same way and reach the same positions, in
/// the same order.
pub proof fn lemma_generic_two_ring_is_six_mens(g: &GenericMorris, s: State)
    requires
        g.board_view().ring_board(2, MEN),
    ensures
        g.result_of(s.wide()) == SixMensMorris.result_of(s),
        g.next_states(s.wide()) == SixMensMorris.next_states(s).map_values(|x: State| x.wide()),
{
    let b = g.board_view();
    lemma_two_ring_tables();
    assert(b.adj@ == six_adj());
    assert(b.mills@ == six_mills());
    lemma_ring_board_fits(b, 2, MEN);
    let w = s.wide();
    let moves = legal_moves(16, six_adj(), six_mills(), false, w);
    lemma_wide_on_board(s);
    lemma_legal_moves_on_board(16, six_adj(), six_mills(), false, w);
    let back = SixMensMorris.next_states(s).map_values(|x: State| x.wide());
    assert forall|j: int| 0 <= j < moves.len() implies #[trigger] back[j] == moves[j] by {
        assert(on_board(16, moves[j]));
        lemma_low16(moves[j].white);
        lemma_low16(moves[j].black);
    }
    assert(back =~= moves);
}

/// The generic morris solver on the two-ring board gives every position the
/// value that six men's morris gives it.
pub proof fn lemma_generic_two_ring_values(g: &GenericMorris, s: State)
    requires
        g.board_view().ring_board(2, MEN),
    ensures
        state_value(g, s.wide()) == state_value(&SixMensMorris, s),
{
    let six = SixMensMorris;
    let f = |x: State| x.wide();
    let dom = |x: State| true;
    let ta = result_fn(&six);
    let sa = next_fn(&six);
    let tb = result_fn(g);
    let sb = next_fn(g);
    assert forall|a: State| #[trigger] dom(a) implies tb(f(a)) == ta(a) by {
        lemma_generic_two_ring_is_six_mens(g, a);
    }
    assert forall|a: State| #[trigger] dom(a) && ta(a) is None implies sb(f(a)) == sa(a).map_values(f)
        && forall|m: int| 0 <= m < sa(a).len() ==> dom(#[trigger] sa(a)[m]) by {
        lemma_generic_two_ring_is_six_mens(g, a);
        assert(sa(a).map_values(f) =~= six.next_states(a).map_values(|x: State| x.wide()));
    }
    lemma_graph_map_value(ta, sa, tb, sb, f, dom, s);
}

/// Solving the densely indexed two-ring game gives every legal six men's
/// morris position, at its index, the value that six men's morris gives it.
pub proof fn lemma_dense_two_ring_values(g: &GenericMorris, s: State)
    requires
        g.wf(),
        g.board_view().ring_board(2, MEN),
        valid_state(16, MEN as int, s.wide()),
    ensures
        solved_value(g, g.index_of(s.wide())) == state_value(&SixMensMorris, s),
{
    lemma_index_value_is_rules_value(g, s.wide());
    lemma_generic_two_ring_values(g, s);
}

fn adj_table() -> (r: [u32; 16])
    ensures
        r@ == six_adj(),
{
    let r = [130, 517, 10, 2068, 40, 8272, 160, 32833, 33280, 1282, 2560, 5128, 10240, 20512, 40960, 16768];
    assert(r@ =~= six_adj());
    r
}

fn mill_table() -> (r: [u32; 8])
    ensures
        r@ == six_mills(),
{
    let r = [7, 28, 112, 193, 1792, 7168, 28672, 49408];
    assert(r@ =~= six_mills());
    r
}

#[derive(Clone, Copy, PartialEq, Eq, Debug)]
pub struct State {
    pub white: u16,  // bitmask over the 16 points
    pub black: u16,
    pub w_hand: u8,  // white men not yet placed
    pub b_hand: u8,
    pub turn: u8,  // WHITE or BLACK
}

pub struct SixMensMorris;

impl State {
    /// The same position with 32-bit masks.
    pub open spec fn wide(self) -> WideState {
        WideState {
            white: self.white as u32,
            black: self.black as u32,
            w_hand: self.w_hand,
            b_hand: self.b_hand,
            turn: self.turn,
        }
    }

    fn widen(&self) -> (r: WideState)
        ensures
            r == self.wide(),
    {
        WideState {
            white: self.white as u32,
            black: self.black as u32,
            w_hand: self.w_hand,
            b_hand: self.b_hand,
            turn: self.turn,
        }
    }
}

/// A 32-bit position cut back to this board's 16 points.
pub open spec fn narrow(g: WideState) -> State {
    State { white: g.white as u16, black: g.black as u16, w_hand: g.w_hand, b_hand: g.b_hand, turn: g.turn }
}

fn narrowed(g: &WideState) -> (r: State)
    ensures
        r == narrow(*g),
{
    State { white: g.white as u16, black: g.black as u16, w_hand: g.w_hand, b_hand: g.b_hand, turn: g.turn }
}

/// Does `mask` hold a whole mill through `point`?
pub fn completes_mill(mask: u16, point: usize) -> (r: bool)
    requires
        point < 32,
    ensures
        r == mill_through(six_mills(), mask as u32, point as int),
{
    let mills = mill_table();
    crate::games::morris_rules::completes_mill(mills.as_slice(), mask as u32, point)
}

/// The key of a position: its five fields side by side.
pub open spec fn key_of(s: State) -> u128 {
    (s.white as u128) | ((s.black as u128) << 16u128) | ((s.w_hand as u128) << 32u128) | ((
    s.b_hand as u128) << 40u128) | ((s.turn as u128) << 48u128)
}

proof fn lemma_key_of_injective(a: State, b: State)
    requires
        key_of(a) == key_of(b),
    ensures
        a == b,
{
    let (w1, k1, x1, y1, t1) = (a.white, a.black, a.w_hand, a.b_hand, a.turn);
    let (w2, k2, x2, y2, t2) = (b.white, b.black, b.w_hand, b.b_hand, b.turn);
    assert(w1 == w2 && k1 == k2 && x1 == x2 && y1 == y2 && t1 == t2) by (bit_vector)
        requires
            (w1 as u128) | ((k1 as u128) << 16u128) | ((x1 as u128) << 32u128) | ((y1 as u128) << 40u128)
                | ((t1 as u128) << 48u128) == (w2 as u128) | ((k2 as u128) << 16u128) | ((x2 as u128)
                << 32u128) | ((y2 as u128) << 40u128) | ((t2 as u128) << 48u128),
    ;
}

impl StateKey for State {
    open spec fn key_exact(&self) -> bool {
        true
    }

    open spec fn key_spec(&self) -> u128 {
        key_of(*self)
    }

    fn same(&self, other: &Self) -> (r: bool) {
        self.white == other.white && self.black == other.black && self.w_hand == other.w_hand && self.b_hand
            == other.b_hand && self.turn == other.turn
    }

    fn key(&self) -> (r: u128) {
        (self.white as u128) | ((self.black as u128) << 16u128) | ((self.w_hand as u128) << 32u128) | ((
        self.b_hand as u128) << 40u128) | ((self.turn as u128) << 48u128)
    }

    proof fn lemma_key_injective(a: Self, b: Self) {
        lemma_key_of_injective(a, b);
    }
}

impl RulesGame for SixMensMorris {
    type State = State;

    open spec fn rules_ok(&self) -> bool {
        true
    }

    open spec fn legal_state(&self, s: State) -> bool {
        true
    }

    open spec fn initial(&self) -> State {
        State { white: 0, black: 0, w_hand: MEN, b_hand: MEN, turn: WHITE }
    }

    open spec fn next_states(&self, s: State) -> Seq<State> {
        legal_moves(16, six_adj(), six_mills(), false, s.wide()).map_values(|g: WideState| narrow(g))
    }

    open spec fn result_of(&self, s: State) -> Option<Outcome> {
        morris_result(16, six_adj(), false, s.wide())
    }

    fn start(&self) -> (r: State) {
        State { white: 0, black: 0, w_hand: MEN, b_hand: MEN, turn: WHITE }
    }

    fn successors(&self, s: &State) -> (r: Vec<State>) {
        let adj = adj_table();
        let mills = mill_table();
        let wide = morris_successors(16, adj.as_slice(), mills.as_slice(), false, &s.widen());
        let mut out: Vec<State> = Vec::new();
        let mut i: usize = 0;
        while i < wide.len()
            invariant
                i <= wide@.len(),
                out@ == wide@.subrange(0, i as int).map_values(|g: WideState| narrow(g)),
            decreases wide@.len() - i,
        {
            out.push(narrowed(&wide[i]));
            proof {
                assert(wide@.subrange(0, i as int + 1).map_values(|g: WideState| narrow(g)) =~= wide@.subrange(
                    0,
                    i as int,
                ).map_values(|g: WideState| narrow(g)).push(narrow(wide@[i as int])));
            }
            i += 1;
        }
        proof {
            assert(wide@.subrange(0, i as int) =~= wide@);
        }
        out
    }

    proof fn lemma_next_legal(&self, s: State, k: int) {
    }

    proof fn lemma_legal_exact(&self, s: State) {
    }

    fn terminal(&self, s: &State) -> (r: Option<Outcome>) {
        // Only the movement phase (both hands empty) has terminal positions:
        // the side to move loses if reduced below 3 men or unable to move.
        let adj = adj_table();
        morris_terminal(16, adj.as_slice(), false, &s.widen())
    }
}

} // verus!
