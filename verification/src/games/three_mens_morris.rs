//! Three men's morris (Tapatan ruleset: 3x3 grid, diagonals are both mill lines
//! and move connections). Each player has three men. Phase 1: alternately place
//! all three. Phase 2: slide a man to an adjacent point. A player wins by forming
//! a mill (all three men on a line) or by leaving the opponent with no legal move.
//! With only three men and a movement phase, positions can repeat — so this is the
//! engine's first genuinely *cyclic* game, where unresolved positions are draws.
//!
//! The mill lines and adjacency are the eight tic-tac-toe lines; adjacency is the
//! king-move graph they induce (centre connects to all eight).

use vstd::prelude::*;
use crate::{Game, Outcome};
use crate::retrograde::occurrences;
use crate::games::grid::{
    base3, cells_ok, count_cells, decode, digits, encode, grid_of, has_line, has_line_spec,
    lemma_base3_bound, lemma_base3_of_digits, lemma_digits_of_base3, lemma_digits_ok, lemma_grid_of,
    lemma_grid_of_seq, pow3,
};

verus! {

pub const EMPTY: u8 = 0;

pub const WHITE: u8 = 1;  // first player

pub const BLACK: u8 = 2;

pub const MEN: u8 = 3;

/// Adjacency bitmask of point `i` (king moves on the 3x3, derived from
/// consecutive cells on the lines): the centre touches all eight.
pub open spec fn adj_spec(i: int) -> u16 {
    if i == 0 {
        26
    } else if i == 1 {
        21
    } else if i == 2 {
        50
    } else if i == 3 {
        81
    } else if i == 4 {
        495
    } else if i == 5 {
        276
    } else if i == 6 {
        152
    } else if i == 7 {
        336
    } else {
        176
    }
}

fn adj(i: usize) -> (r: u16)
    requires
        i < 9,
    ensures
        r == adj_spec(i as int),
{
    match i {
        0 => 26,
        1 => 21,
        2 => 50,
        3 => 81,
        4 => 495,
        5 => 276,
        6 => 152,
        7 => 336,
        _ => 176,
    }
}

/// Point `j` is adjacent to point `i`.
pub open spec fn adjacent(i: int, j: int) -> bool {
    (adj_spec(i) >> (j as u16)) & 1u16 == 1u16
}

/// Points `i` and `j` are consecutive on a row, a column or a diagonal of the
/// board: orthogonal neighbours, or one of them the centre and the other any
/// other point.
pub open spec fn line_neighbours(i: int, j: int) -> bool {
    ||| (i / 3 == j / 3 && (i % 3 == j % 3 + 1 || j % 3 == i % 3 + 1))
    ||| (i % 3 == j % 3 && (i / 3 == j / 3 + 1 || j / 3 == i / 3 + 1))
    ||| (i != j && (i == 4 || j == 4))
}

/// Adjacency is what the eight lines induce: two points are neighbours
/// exactly when they are consecutive on a row, a column or a diagonal, that
/// is, when they are orthogonal neighbours or one of them is the centre (so
/// every corner touches the centre, and the centre touches every point).
pub proof fn lemma_adjacent_on_lines(i: int, j: int)
    requires
        0 <= i < 9,
        0 <= j < 9,
    ensures
        adjacent(i, j) <==> line_neighbours(i, j),
{
    let a = adj_spec(i);
    let ii = i as u16;
    let jj = j as u16;
    assert(((a >> jj) & 1u16 == 1u16) == ((ii / 3 == jj / 3 && (ii % 3 == jj % 3 + 1 || jj % 3 == ii % 3 + 1))
        || (ii % 3 == jj % 3 && (ii / 3 == jj / 3 + 1 || jj / 3 == ii / 3 + 1)) || (ii != jj && (ii == 4 || jj
        == 4)))) by (bit_vector)
        requires
            ii < 9u16,
            jj < 9u16,
            ii == 0u16 ==> a == 26u16,
            ii == 1u16 ==> a == 21u16,
            ii == 2u16 ==> a == 50u16,
            ii == 3u16 ==> a == 81u16,
            ii == 4u16 ==> a == 495u16,
            ii == 5u16 ==> a == 276u16,
            ii == 6u16 ==> a == 152u16,
            ii == 7u16 ==> a == 336u16,
            ii == 8u16 ==> a == 176u16,
    ;
}

#[derive(Clone, Copy, PartialEq, Eq, Debug)]
pub struct Pos {
    pub cells: [u8; 9],
    pub w_hand: u8,  // white men not yet placed
    pub b_hand: u8,
    pub turn: u8,  // WHITE or BLACK
}

pub struct ThreeMensMorris;

pub open spec fn other_spec(player: u8) -> u8 {
    if player == WHITE {
        BLACK
    } else {
        WHITE
    }
}

impl Pos {
    pub open spec fn hand_spec(self, player: u8) -> u8 {
        if player == WHITE {
            self.w_hand
        } else {
            self.b_hand
        }
    }

    /// `player` has a man next to an empty point.
    pub open spec fn can_slide(self, player: u8) -> bool {
        exists|i: int, j: int|
            0 <= i < 9 && 0 <= j < 9 && #[trigger] self.cells@[i] == player && adjacent(i, j)
                && #[trigger] self.cells@[j] == EMPTY
    }

    /// The side to move drops a man on point `i`.
    pub open spec fn place(self, i: int) -> Pos {
        let stm = self.turn;
        Pos {
            cells: grid_of(self.cells@.update(i, stm)),
            w_hand: if stm == WHITE {
                (self.w_hand - 1) as u8
            } else {
                self.w_hand
            },
            b_hand: if stm == WHITE {
                self.b_hand
            } else {
                (self.b_hand - 1) as u8
            },
            turn: other_spec(stm),
        }
    }

    /// The side to move slides its man from `i` to `j`.
    pub open spec fn slide(self, i: int, j: int) -> Pos {
        Pos {
            cells: grid_of(self.cells@.update(i, EMPTY).update(j, self.turn)),
            turn: other_spec(self.turn),
            ..self
        }
    }

    /// Placements on the empty points among `0..k`, in order.
    pub open spec fn placements(self, k: nat) -> Seq<Pos>
        decreases k,
    {
        if k == 0 {
            Seq::empty()
        } else {
            let prev = self.placements((k - 1) as nat);
            if self.cells@[k - 1] == EMPTY {
                prev.push(self.place(k - 1))
            } else {
                prev
            }
        }
    }

    /// Slides of the man on `i` to the empty neighbours among `0..k`, in order.
    pub open spec fn slides_from(self, i: int, k: nat) -> Seq<Pos>
        decreases k,
    {
        if k == 0 {
            Seq::empty()
        } else {
            let prev = self.slides_from(i, (k - 1) as nat);
            if adjacent(i, k - 1) && self.cells@[k - 1] == EMPTY {
                prev.push(self.slide(i, k - 1))
            } else {
                prev
            }
        }
    }

    /// Slides of the mover's men on the points among `0..k`, in order.
    pub open spec fn slides(self, k: nat) -> Seq<Pos>
        decreases k,
    {
        if k == 0 {
            Seq::empty()
        } else {
            let prev = self.slides((k - 1) as nat);
            if self.cells@[k - 1] == self.turn {
                prev + self.slides_from(k - 1, 9)
            } else {
                prev
            }
        }
    }

    /// The legal moves: placements while the mover has men in hand, else slides.
    pub open spec fn legal_moves(self) -> Seq<Pos> {
        if self.hand_spec(self.turn) > 0 {
            self.placements(9)
        } else {
            self.slides(9)
        }
    }

    /// The outcome for the side to move, if the game is over.
    pub open spec fn result(self) -> Option<Outcome> {
        let wm = has_line_spec(self.cells@, WHITE);
        let bm = has_line_spec(self.cells@, BLACK);
        if wm && bm {
            Some(Outcome::Draw)
        } else if (if self.turn == WHITE {
            bm
        } else {
            wm
        }) {
            Some(Outcome::Loss)
        } else if self.w_hand == 0 && self.b_hand == 0 && !self.can_slide(self.turn) {
            Some(Outcome::Loss)
        } else {
            None
        }
    }

    /// A well-formed position: cells hold 0, 1 or 2, hands at most three, and
    /// a side to move.
    pub open spec fn ok(self) -> bool {
        &&& cells_ok(self.cells@)
        &&& self.w_hand < 4
        &&& self.b_hand < 4
        &&& (self.turn == WHITE || self.turn == BLACK)
    }

    fn count(&self, player: u8) -> (r: u8)
        ensures
            r == occurrences(self.cells@, player),
            r <= 9,
    {
        count_cells(&self.cells, player)
    }

    fn has_mill(&self, player: u8) -> (r: bool)
        ensures
            r == has_line_spec(self.cells@, player),
    {
        has_line(&self.cells, player)
    }

    fn hand(&self, player: u8) -> (r: u8)
        ensures
            r == self.hand_spec(player),
    {
        if player == WHITE {
            self.w_hand
        } else {
            self.b_hand
        }
    }

    fn other(player: u8) -> (r: u8)
        ensures
            r == other_spec(player),
    {
        if player == WHITE {
            BLACK
        } else {
            WHITE
        }
    }

    /// Does `player` (to move) have at least one legal slide? (Movement phase only.)
    fn has_slide(&self, player: u8) -> (r: bool)
        ensures
            r == self.can_slide(player),
    {
        let mut i: usize = 0;
        while i < 9
            invariant
                i <= 9,
                forall|a: int, b: int|
                    0 <= a < i && 0 <= b < 9 ==> !(#[trigger] self.cells@[a] == player && adjacent(a, b)
                        && #[trigger] self.cells@[b] == EMPTY),
            decreases 9 - i,
        {
            if self.cells[i] == player {
                let m = adj(i);
                let mut j: usize = 0;
                while j < 9
                    invariant
                        i < 9,
                        j <= 9,
                        m == adj_spec(i as int),
                        self.cells@[i as int] == player,
                        forall|b: int| 0 <= b < j ==> !(adjacent(i as int, b) && #[trigger] self.cells@[b] == EMPTY),
                    decreases 9 - j,
                {
                    if (m >> (j as u16)) & 1 == 1 && self.cells[j] == EMPTY {
                        assert(adjacent(i as int, j as int));
                        return true;
                    }
                    j += 1;
                }
            }
            i += 1;
        }
        false
    }
}

/// The index of a position: board, hands and side to move in mixed radix.
pub open spec fn pos_index(p: Pos) -> int {
    ((base3(p.cells@) * 4 + p.w_hand) * 4 + p.b_hand) * 2 + (if p.turn == WHITE { 0int } else { 1int })
}

/// The position an index spells out, before the men-count check.
pub open spec fn pos_at(i: int) -> Pos {
    Pos {
        cells: grid_of(digits(i / 2 / 4 / 4, 9)),
        w_hand: (i / 2 / 4 % 4) as u8,
        b_hand: (i / 2 % 4) as u8,
        turn: if i % 2 == 0 {
            WHITE
        } else {
            BLACK
        },
    }
}

/// Where a point of the three-by-three board lies.
#[derive(Clone, Copy, PartialEq, Eq, Debug)]
pub enum PointKind {
    Corner,
    Edge,
    Centre,
}

/// The kind of point `i` (points numbered row by row).
pub open spec fn kind_of_point(i: int) -> PointKind {
    if i == 4 {
        PointKind::Centre
    } else if i % 2 == 0 {
        PointKind::Corner
    } else {
        PointKind::Edge
    }
}

/// The kind of point `i`: the middle one is the centre, the others at even
/// numbers the corners, the rest the edges.
pub fn point_kind(i: usize) -> (k: PointKind)
    ensures
        k == kind_of_point(i as int),
{
    if i == 4 {
        PointKind::Centre
    } else if i % 2 == 0 {
        PointKind::Corner
    } else {
        PointKind::Edge
    }
}

impl ThreeMensMorris {
    /// White's opening placement on point `i`: the start with White's man on
    /// `i`, one fewer man in White's hand, and Black to move.
    pub fn opening(&self, i: usize) -> (r: Pos)
        requires
            i < 9,
        ensures
            r == self.start_state().place(i as int),
            self.valid(r),
    {
        let mut p = self.start();
        p.cells[i] = WHITE;
        p.w_hand = p.w_hand - 1;
        p.turn = BLACK;
        proof {
            let s = self.start_state();
            lemma_grid_of(p.cells);
            assert(p.cells@ == s.cells@.update(i as int, WHITE));
            assert(cells_ok(p.cells@)) by {
                assert forall|c: int| 0 <= c < 9 implies #[trigger] p.cells@[c] < 3 by {
                    if c != i {
                        assert(p.cells@[c] == s.cells@[c]);
                    }
                }
            }
            assert(p == s.place(i as int));
        }
        p
    }
}

impl Game for ThreeMensMorris {
    type State = Pos;

    open spec fn wf(&self) -> bool {
        true
    }

    open spec fn state_count(&self) -> nat {
        629856
    }

    open spec fn valid(&self, p: Pos) -> bool {
        p.ok()
    }

    open spec fn index_of(&self, p: Pos) -> int {
        pos_index(p)
    }

    open spec fn decode(&self, i: int) -> Option<Pos> {
        let p = pos_at(i);
        // No captures in three men's morris, so men on the board plus men in
        // hand is always exactly MEN; anything else is unreachable.
        if occurrences(p.cells@, WHITE) + p.w_hand == MEN && occurrences(p.cells@, BLACK) + p.b_hand
            == MEN {
            Some(p)
        } else {
            None
        }
    }

    open spec fn start_state(&self) -> Pos {
        Pos { cells: grid_of(Seq::new(9, |c: int| EMPTY)), w_hand: MEN, b_hand: MEN, turn: WHITE }
    }

    open spec fn moves(&self, p: Pos) -> Seq<Pos> {
        p.legal_moves()
    }

    open spec fn outcome(&self, p: Pos) -> Option<Outcome> {
        p.result()
    }

    fn num_states(&self) -> (r: u64) {
        // base-3 board (3^9) x w_hand(0..3) x b_hand(0..3) x turn(2)
        629856
    }

    fn index(&self, p: &Pos) -> (r: u64) {
        let board = encode(&p.cells);
        let t: u64 = if p.turn == WHITE {
            0
        } else {
            1
        };
        ((board * 4 + p.w_hand as u64) * 4 + p.b_hand as u64) * 2 + t
    }

    fn from_index(&self, i: u64) -> (r: Option<Pos>) {
        let t = i % 2;
        let i = i / 2;
        let b_hand = (i % 4) as u8;
        let i = i / 4;
        let w_hand = (i % 4) as u8;
        let board = i / 4;
        let cells = decode(board);
        let p = Pos {
            cells,
            w_hand,
            b_hand,
            turn: if t == 0 {
                WHITE
            } else {
                BLACK
            },
        };
        proof {
            lemma_grid_of(cells);
        }
        if p.count(WHITE) + w_hand == MEN && p.count(BLACK) + b_hand == MEN {
            Some(p)
        } else {
            None
        }
    }

    fn start(&self) -> (r: Pos) {
        let p = Pos { cells: [EMPTY; 9], w_hand: MEN, b_hand: MEN, turn: WHITE };
        proof {
            lemma_grid_of(p.cells);
            assert(p.cells@ =~= Seq::new(9, |c: int| EMPTY));
            assert(cells_ok(p.cells@));
        }
        p
    }

    fn successors(&self, p: &Pos) -> (r: Vec<Pos>) {
        let stm = p.turn;
        let opp = Pos::other(stm);
        let mut out: Vec<Pos> = Vec::new();
        if p.hand(stm) > 0 {
            // Placement: drop a man on any empty point.
            let mut i: usize = 0;
            while i < 9
                invariant
                    i <= 9,
                    p.ok(),
                    stm == p.turn,
                    opp == other_spec(stm),
                    p.hand_spec(stm) > 0,
                    out@ == p.placements(i as nat),
                    forall|k: int| 0 <= k < out@.len() ==> (#[trigger] out@[k]).ok(),
                decreases 9 - i,
            {
                if p.cells[i] == EMPTY {
                    let mut n = *p;
                    n.cells[i] = stm;
                    if stm == WHITE {
                        n.w_hand = n.w_hand - 1;
                    } else {
                        n.b_hand = n.b_hand - 1;
                    }
                    n.turn = opp;
                    proof {
                        lemma_grid_of(n.cells);
                        assert(n.cells@ == p.cells@.update(i as int, stm));
                        assert(cells_ok(n.cells@)) by {
                            assert forall|c: int| 0 <= c < 9 implies #[trigger] n.cells@[c] < 3 by {
                                if c != i {
                                    assert(n.cells@[c] == p.cells@[c]);
                                }
                            }
                        }
                        assert(n == p.place(i as int));
                    }
                    out.push(n);
                }
                i += 1;
            }
        } else {
            // Movement: slide a man to an adjacent empty point.
            let mut i: usize = 0;
            while i < 9
                invariant
                    i <= 9,
                    p.ok(),
                    stm == p.turn,
                    opp == other_spec(stm),
                    out@ == p.slides(i as nat),
                    forall|k: int| 0 <= k < out@.len() ==> (#[trigger] out@[k]).ok(),
                decreases 9 - i,
            {
                if p.cells[i] == stm {
                    let m = adj(i);
                    let ghost before = out@;
                    let mut j: usize = 0;
                    while j < 9
                        invariant
                            i < 9,
                            j <= 9,
                            p.ok(),
                            stm == p.turn,
                            opp == other_spec(stm),
                            m == adj_spec(i as int),
                            p.cells@[i as int] == stm,
                            out@ == before + p.slides_from(i as int, j as nat),
                            forall|k: int| 0 <= k < out@.len() ==> (#[trigger] out@[k]).ok(),
                        decreases 9 - j,
                    {
                        if (m >> (j as u16)) & 1 == 1 && p.cells[j] == EMPTY {
                            let mut n = *p;
                            n.cells[i] = EMPTY;
                            n.cells[j] = stm;
                            n.turn = opp;
                            proof {
                                lemma_grid_of(n.cells);
                                assert(n.cells@ == p.cells@.update(i as int, EMPTY).update(j as int, stm));
                                assert(cells_ok(n.cells@)) by {
                                    assert forall|c: int| 0 <= c < 9 implies #[trigger] n.cells@[c] < 3 by {
                                        if c != i && c != j {
                                            assert(n.cells@[c] == p.cells@[c]);
                                        }
                                    }
                                }
                                assert(n == p.slide(i as int, j as int));
                                assert(before + p.slides_from(i as int, j as nat + 1) =~= (before
                                    + p.slides_from(i as int, j as nat)).push(n));
                            }
                            out.push(n);
                        } else {
                            proof {
                                assert(p.slides_from(i as int, j as nat + 1) == p.slides_from(i as int, j as nat));
                            }
                        }
                        j += 1;
                    }
                    proof {
                        assert(p.slides(i as nat + 1) == p.slides(i as nat) + p.slides_from(i as int, 9));
                    }
                }
                i += 1;
            }
        }
        out
    }

    fn terminal(&self, p: &Pos) -> (r: Option<Outcome>) {
        let wm = p.has_mill(WHITE);
        let bm = p.has_mill(BLACK);
        if wm && bm {
            return Some(Outcome::Draw);  // unreachable; inert
        }
        let stm = p.turn;
        // The opponent just moved; if they completed a mill, the side to move lost.
        let opponent_mill = if stm == WHITE {
            bm
        } else {
            wm
        };
        if opponent_mill {
            return Some(Outcome::Loss);
        }
        // Movement phase with no legal slide: the side to move is stuck and loses.
        if p.w_hand == 0 && p.b_hand == 0 && !p.has_slide(stm) {
            return Some(Outcome::Loss);
        }
        None
    }
}

/// The index is a bijection on the positions it keeps: a position decodes
/// from its index exactly when its men on the board and in hand make three a
/// side, and whatever an index decodes to has that index.
pub proof fn lemma_index_round_trip(p: Pos, i: int)
    requires
        p.ok(),
        0 <= i < 629856,
    ensures
        ThreeMensMorris.decode(ThreeMensMorris.index_of(p)) == if occurrences(p.cells@, WHITE) + p.w_hand == MEN
            && occurrences(p.cells@, BLACK) + p.b_hand == MEN {
            Some(p)
        } else {
            None::<Pos>
        },
        ThreeMensMorris.decode(i) matches Some(d) ==> ThreeMensMorris.index_of(d) == i,
{
    let bd = base3(p.cells@);
    lemma_base3_bound(p.cells@);
    lemma_digits_of_base3(p.cells@);
    lemma_grid_of(p.cells);
    let t: int = if p.turn == WHITE { 0 } else { 1 };
    let x = ((bd * 4 + p.w_hand) * 4 + p.b_hand) * 2 + t;
    vstd::arithmetic::div_mod::lemma_fundamental_div_mod_converse(x, 2, (bd * 4 + p.w_hand) * 4 + p.b_hand, t);
    vstd::arithmetic::div_mod::lemma_fundamental_div_mod_converse((bd * 4 + p.w_hand) * 4 + p.b_hand, 4, bd * 4 + p.w_hand, p.b_hand as int);
    vstd::arithmetic::div_mod::lemma_fundamental_div_mod_converse(bd * 4 + p.w_hand, 4, bd, p.w_hand as int);
    assert(pos_at(x) == p);
    // The other way round.
    reveal_with_fuel(pow3, 10);
    let q = pos_at(i);
    vstd::arithmetic::div_mod::lemma_fundamental_div_mod(i, 2);
    vstd::arithmetic::div_mod::lemma_fundamental_div_mod(i / 2, 4);
    vstd::arithmetic::div_mod::lemma_fundamental_div_mod(i / 2 / 4, 4);
    let b = i / 2 / 4 / 4;
    assert(0 <= b < 19683);
    lemma_digits_ok(b, 9);
    lemma_base3_of_digits(b, 9);
    lemma_grid_of_seq(digits(b, 9));
    assert(q.cells@ == digits(b, 9));
}

/// `t` is the position after the side to move at `p` slides its man on `i`
/// to the empty neighbouring point `j`.
pub open spec fn slides_to(p: Pos, t: Pos, i: int, j: int) -> bool {
    &&& 0 <= i < 9 && 0 <= j < 9
    &&& p.cells@[i] == p.turn
    &&& p.cells@[j] == EMPTY
    &&& line_neighbours(i, j)
    &&& t.cells@ == p.cells@.update(i, EMPTY).update(j, p.turn)
    &&& t.w_hand == p.w_hand && t.b_hand == p.b_hand
    &&& t.turn == other_spec(p.turn)
}

/// `t` is a slide of the man on `i` at `p` to an empty neighbouring point.
pub open spec fn slid_from(p: Pos, t: Pos, i: int) -> bool {
    exists|j: int| slides_to(p, t, i, j)
}

/// `t` is a slide, at `p`, of a man of the side to move to an empty
/// neighbouring point.
pub open spec fn is_slide(p: Pos, t: Pos) -> bool {
    exists|i: int| slid_from(p, t, i)
}

proof fn lemma_slides_from_rule(p: Pos, i: int, k: nat)
    requires
        0 <= i < 9,
        p.cells@[i] == p.turn,
        k <= 9,
    ensures
        forall|m: int| 0 <= m < p.slides_from(i, k).len() ==> slid_from(p, #[trigger] p.slides_from(i, k)[m], i),
        forall|j: int| 0 <= j < k && #[trigger] p.cells@[j] == EMPTY && line_neighbours(i, j) ==> p.slides_from(i, k).contains(p.slide(i, j)),
    decreases k,
{
    if k > 0 {
        lemma_slides_from_rule(p, i, (k - 1) as nat);
        let prev = p.slides_from(i, (k - 1) as nat);
        let cur = p.slides_from(i, k);
        lemma_adjacent_on_lines(i, k - 1);
        lemma_grid_of_seq(p.cells@.update(i, EMPTY).update(k - 1, p.turn));
        assert forall|m: int| 0 <= m < cur.len() implies slid_from(p, #[trigger] cur[m], i) by {
            if m < prev.len() {
                assert(cur[m] == prev[m]);
            } else {
                let j = k - 1;
                assert(cur[m] == p.slide(i, j));
                assert(slides_to(p, cur[m], i, j));
            }
        }
        assert forall|j: int| 0 <= j < k && #[trigger] p.cells@[j] == EMPTY && line_neighbours(i, j) implies cur.contains(
            p.slide(i, j),
        ) by {
            lemma_adjacent_on_lines(i, j);
            if j < k - 1 {
                let m = choose|m: int| 0 <= m < prev.len() && prev[m] == p.slide(i, j);
                assert(cur[m] == prev[m]);
            } else {
                assert(cur[prev.len() as int] == p.slide(i, j));
            }
        }
    }
}

proof fn lemma_slides_rule(p: Pos, k: nat)
    requires
        k <= 9,
    ensures
        forall|m: int| 0 <= m < p.slides(k).len() ==> is_slide(p, #[trigger] p.slides(k)[m]),
        forall|i: int, j: int|
            0 <= i < k && 0 <= j < 9 && #[trigger] p.cells@[i] == p.turn && #[trigger] p.cells@[j] == EMPTY
                && line_neighbours(i, j) ==> p.slides(k).contains(p.slide(i, j)),
    decreases k,
{
    if k > 0 {
        lemma_slides_rule(p, (k - 1) as nat);
        let prev = p.slides((k - 1) as nat);
        let cur = p.slides(k);
        if p.cells@[k - 1] == p.turn {
            lemma_slides_from_rule(p, k - 1, 9);
            let outs = p.slides_from(k - 1, 9);
            assert(cur == prev + outs);
            assert forall|m: int| 0 <= m < cur.len() implies is_slide(p, #[trigger] cur[m]) by {
                if m < prev.len() {
                    assert(cur[m] == prev[m]);
                } else {
                    let mm = m - prev.len();
                    let f = k - 1;
                    assert(cur[m] == outs[mm]);
                    assert(slid_from(p, outs[mm], f));
                    assert(slid_from(p, cur[m], f));
                }
            }
            assert forall|i: int, j: int|
                0 <= i < k && 0 <= j < 9 && #[trigger] p.cells@[i] == p.turn && #[trigger] p.cells@[j] == EMPTY
                    && line_neighbours(i, j) implies cur.contains(p.slide(i, j)) by {
                if i < k - 1 {
                    let m = choose|m: int| 0 <= m < prev.len() && prev[m] == p.slide(i, j);
                    assert(cur[m] == prev[m]);
                } else {
                    let m = choose|m: int| 0 <= m < outs.len() && outs[m] == p.slide(i, j);
                    assert(cur[prev.len() + m] == outs[m]);
                }
            }
        } else {
            assert(cur == prev);
            assert forall|m: int| 0 <= m < cur.len() implies is_slide(p, #[trigger] cur[m]) by {
                assert(cur[m] == prev[m]);
            }
        }
    }
}

/// In the movement phase the moves are exactly the slides: every legal move
/// takes a man of the side to move to an empty point consecutive with it on a
/// row, column or diagonal (emptying the point it left, hands unchanged, the
/// other side to move), and every such slide is a legal move.
pub proof fn lemma_movement_rule(p: Pos)
    requires
        p.hand_spec(p.turn) == 0,
    ensures
        forall|m: int| 0 <= m < p.legal_moves().len() ==> is_slide(p, #[trigger] p.legal_moves()[m]),
        forall|i: int, j: int|
            0 <= i < 9 && 0 <= j < 9 && #[trigger] p.cells@[i] == p.turn && #[trigger] p.cells@[j] == EMPTY
                && line_neighbours(i, j) ==> p.legal_moves().contains(p.slide(i, j)) && slides_to(p, p.slide(i, j), i, j),
{
    lemma_slides_rule(p, 9);
    assert forall|i: int, j: int|
        0 <= i < 9 && 0 <= j < 9 && #[trigger] p.cells@[i] == p.turn && #[trigger] p.cells@[j] == EMPTY
            && line_neighbours(i, j) implies slides_to(p, p.slide(i, j), i, j) by {
        lemma_grid_of_seq(p.cells@.update(i, EMPTY).update(j, p.turn));
    }
}

/// How three men's morris ends: the side to move has lost when the other
/// side holds a line and it holds none; with no line on the board, the game
/// goes on while a man is in hand, and once all men are placed the side to
/// move has lost exactly when it has no legal move.
pub proof fn lemma_end_rule(p: Pos)
    requires
        p.turn == WHITE || p.turn == BLACK,
    ensures
        has_line_spec(p.cells@, other_spec(p.turn)) && !has_line_spec(p.cells@, p.turn) ==> p.result() == Some(
            Outcome::Loss,
        ),
        !has_line_spec(p.cells@, WHITE) && !has_line_spec(p.cells@, BLACK) && (p.w_hand > 0 || p.b_hand > 0)
            ==> p.result() is None,
        !has_line_spec(p.cells@, WHITE) && !has_line_spec(p.cells@, BLACK) && p.w_hand == 0 && p.b_hand == 0 ==> (
        p.result() == Some(Outcome::Loss) <==> p.legal_moves().len() == 0),
        !has_line_spec(p.cells@, WHITE) && !has_line_spec(p.cells@, BLACK) && p.w_hand == 0 && p.b_hand == 0
            ==> p.result() != Some(Outcome::Draw),
{
    if p.w_hand == 0 && p.b_hand == 0 {
        assert(p.hand_spec(p.turn) == 0);
        lemma_movement_rule(p);
        if p.can_slide(p.turn) {
            let (i, j) = choose|i: int, j: int|
                0 <= i < 9 && 0 <= j < 9 && #[trigger] p.cells@[i] == p.turn && adjacent(i, j)
                    && #[trigger] p.cells@[j] == EMPTY;
            lemma_adjacent_on_lines(i, j);
            assert(p.legal_moves().contains(p.slide(i, j)));
        } else if p.legal_moves().len() > 0 {
            assert(is_slide(p, p.legal_moves()[0]));
            let i = choose|i: int| slid_from(p, p.legal_moves()[0], i);
            let j = choose|j: int| slides_to(p, p.legal_moves()[0], i, j);
            lemma_adjacent_on_lines(i, j);
            assert(p.can_slide(p.turn));
        }
    }
}

/// `t` is `p` after the side to move drops a man from its hand on the empty
/// point `i`: the point now holds its man, its hand has one man fewer, the
/// other hand is unchanged, and the other side is to move.
pub open spec fn drops_on(p: Pos, t: Pos, i: int) -> bool {
    &&& 0 <= i < 9
    &&& p.cells@[i] == EMPTY
    &&& t.cells@ == p.cells@.update(i, p.turn)
    &&& t.turn != p.turn && (t.turn == WHITE || t.turn == BLACK)
    &&& (p.turn == WHITE ==> t.w_hand == p.w_hand - 1 && t.b_hand == p.b_hand)
    &&& (p.turn != WHITE ==> t.b_hand == p.b_hand - 1 && t.w_hand == p.w_hand)
}

/// `t` is a drop at `p` on some empty point.
pub open spec fn is_drop(p: Pos, t: Pos) -> bool {
    exists|i: int| drops_on(p, t, i)
}

proof fn lemma_placements_rule(p: Pos, k: nat)
    requires
        k <= 9,
        p.turn == WHITE || p.turn == BLACK,
        p.hand_spec(p.turn) > 0,
    ensures
        forall|m: int| 0 <= m < p.placements(k).len() ==> is_drop(p, #[trigger] p.placements(k)[m]),
        forall|i: int| 0 <= i < k && #[trigger] p.cells@[i] == EMPTY ==> p.placements(k).contains(p.place(i)),
    decreases k,
{
    if k > 0 {
        lemma_placements_rule(p, (k - 1) as nat);
        let prev = p.placements((k - 1) as nat);
        let cur = p.placements(k);
        let i0 = k - 1;
        if p.cells@[i0] == EMPTY {
            let x = p.place(i0);
            lemma_grid_of_seq(p.cells@.update(i0, p.turn));
            assert(cur == prev.push(x));
            assert(drops_on(p, x, i0));
            assert forall|m: int| 0 <= m < cur.len() implies is_drop(p, #[trigger] cur[m]) by {
                if m < prev.len() {
                    assert(cur[m] == prev[m]);
                } else {
                    assert(cur[m] == x);
                }
            }
            assert forall|i: int| 0 <= i < k && #[trigger] p.cells@[i] == EMPTY implies cur.contains(p.place(i)) by {
                if i < i0 {
                    let m = choose|m: int| 0 <= m < prev.len() && prev[m] == p.place(i);
                    assert(cur[m] == prev[m]);
                } else {
                    assert(cur[prev.len() as int] == x);
                }
            }
        } else {
            assert(cur == prev);
            assert forall|m: int| 0 <= m < cur.len() implies is_drop(p, #[trigger] cur[m]) by {
                assert(cur[m] == prev[m]);
            }
        }
    }
}

/// In the placement phase the moves are exactly the drops: every legal move
/// drops a man from the hand of the side to move on an empty point, and a
/// drop on every empty point is a legal move.
pub proof fn lemma_placement_rule(p: Pos)
    requires
        p.turn == WHITE || p.turn == BLACK,
        p.hand_spec(p.turn) > 0,
    ensures
        forall|m: int| 0 <= m < p.legal_moves().len() ==> is_drop(p, #[trigger] p.legal_moves()[m]),
        forall|i: int|
            0 <= i < 9 && #[trigger] p.cells@[i] == EMPTY ==> exists|m: int|
                0 <= m < p.legal_moves().len() && drops_on(p, #[trigger] p.legal_moves()[m], i),
{
    lemma_placements_rule(p, 9);
    assert forall|i: int| 0 <= i < 9 && #[trigger] p.cells@[i] == EMPTY implies exists|m: int|
        0 <= m < p.legal_moves().len() && drops_on(p, #[trigger] p.legal_moves()[m], i) by {
        let m = choose|m: int| 0 <= m < p.legal_moves().len() && p.legal_moves()[m] == p.place(i);
        lemma_grid_of_seq(p.cells@.update(i, p.turn));
        assert(drops_on(p, p.legal_moves()[m], i));
    }
}

} // verus!
