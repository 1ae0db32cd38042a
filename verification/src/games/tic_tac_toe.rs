//! Tic-tac-toe (3x3). The engine's smoke test: a tiny game with an undisputed
//! value (a draw under optimal play). If the generic solver reproduces that, the
//! retrograde machinery is sound.

use vstd::prelude::*;
use crate::{Game, Outcome};
use crate::retrograde::occurrences;
use vstd::std_specs::iter::IteratorSpec;
use crate::games::grid::{
    base3, cells_ok, count_cells, decode, digits, encode, grid_of, has_line, has_line_spec,
    lemma_base3_of_digits, lemma_digits_of_base3, lemma_digits_ok, lemma_grid_of,
    lemma_grid_of_seq, pow3,
};

verus! {

pub const EMPTY: u8 = 0;

pub const X: u8 = 1;  // first player

pub const O: u8 = 2;  // second player

/// A board: nine cells, each `EMPTY`, `X`, or `O`.
#[derive(Clone, Copy, PartialEq, Eq, Debug)]
pub struct Board {
    pub cells: [u8; 9],
}

pub struct TicTacToe;

/// The board whose cells are `s`.
pub open spec fn board_of(s: Seq<u8>) -> Board {
    Board { cells: grid_of(s) }
}

impl Board {
    /// The mark of the side to move: X moves first, so equal counts mean X.
    pub open spec fn mover(self) -> u8 {
        if occurrences(self.cells@, X) == occurrences(self.cells@, O) {
            X
        } else {
            O
        }
    }

    /// The board is full.
    pub open spec fn full(self) -> bool {
        forall|c: int| 0 <= c < 9 ==> #[trigger] self.cells@[c] != EMPTY
    }

    /// The boards after the mover marks each empty cell among `0..k`, in order.
    pub open spec fn placements(self, k: nat) -> Seq<Board>
        decreases k,
    {
        if k == 0 {
            Seq::empty()
        } else {
            let prev = self.placements((k - 1) as nat);
            if self.cells@[k - 1] == EMPTY {
                prev.push(board_of(self.cells@.update(k - 1, self.mover())))
            } else {
                prev
            }
        }
    }

    /// The outcome for the side to move, if the game is over.
    pub open spec fn result(self) -> Option<Outcome> {
        let xline = has_line_spec(self.cells@, X);
        let oline = has_line_spec(self.cells@, O);
        if xline && oline {
            Some(Outcome::Draw)
        } else if xline || oline {
            Some(Outcome::Loss)
        } else if self.full() {
            Some(Outcome::Draw)
        } else {
            None
        }
    }

    /// The counts of X and O marks.
    fn counts(&self) -> (r: (u32, u32))
        ensures
            r.0 == occurrences(self.cells@, X),
            r.1 == occurrences(self.cells@, O),
            r.0 <= 9,
            r.1 <= 9,
    {
        let x = count_cells(&self.cells, X) as u32;
        let o = count_cells(&self.cells, O) as u32;
        (x, o)
    }

    /// Whose turn it is. X moves first, so even total = X to move.
    fn to_move(&self) -> (r: u8)
        ensures
            r == self.mover(),
    {
        let (x, o) = self.counts();
        if x == o {
            X
        } else {
            O
        }
    }

    fn has_line(&self, player: u8) -> (r: bool)
        ensures
            r == has_line_spec(self.cells@, player),
    {
        has_line(&self.cells, player)
    }

    fn is_full(&self) -> (r: bool)
        ensures
            r == self.full(),
    {
        let mut c: usize = 0;
        while c < 9
            invariant
                c <= 9,
                forall|j: int| 0 <= j < c ==> #[trigger] self.cells@[j] != EMPTY,
            decreases 9 - c,
        {
            if self.cells[c] == EMPTY {
                return false;
            }
            c += 1;
        }
        true
    }
}

/// A reachable board has as many X as O marks (X to move) or one X more.
pub open spec fn legal(b: Board) -> bool {
    let x = occurrences(b.cells@, X);
    let o = occurrences(b.cells@, O);
    x == o || x == o + 1
}

/// The mark that a character stands for: 'X', 'O', anything else empty.
pub open spec fn mark_of(ch: char) -> u8 {
    if ch == 'X' {
        X
    } else if ch == 'O' {
        O
    } else {
        EMPTY
    }
}

/// The board that a row-major string of at most nine characters describes.
pub open spec fn board_from_chars(s: Seq<char>) -> Board {
    board_of(Seq::new(9, |i: int| if i < s.len() { mark_of(s[i]) } else { EMPTY }))
}

impl Game for TicTacToe {
    type State = Board;

    open spec fn wf(&self) -> bool {
        true
    }

    open spec fn state_count(&self) -> nat {
        19683
    }

    open spec fn valid(&self, b: Board) -> bool {
        cells_ok(b.cells@)
    }

    open spec fn index_of(&self, b: Board) -> int {
        base3(b.cells@)
    }

    open spec fn decode(&self, i: int) -> Option<Board> {
        let b = board_of(digits(i, 9));
        if legal(b) {
            Some(b)
        } else {
            None
        }
    }

    open spec fn start_state(&self) -> Board {
        board_of(Seq::new(9, |c: int| EMPTY))
    }

    open spec fn moves(&self, b: Board) -> Seq<Board> {
        b.placements(9)
    }

    open spec fn outcome(&self, b: Board) -> Option<Outcome> {
        b.result()
    }

    fn num_states(&self) -> (r: u64) {
        19683  // 3^9: every base-3 board, legal or not
    }

    fn index(&self, b: &Board) -> (r: u64) {
        encode(&b.cells)
    }

    fn from_index(&self, i: u64) -> (r: Option<Board>) {
        let cells = decode(i);
        let b = Board { cells };
        proof {
            lemma_grid_of(cells);
        }
        // Reachable boards have #X == #O (X to move) or #X == #O + 1 (O to move).
        let (x, o) = b.counts();
        if x == o || x == o + 1 {
            Some(b)
        } else {
            None
        }
    }

    fn start(&self) -> (r: Board) {
        let b = Board { cells: [EMPTY; 9] };
        proof {
            lemma_grid_of(b.cells);
            assert(b.cells@ =~= Seq::new(9, |c: int| EMPTY));
        }
        b
    }

    fn successors(&self, b: &Board) -> (r: Vec<Board>) {
        // `solve` only calls this on non-terminal boards, so a move always exists.
        let mark = b.to_move();
        let mut out: Vec<Board> = Vec::new();
        let mut i: usize = 0;
        while i < 9
            invariant
                i <= 9,
                mark == b.mover(),
                cells_ok(b.cells@),
                out@ == b.placements(i as nat),
                forall|k: int| 0 <= k < out@.len() ==> cells_ok(#[trigger] out@[k].cells@),
            decreases 9 - i,
        {
            if b.cells[i] == EMPTY {
                let mut next = *b;
                next.cells[i] = mark;
                proof {
                    lemma_grid_of(next.cells);
                    assert(next.cells@ == b.cells@.update(i as int, mark));
                    assert(mark < 3);
                    assert(cells_ok(next.cells@)) by {
                        assert forall|c: int| 0 <= c < 9 implies #[trigger] next.cells@[c] < 3 by {
                            if c != i {
                                assert(next.cells@[c] == b.cells@[c]);
                            }
                        }
                    }
                }
                out.push(next);
            }
            i += 1;
        }
        out
    }

    fn terminal(&self, b: &Board) -> (r: Option<Outcome>) {
        let xline = b.has_line(X);
        let oline = b.has_line(O);
        match (xline, oline) {
            // Two completed lines is unreachable; keep it inert.
            (true, true) => Some(Outcome::Draw),
            // Exactly one player has a line: they just moved, so the side to move
            // is the loser.
            (true, false) | (false, true) => Some(Outcome::Loss),
            (false, false) => {
                if b.is_full() {
                    Some(Outcome::Draw)
                } else {
                    None
                }
            },
        }
    }
}

impl TicTacToe {
    /// Build a board from a string of at most nine characters ('.', 'X', 'O'),
    /// row-major; cells past the end of the string stay empty.
    pub fn board(s: &str) -> (r: Board)
        requires
            s@.len() <= 9,
        ensures
            r == board_from_chars(s@),
    {
        let mut cells = [EMPTY; 9];
        let mut it = s.chars();
        let mut i: usize = 0;
        loop
            invariant
                i <= s@.len(),
                s@.len() <= 9,
                it.remaining() == s@.skip(i as int),
                it.obeys_prophetic_iter_laws(),
                forall|c: int| 0 <= c < i ==> #[trigger] cells@[c] == mark_of(s@[c]),
                forall|c: int| i <= c < 9 ==> #[trigger] cells@[c] == EMPTY,
            ensures
                i == s@.len(),
                forall|c: int| 0 <= c < i ==> #[trigger] cells@[c] == mark_of(s@[c]),
                forall|c: int| i <= c < 9 ==> #[trigger] cells@[c] == EMPTY,
            decreases s@.len() - i,
        {
            match it.next() {
                None => {
                    assert(s@.skip(i as int).len() == 0);
                    break;
                },
                Some(ch) => {
                    proof {
                        assert(s@.skip(i as int)[0] == s@[i as int]);
                        assert(s@.skip(i as int).drop_first() =~= s@.skip(i as int + 1));
                    }
                    cells[i] = if ch == 'X' {
                        X
                    } else if ch == 'O' {
                        O
                    } else {
                        EMPTY
                    };
                    i += 1;
                },
            }
        }
        proof {
            lemma_grid_of(cells);
            assert(cells@ =~= Seq::new(
                9,
                |c: int| if c < s@.len() { mark_of(s@[c]) } else { EMPTY },
            ));
        }
        Board { cells }
    }
}

/// The index is a bijection on the boards it keeps: a board decodes from its
/// index exactly when it is legal, and whatever an index decodes to has that
/// index.
pub proof fn lemma_index_round_trip(b: Board, i: int)
    requires
        cells_ok(b.cells@),
        0 <= i < 19683,
    ensures
        TicTacToe.decode(TicTacToe.index_of(b)) == if legal(b) {
            Some(b)
        } else {
            None::<Board>
        },
        TicTacToe.decode(i) matches Some(d) ==> TicTacToe.index_of(d) == i,
{
    lemma_digits_of_base3(b.cells@);
    lemma_grid_of(b.cells);
    reveal_with_fuel(pow3, 10);
    lemma_digits_ok(i, 9);
    lemma_base3_of_digits(i, 9);
    lemma_grid_of_seq(digits(i, 9));
    let d = board_of(digits(i, 9));
    assert(d.cells@ == digits(i, 9));
}

/// How a game of tic-tac-toe ends, whatever the order the rules are checked
/// in: when exactly one player holds a line, that player made the last move and
/// the side to move has lost, full board or not; a full board on which no one
/// holds a line is a draw; and a board with an empty cell and no line goes on.
/// (Both players holding a line cannot arise in play; such a board is inert, a
/// draw.)
pub proof fn lemma_terminal_rules(b: Board)
    ensures
        has_line_spec(b.cells@, X) != has_line_spec(b.cells@, O) ==> TicTacToe.outcome(b) == Some(Outcome::Loss),
        has_line_spec(b.cells@, X) && has_line_spec(b.cells@, O) ==> TicTacToe.outcome(b) == Some(Outcome::Draw),
        !has_line_spec(b.cells@, X) && !has_line_spec(b.cells@, O) && (forall|c: int|
            0 <= c < 9 ==> #[trigger] b.cells@[c] != EMPTY) ==> TicTacToe.outcome(b) == Some(Outcome::Draw),
        !has_line_spec(b.cells@, X) && !has_line_spec(b.cells@, O) && (exists|c: int|
            0 <= c < 9 && #[trigger] b.cells@[c] == EMPTY) ==> TicTacToe.outcome(b) is None,
{
}

proof fn lemma_occurrences_update(s: Seq<u8>, c: int, v: u8, x: u8)
    requires
        0 <= c < s.len(),
    ensures
        occurrences(s.update(c, v), x) + (if s[c] == x { 1int } else { 0int }) == occurrences(s, x) + (if v == x {
            1int
        } else {
            0int
        }),
    decreases s.len(),
{
    let t = s.update(c, v);
    if c == s.len() - 1 {
        assert(t.drop_last() =~= s.drop_last());
    } else {
        lemma_occurrences_update(s.drop_last(), c, v, x);
        assert(t.drop_last() =~= s.drop_last().update(c, v));
    }
}

/// `t` is `b` with the mark `mark` added on the empty cell `c`.
pub open spec fn marks_cell(b: Board, t: Board, c: int, mark: u8) -> bool {
    0 <= c < 9 && b.cells@[c] == EMPTY && t.cells@ == b.cells@.update(c, mark)
}

/// `t` is `b` with the side to move's mark on one empty cell.
pub open spec fn is_placement(b: Board, t: Board) -> bool {
    exists|c: int| marks_cell(b, t, c, b.mover())
}

proof fn lemma_placements_rule(b: Board, k: nat)
    requires
        k <= 9,
    ensures
        forall|m: int| 0 <= m < b.placements(k).len() ==> is_placement(b, #[trigger] b.placements(k)[m]),
        forall|c: int|
            0 <= c < k && #[trigger] b.cells@[c] == EMPTY ==> exists|m: int|
                0 <= m < b.placements(k).len() && marks_cell(b, #[trigger] b.placements(k)[m], c, b.mover()),
    decreases k,
{
    if k > 0 {
        lemma_placements_rule(b, (k - 1) as nat);
        let prev = b.placements((k - 1) as nat);
        let cur = b.placements(k);
        let c0 = k - 1;
        if b.cells@[c0] == EMPTY {
            let x = board_of(b.cells@.update(c0, b.mover()));
            lemma_grid_of_seq(b.cells@.update(c0, b.mover()));
            assert(cur == prev.push(x));
            assert(marks_cell(b, x, c0, b.mover()));
            assert forall|m: int| 0 <= m < cur.len() implies is_placement(b, #[trigger] cur[m]) by {
                if m < prev.len() {
                    assert(cur[m] == prev[m]);
                } else {
                    assert(cur[m] == x);
                }
            }
            assert forall|c: int| 0 <= c < k && #[trigger] b.cells@[c] == EMPTY implies exists|m: int|
                0 <= m < cur.len() && marks_cell(b, #[trigger] cur[m], c, b.mover()) by {
                if c < c0 {
                    let m = choose|m: int| 0 <= m < prev.len() && marks_cell(b, #[trigger] prev[m], c, b.mover());
                    assert(cur[m] == prev[m]);
                } else {
                    assert(cur[prev.len() as int] == x);
                }
            }
        } else {
            assert(cur == prev);
            assert forall|m: int| 0 <= m < cur.len() implies is_placement(b, #[trigger] cur[m]) by {
                assert(cur[m] == prev[m]);
            }
            assert forall|c: int| 0 <= c < k && #[trigger] b.cells@[c] == EMPTY implies exists|m: int|
                0 <= m < cur.len() && marks_cell(b, #[trigger] cur[m], c, b.mover()) by {
                let m = choose|m: int| 0 <= m < prev.len() && marks_cell(b, #[trigger] prev[m], c, b.mover());
                assert(cur[m] == prev[m]);
            }
        }
    }
}

/// The moves of tic-tac-toe: each move puts the mark of the side to move on
/// one empty cell, every empty cell gives a move, and X moves first with the
/// turn passing after every move (from a board where X has as many marks as
/// O or one more).
pub proof fn lemma_moves_rule(b: Board)
    ensures
        forall|m: int| 0 <= m < TicTacToe.moves(b).len() ==> is_placement(b, #[trigger] TicTacToe.moves(b)[m]),
        forall|c: int|
            0 <= c < 9 && #[trigger] b.cells@[c] == EMPTY ==> exists|m: int|
                0 <= m < TicTacToe.moves(b).len() && marks_cell(b, #[trigger] TicTacToe.moves(b)[m], c, b.mover()),
        occurrences(b.cells@, X) == occurrences(b.cells@, O) ==> b.mover() == X,
        forall|m: int|
            0 <= m < TicTacToe.moves(b).len() && (occurrences(b.cells@, X) == occurrences(b.cells@, O) || occurrences(
                b.cells@,
                X,
            ) == occurrences(b.cells@, O) + 1) ==> (#[trigger] TicTacToe.moves(b)[m]).mover() != b.mover(),
{
    lemma_placements_rule(b, 9);
    let moves = TicTacToe.moves(b);
    assert forall|m: int|
        0 <= m < moves.len() && (occurrences(b.cells@, X) == occurrences(b.cells@, O) || occurrences(b.cells@, X)
            == occurrences(b.cells@, O) + 1) implies (#[trigger] moves[m]).mover() != b.mover() by {
        assert(is_placement(b, moves[m]));
        let c = choose|c: int| marks_cell(b, moves[m], c, b.mover());
        lemma_occurrences_update(b.cells@, c, b.mover(), X);
        lemma_occurrences_update(b.cells@, c, b.mover(), O);
    }
}

} // verus!
