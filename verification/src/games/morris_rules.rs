//! The capture rules that every morris board shares, stated once over a
//! board's tables (point count, adjacency per point, the mills, and whether a
//! side reduced to three men may fly) and implemented once over bitmasks.
//!
//! Forming a mill (three in a line) removes one opponent man, one not itself in
//! a mill unless all are; a player loses when reduced below three men or left
//! with no legal move.

use vstd::prelude::*;
use crate::Outcome;
use crate::index::{
    bit, disjoint32, lemma_bit_and, lemma_bit_low, lemma_bit_not, lemma_bit_one, lemma_bit_or, lemma_bit_zero,
    lemma_bits_ext, lemma_pop_one_more,
    lemma_pop_subset, popcount, popcount_below, within32,
};
use crate::games::generic_morris::{State, BLACK, WHITE};

verus! {

/// `mask` holds the whole of some mill that runs through `point`.
pub open spec fn mill_through(mills: Seq<u32>, mask: u32, point: int) -> bool {
    exists|i: int|
        #![trigger mills[i]]
        0 <= i < mills.len() && bit(mills[i], point) && mask & mills[i] == mills[i]
}

/// Does placing/moving to `point` complete a mill for `mask`?
pub fn completes_mill(mills: &[u32], mask: u32, point: usize) -> (r: bool)
    requires
        point < 32,
    ensures
        r == mill_through(mills@, mask, point as int),
{
    let mut i: usize = 0;
    while i < mills.len()
        invariant
            i <= mills@.len(),
            point < 32,
            forall|j: int|
                0 <= j < i ==> !(bit(#[trigger] mills@[j], point as int) && mask & mills@[j] == mills@[j]),
        decreases mills@.len() - i,
    {
        let m = mills[i];
        if (m >> (point as u32)) & 1 == 1 && mask & m == m {
            return true;
        }
        i += 1;
    }
    false
}

/// The men of `opp` below point `k` that sit in no mill, as a mask.
pub open spec fn free_below(mills: Seq<u32>, opp: u32, k: nat) -> u32
    decreases k,
{
    if k == 0 {
        0
    } else {
        let f = free_below(mills, opp, (k - 1) as nat);
        if bit(opp, k - 1) && !mill_through(mills, opp, k - 1) {
            f | (1u32 << ((k - 1) as u32))
        } else {
            f
        }
    }
}

/// The opponent men that may be captured: those not in a mill, unless every
/// opponent man is in a mill (then any may be taken).
pub open spec fn removable_spec(mills: Seq<u32>, opp: u32) -> u32 {
    let free = free_below(mills, opp, 32);
    if free == 0 {
        opp
    } else {
        free
    }
}

proof fn lemma_free_below_bits(mills: Seq<u32>, opp: u32, k: nat, p: int)
    requires
        k <= 32,
        0 <= p < 32,
    ensures
        bit(free_below(mills, opp, k), p) <==> (p < k && bit(opp, p) && !mill_through(mills, opp, p)),
    decreases k,
{
    if k == 0 {
        lemma_bit_zero(p);
    } else {
        lemma_free_below_bits(mills, opp, (k - 1) as nat, p);
        let f = free_below(mills, opp, (k - 1) as nat);
        if bit(opp, k - 1) && !mill_through(mills, opp, k - 1) {
            lemma_bit_or(f, 1u32 << ((k - 1) as u32), p);
            lemma_bit_one(k - 1, p);
        }
    }
}

/// The men a mill may capture are the opponent's men that stand in no mill
/// the opponent holds, or, when every opponent man stands in one, all of
/// them: for every point `p`, `p` may be taken exactly when the opponent holds
/// it and either no held mill runs through `p` or no opponent man is free.
pub proof fn lemma_removable_rule(mills: Seq<u32>, opp: u32, p: int)
    requires
        0 <= p < 32,
    ensures
        bit(removable_spec(mills, opp), p) <==> (bit(opp, p) && (!(exists|i: int|
            0 <= i < mills.len() && bit(#[trigger] mills[i], p) && opp & mills[i] == mills[i]) || forall|q: int|
            0 <= q < 32 && #[trigger] bit(opp, q) ==> exists|i: int|
                0 <= i < mills.len() && bit(#[trigger] mills[i], q) && opp & mills[i] == mills[i])),
{
    let free = free_below(mills, opp, 32);
    assert forall|q: int| 0 <= q < 32 implies (#[trigger] bit(free, q) <==> (bit(opp, q) && !mill_through(
        mills,
        opp,
        q,
    ))) by {
        lemma_free_below_bits(mills, opp, 32, q);
    }
    if free == 0 {
        assert forall|q: int| 0 <= q < 32 && #[trigger] bit(opp, q) implies mill_through(mills, opp, q) by {
            lemma_bit_zero(q);
        }
    } else {
        if forall|q: int| 0 <= q < 32 ==> !#[trigger] bit(free, q) {
            assert forall|q: int| 0 <= q < 32 implies #[trigger] bit(free, q) == bit(0u32, q) by {
                lemma_bit_zero(q);
            }
            lemma_bits_ext(free, 0u32);
        }
        let q = choose|q: int| 0 <= q < 32 && #[trigger] bit(free, q);
        assert(bit(opp, q) && !mill_through(mills, opp, q));
    }
}

pub fn removable(mills: &[u32], opp: u32) -> (r: u32)
    ensures
        r == removable_spec(mills@, opp),
{
    let mut free: u32 = 0;
    let mut p: usize = 0;
    while p < 32
        invariant
            p <= 32,
            free == free_below(mills@, opp, p as nat),
        decreases 32 - p,
    {
        if (opp >> (p as u32)) & 1 == 1 && !completes_mill(mills, opp, p) {
            free = free | (1u32 << (p as u32));
        }
        p += 1;
    }
    free_or_all(free, opp)
}

fn free_or_all(free: u32, opp: u32) -> (r: u32)
    ensures
        r == (if free == 0 { opp } else { free }),
{
    if free == 0 {
        opp
    } else {
        free
    }
}

/// Some man of `stm` has an empty neighbour.
pub open spec fn can_slide(adj: Seq<u32>, stm: u32, occupied: u32) -> bool {
    exists|f: int| #![trigger adj[f]] 0 <= f < adj.len() && bit(stm, f) && adj[f] & !occupied != 0u32
}

pub fn has_slide(adj: &[u32], stm: u32, occupied: u32) -> (r: bool)
    requires
        adj@.len() <= 32,
    ensures
        r == can_slide(adj@, stm, occupied),
{
    let mut f: usize = 0;
    while f < adj.len()
        invariant
            f <= adj@.len() <= 32,
            forall|g: int| 0 <= g < f ==> !(bit(stm, g) && #[trigger] adj@[g] & !occupied != 0u32),
        decreases adj@.len() - f,
    {
        if (stm >> (f as u32)) & 1 == 1 && adj[f] & !occupied != 0 {
            return true;
        }
        f += 1;
    }
    false
}

impl State {
    /// The men of the side to move.
    pub open spec fn mover(self) -> u32 {
        if self.turn == WHITE {
            self.white
        } else {
            self.black
        }
    }

    /// The men of the side that just moved.
    pub open spec fn opponent(self) -> u32 {
        if self.turn == WHITE {
            self.black
        } else {
            self.white
        }
    }

    /// The men the side to move still holds in hand.
    pub open spec fn mover_hand(self) -> u8 {
        if self.turn == WHITE {
            self.w_hand
        } else {
            self.b_hand
        }
    }

    /// The mover's hand after this move: one fewer while placing.
    pub open spec fn spent_hand(self) -> u8 {
        if self.mover_hand() > 0 {
            (self.mover_hand() - 1) as u8
        } else {
            0
        }
    }

    /// The position after the mover's move, with the turn flipped.
    pub open spec fn after_spec(self, mover: u32, mover_hand: u8, opp: u32) -> State {
        if self.turn == WHITE {
            State { white: mover, black: opp, w_hand: mover_hand, b_hand: self.b_hand, turn: BLACK }
        } else {
            State { white: opp, black: mover, w_hand: self.w_hand, b_hand: mover_hand, turn: WHITE }
        }
    }

    /// Build the position after the mover's move, with the turn flipped.
    pub fn after(&self, mover: u32, mover_hand: u8, opp: u32) -> (r: State)
        ensures
            r == self.after_spec(mover, mover_hand, opp),
    {
        if self.turn == WHITE {
            State { white: mover, black: opp, w_hand: mover_hand, b_hand: self.b_hand, turn: BLACK }
        } else {
            State { white: opp, black: mover, w_hand: self.w_hand, b_hand: mover_hand, turn: WHITE }
        }
    }
}

/// The positions with one man of `opp` among the points of `rem` below `k`
/// captured, in point order.
pub open spec fn captures(s: State, mover: u32, opp: u32, rem: u32, k: nat) -> Seq<State>
    decreases k,
{
    if k == 0 {
        Seq::empty()
    } else {
        let prev = captures(s, mover, opp, rem, (k - 1) as nat);
        if bit(rem, k - 1) {
            prev.push(s.after_spec(mover, s.spent_hand(), opp & !(1u32 << ((k - 1) as u32))))
        } else {
            prev
        }
    }
}

/// What one base move leads to (the mover's men become `mover`, the moved man
/// landing on `dest`): if it closes a mill and the opponent has men, one
/// position per capturable man; otherwise the one position.
pub open spec fn outcomes(mills: Seq<u32>, s: State, mover: u32, dest: int) -> Seq<State> {
    let opp = s.opponent();
    if mill_through(mills, mover, dest) && opp != 0 {
        captures(s, mover, opp, removable_spec(mills, opp), 32)
    } else {
        seq![s.after_spec(mover, s.spent_hand(), opp)]
    }
}

/// Drops of a man from hand on the empty points below `k`, in point order.
pub open spec fn placements(mills: Seq<u32>, s: State, k: nat) -> Seq<State>
    decreases k,
{
    if k == 0 {
        Seq::empty()
    } else {
        let prev = placements(mills, s, (k - 1) as nat);
        let p = k - 1;
        if !bit(s.white | s.black, p) {
            prev + outcomes(mills, s, s.mover() | (1u32 << (p as u32)), p)
        } else {
            prev
        }
    }
}

/// Where the man on `f` may go: any empty point when its side flies, else the
/// empty neighbours of `f`.
pub open spec fn targets(n: int, adj: Seq<u32>, flying: bool, s: State, f: int) -> u32 {
    let occ = s.white | s.black;
    if flying && popcount_below(s.mover(), 32) == 3 {
        !occ & (((1u32 << (n as u32)) - 1) as u32)
    } else {
        adj[f] & !occ
    }
}

/// Moves of the man on `f` to its targets below `k`, in point order.
pub open spec fn slides_from(
    n: int,
    adj: Seq<u32>,
    mills: Seq<u32>,
    flying: bool,
    s: State,
    f: int,
    k: nat,
) -> Seq<State>
    decreases k,
{
    if k == 0 {
        Seq::empty()
    } else {
        let prev = slides_from(n, adj, mills, flying, s, f, (k - 1) as nat);
        let t = k - 1;
        if bit(targets(n, adj, flying, s, f), t) {
            prev + outcomes(mills, s, (s.mover() & !(1u32 << (f as u32))) | (1u32 << (t as u32)), t)
        } else {
            prev
        }
    }
}

/// Moves of the mover's men on the points below `k`, in point order.
pub open spec fn slides(n: int, adj: Seq<u32>, mills: Seq<u32>, flying: bool, s: State, k: nat) -> Seq<
    State,
>
    decreases k,
{
    if k == 0 {
        Seq::empty()
    } else {
        let prev = slides(n, adj, mills, flying, s, (k - 1) as nat);
        if bit(s.mover(), k - 1) {
            prev + slides_from(n, adj, mills, flying, s, k - 1, 32)
        } else {
            prev
        }
    }
}

/// Every legal move of the side to move: drops while it has men in hand,
/// otherwise moves of a man on the board.
pub open spec fn legal_moves(n: int, adj: Seq<u32>, mills: Seq<u32>, flying: bool, s: State) -> Seq<
    State,
> {
    if s.mover_hand() > 0 {
        placements(mills, s, n as nat)
    } else {
        slides(n, adj, mills, flying, s, n as nat)
    }
}

/// The outcome for the side to move, if the game is over: only with both hands
/// empty, a side below three men or unable to move loses.
pub open spec fn morris_result(n: int, adj: Seq<u32>, flying: bool, s: State) -> Option<Outcome> {
    if s.w_hand == 0 && s.b_hand == 0 {
        let stm = s.mover();
        let cnt = popcount_below(stm, 32);
        let occ = s.white | s.black;
        if cnt < 3 {
            Some(Outcome::Loss)
        } else if !(if flying && cnt == 3 {
            occ != (((1u32 << (n as u32)) - 1) as u32)
        } else {
            can_slide(adj, stm, occ)
        }) {
            Some(Outcome::Loss)
        } else {
            None
        }
    } else {
        None
    }
}

proof fn lemma_shift_pos(n: u32)
    requires
        n < 32,
    ensures
        (1u32 << n) >= 1,
{
    assert((1u32 << n) >= 1) by (bit_vector)
        requires
            n < 32,
    ;
}

fn push_outcomes(mills: &[u32], s: &State, mover: u32, dest: usize, out: &mut Vec<State>)
    requires
        dest < 32,
    ensures
        final(out)@ == old(out)@ + outcomes(mills@, *s, mover, dest as int),
{
    let opp = if s.turn == WHITE {
        s.black
    } else {
        s.white
    };
    let stm_hand = if s.turn == WHITE {
        s.w_hand
    } else {
        s.b_hand
    };
    let new_hand = if stm_hand > 0 {
        stm_hand - 1
    } else {
        0
    };
    if completes_mill(mills, mover, dest) && opp != 0 {
        let rem = removable(mills, opp);
        let ghost base = out@;
        let mut q: usize = 0;
        while q < 32
            invariant
                q <= 32,
                opp == s.opponent(),
                new_hand == s.spent_hand(),
                out@ == base + captures(*s, mover, opp, rem, q as nat),
            decreases 32 - q,
        {
            if (rem >> (q as u32)) & 1 == 1 {
                let n = s.after(mover, new_hand, opp & !(1u32 << (q as u32)));
                proof {
                    assert(base + captures(*s, mover, opp, rem, q as nat + 1) =~= (base + captures(
                        *s,
                        mover,
                        opp,
                        rem,
                        q as nat,
                    )).push(n));
                }
                out.push(n);
            }
            q += 1;
        }
    } else {
        let n = s.after(mover, new_hand, opp);
        out.push(n);
        proof {
            assert(out@ =~= old(out)@ + seq![n]);
        }
    }
}

/// Every legal move of the side to move, in the order the rules list them.
pub fn morris_successors(n: usize, adj: &[u32], mills: &[u32], flying: bool, s: &State) -> (r: Vec<State>)
    requires
        n < 32,
        adj@.len() == n,
    ensures
        r@ == legal_moves(n as int, adj@, mills@, flying, *s),
{
    let (stm, stm_hand) = if s.turn == WHITE {
        (s.white, s.w_hand)
    } else {
        (s.black, s.b_hand)
    };
    let occ = s.white | s.black;
    let mut out: Vec<State> = Vec::new();
    if stm_hand > 0 {
        let mut p: usize = 0;
        while p < n
            invariant
                p <= n < 32,
                stm == s.mover(),
                occ == s.white | s.black,
                out@ == placements(mills@, *s, p as nat),
            decreases n - p,
        {
            if (occ >> (p as u32)) & 1 != 1 {
                push_outcomes(mills, s, stm | (1u32 << (p as u32)), p, &mut out);
            }
            p += 1;
        }
    } else {
        // Movement: slide to an adjacent empty point. Under the flying rule, a
        // side reduced to exactly three men may move to ANY empty point.
        let fly = flying && popcount(stm) == 3;
        proof {
            lemma_shift_pos(n as u32);
        }
        let empties = !occ & ((1u32 << (n as u32)) - 1);
        let mut f: usize = 0;
        while f < n
            invariant
                f <= n < 32,
                adj@.len() == n,
                stm == s.mover(),
                occ == s.white | s.black,
                fly == (flying && popcount_below(stm, 32) == 3),
                empties == !occ & (((1u32 << (n as u32)) - 1) as u32),
                out@ == slides(n as int, adj@, mills@, flying, *s, f as nat),
            decreases n - f,
        {
            if (stm >> (f as u32)) & 1 == 1 {
                let t_mask = if fly {
                    empties
                } else {
                    adj[f] & !occ
                };
                let ghost base = out@;
                let mut t: usize = 0;
                while t < 32
                    invariant
                        t <= 32,
                        f < n < 32,
                        adj@.len() == n,
                        stm == s.mover(),
                        t_mask == targets(n as int, adj@, flying, *s, f as int),
                        out@ == base + slides_from(n as int, adj@, mills@, flying, *s, f as int, t as nat),
                    decreases 32 - t,
                {
                    let ghost before = out@;
                    if (t_mask >> (t as u32)) & 1 == 1 {
                        push_outcomes(mills, s, (stm & !(1u32 << (f as u32))) | (1u32 << (t as u32)), t, &mut out);
                    }
                    proof {
                        assert(base + slides_from(n as int, adj@, mills@, flying, *s, f as int, t as nat + 1)
                            =~= out@);
                    }
                    t += 1;
                }
                proof {
                    assert(out@ =~= slides(n as int, adj@, mills@, flying, *s, f as nat + 1));
                }
            }
            f += 1;
        }
    }
    out
}

/// `Some(Loss)` when the side to move has lost, else `None`.
pub fn morris_terminal(n: usize, adj: &[u32], flying: bool, s: &State) -> (r: Option<Outcome>)
    requires
        n < 32,
        adj@.len() <= 32,
    ensures
        r == morris_result(n as int, adj@, flying, *s),
{
    if s.w_hand == 0 && s.b_hand == 0 {
        let stm = if s.turn == WHITE {
            s.white
        } else {
            s.black
        };
        let cnt = popcount(stm);
        if cnt < 3 {
            return Some(Outcome::Loss);
        }
        let occ = s.white | s.black;
        // A flying side (exactly 3 men) can always move while an empty point exists.
        proof {
            lemma_shift_pos(n as u32);
        }
        let can_move = if flying && cnt == 3 {
            occ != (1u32 << (n as u32)) - 1
        } else {
            has_slide(adj, stm, occ)
        };
        if !can_move {
            return Some(Outcome::Loss);
        }
    }
    None
}

/// A position of a board with `n` points and `men` men per side: a side to
/// move, each side's men on the board and in hand at most `men`, on the
/// board's points, and never two on one point.
pub open spec fn valid_state(n: int, men: int, s: State) -> bool {
    &&& (s.turn == WHITE || s.turn == BLACK)
    &&& popcount_below(s.white, 32) + s.w_hand <= men
    &&& popcount_below(s.black, 32) + s.b_hand <= men
    &&& within32(s.white, n)
    &&& within32(s.black, n)
    &&& disjoint32(s.white, s.black)
}

/// Every point's neighbours lie on the board.
pub open spec fn adj_within(adj: Seq<u32>, n: int) -> bool {
    forall|f: int| 0 <= f < adj.len() ==> within32(#[trigger] adj[f], n)
}

proof fn lemma_after_valid(n: int, men: int, s: State, mover: u32, opp: u32)
    requires
        valid_state(n, men, s),
        within32(mover, n),
        within32(opp, n),
        disjoint32(mover, opp),
        popcount_below(mover, 32) + s.spent_hand() <= men,
        popcount_below(opp, 32) <= popcount_below(s.opponent(), 32),
    ensures
        valid_state(n, men, s.after_spec(mover, s.spent_hand(), opp)),
{
    assert forall|p: int| 0 <= p < 32 implies !(#[trigger] bit(opp, p) && bit(mover, p)) by {}
}

/// The opponent loses one man (or none): a subset of its men.
proof fn lemma_capture_subset(opp: u32, q: int)
    requires
        0 <= q < 32,
    ensures
        forall|p: int| 0 <= p < 32 && #[trigger] bit(opp & !(1u32 << (q as u32)), p) ==> bit(opp, p),
{
    assert forall|p: int| 0 <= p < 32 && #[trigger] bit(opp & !(1u32 << (q as u32)), p) implies bit(opp, p) by {
        lemma_bit_and(opp, !(1u32 << (q as u32)), p);
    }
}

proof fn lemma_captures_valid(n: int, men: int, s: State, mover: u32, opp: u32, rem: u32, k: nat)
    requires
        0 <= n <= 32,
        valid_state(n, men, s),
        opp == s.opponent(),
        within32(mover, n),
        disjoint32(mover, opp),
        popcount_below(mover, 32) + s.spent_hand() <= men,
        k <= 32,
    ensures
        forall|j: int| 0 <= j < captures(s, mover, opp, rem, k).len() ==> valid_state(n, men, #[trigger] captures(s, mover, opp, rem, k)[j]),
    decreases k,
{
    if k > 0 {
        lemma_captures_valid(n, men, s, mover, opp, rem, (k - 1) as nat);
        if bit(rem, k - 1) {
            let opp2 = opp & !(1u32 << ((k - 1) as u32));
            lemma_capture_subset(opp, k - 1);
            lemma_pop_subset(opp2, opp, 32);
            assert(within32(opp, n));
            assert forall|p: int| n <= p < 32 implies !#[trigger] bit(opp2, p) by {
                assert(!bit(opp, p));
            }
            assert forall|p: int| 0 <= p < 32 implies !(#[trigger] bit(mover, p) && bit(opp2, p)) by {}
            lemma_after_valid(n, men, s, mover, opp2);
            let prev = captures(s, mover, opp, rem, (k - 1) as nat);
            let x = s.after_spec(mover, s.spent_hand(), opp2);
            assert forall|j: int| 0 <= j < prev.push(x).len() implies valid_state(n, men, #[trigger] prev.push(x)[j]) by {
                if j < prev.len() {
                    assert(prev.push(x)[j] == prev[j]);
                }
            }
            assert(captures(s, mover, opp, rem, k) == prev.push(x));
        } else {
            assert(captures(s, mover, opp, rem, k) == captures(s, mover, opp, rem, (k - 1) as nat));
        }
    }
}

/// What a base move leads to is valid when the mover's new men are.
proof fn lemma_outcomes_valid(n: int, men: int, mills: Seq<u32>, s: State, mover: u32, dest: int)
    requires
        0 <= n <= 32,
        valid_state(n, men, s),
        within32(mover, n),
        disjoint32(mover, s.opponent()),
        popcount_below(mover, 32) + s.spent_hand() <= men,
    ensures
        forall|j: int| 0 <= j < outcomes(mills, s, mover, dest).len() ==> valid_state(n, men, #[trigger] outcomes(mills, s, mover, dest)[j]),
{
    let opp = s.opponent();
    if mill_through(mills, mover, dest) && opp != 0 {
        lemma_captures_valid(n, men, s, mover, opp, removable_spec(mills, opp), 32);
    } else {
        lemma_after_valid(n, men, s, mover, opp);
    }
}

/// Adding a man on an empty point of the board.
proof fn lemma_add_man(n: int, stm: u32, opp: u32, p: int)
    requires
        0 <= p < n <= 32,
        within32(stm, n),
        disjoint32(stm, opp),
        !bit(stm | opp, p),
    ensures
        within32(stm | (1u32 << (p as u32)), n),
        disjoint32(stm | (1u32 << (p as u32)), opp),
        popcount_below(stm | (1u32 << (p as u32)), 32) == popcount_below(stm, 32) + 1,
{
    let m2 = stm | (1u32 << (p as u32));
    lemma_bit_or(stm, opp, p);
    assert forall|q: int| 0 <= q < 32 implies #[trigger] bit(m2, q) == (bit(stm, q) || q == p) by {
        lemma_bit_or(stm, 1u32 << (p as u32), q);
        lemma_bit_one(p, q);
    }
    lemma_pop_one_more(stm, m2, p, 32);
}

proof fn lemma_placements_valid(n: int, men: int, mills: Seq<u32>, s: State, k: nat)
    requires
        valid_state(n, men, s),
        s.mover_hand() > 0,
        k <= n < 32,
    ensures
        forall|j: int| 0 <= j < placements(mills, s, k).len() ==> valid_state(n, men, #[trigger] placements(mills, s, k)[j]),
    decreases k,
{
    if k > 0 {
        lemma_placements_valid(n, men, mills, s, (k - 1) as nat);
        let p = k - 1;
        let prev = placements(mills, s, (k - 1) as nat);
        if !bit(s.white | s.black, p) {
            let stm = s.mover();
            let opp = s.opponent();
            assert(!bit(stm | opp, p)) by {
                lemma_bit_or(s.white, s.black, p);
                lemma_bit_or(stm, opp, p);
            }
            lemma_add_man(n, stm, opp, p);
            let m2 = stm | (1u32 << (p as u32));
            lemma_outcomes_valid(n, men, mills, s, m2, p);
            let outs = outcomes(mills, s, m2, p);
            assert forall|j: int| 0 <= j < (prev + outs).len() implies valid_state(n, men, #[trigger] (prev + outs)[j]) by {
                if j >= prev.len() {
                    assert((prev + outs)[j] == outs[j - prev.len()]);
                }
            }
        }
    }
}

/// Moving the man on `f` to the empty point `t` of the board.
proof fn lemma_move_man(n: int, stm: u32, opp: u32, f: int, t: int)
    requires
        0 <= f < 32,
        0 <= t < n <= 32,
        within32(stm, n),
        disjoint32(stm, opp),
        bit(stm, f),
        !bit(stm | opp, t),
    ensures
        within32((stm & !(1u32 << (f as u32))) | (1u32 << (t as u32)), n),
        disjoint32((stm & !(1u32 << (f as u32))) | (1u32 << (t as u32)), opp),
        popcount_below((stm & !(1u32 << (f as u32))) | (1u32 << (t as u32)), 32) == popcount_below(stm, 32),
{
    let m1 = stm & !(1u32 << (f as u32));
    let m2 = m1 | (1u32 << (t as u32));
    lemma_bit_or(stm, opp, t);
    assert forall|q: int| 0 <= q < 32 implies #[trigger] bit(m1, q) == (bit(stm, q) && q != f) by {
        lemma_bit_and(stm, !(1u32 << (f as u32)), q);
        lemma_bit_not(1u32 << (f as u32), q);
        lemma_bit_one(f, q);
    }
    assert forall|q: int| 0 <= q < 32 implies #[trigger] bit(m2, q) == (bit(m1, q) || q == t) by {
        lemma_bit_or(m1, 1u32 << (t as u32), q);
        lemma_bit_one(t, q);
    }
    lemma_pop_one_more(m1, stm, f, 32);
    lemma_pop_one_more(m1, m2, t, 32);
}

proof fn lemma_slides_from_valid(
    n: int,
    adj: Seq<u32>,
    mills: Seq<u32>,
    flying: bool,
    men: int,
    s: State,
    f: int,
    k: nat,
)
    requires
        valid_state(n, men, s),
        s.mover_hand() == 0,
        adj_within(adj, n),
        adj.len() == n,
        0 <= f < n < 32,
        bit(s.mover(), f),
        k <= 32,
    ensures
        forall|j: int|
            0 <= j < slides_from(n, adj, mills, flying, s, f, k).len() ==> valid_state(
                n,
                men,
                #[trigger] slides_from(n, adj, mills, flying, s, f, k)[j],
            ),
    decreases k,
{
    if k > 0 {
        lemma_slides_from_valid(n, adj, mills, flying, men, s, f, (k - 1) as nat);
        let t = k - 1;
        let prev = slides_from(n, adj, mills, flying, s, f, (k - 1) as nat);
        let tm = targets(n, adj, flying, s, f);
        if bit(tm, t) {
            let stm = s.mover();
            let opp = s.opponent();
            let occ = s.white | s.black;
            lemma_bit_or(s.white, s.black, t);
            lemma_bit_or(stm, opp, t);
            lemma_bit_not(occ, t);
            if flying && popcount_below(stm, 32) == 3 {
                lemma_bit_and(!occ, ((1u32 << (n as u32)) - 1) as u32, t);
                lemma_bit_low(n, t);
            } else {
                lemma_bit_and(adj[f], !occ, t);
                assert(within32(adj[f], n));
            }
            lemma_move_man(n, stm, opp, f, t);
            let m2 = (stm & !(1u32 << (f as u32))) | (1u32 << (t as u32));
            lemma_outcomes_valid(n, men, mills, s, m2, t);
            let outs = outcomes(mills, s, m2, t);
            assert forall|j: int| 0 <= j < (prev + outs).len() implies valid_state(n, men, #[trigger] (prev + outs)[j]) by {
                if j >= prev.len() {
                    assert((prev + outs)[j] == outs[j - prev.len()]);
                }
            }
        }
    }
}

proof fn lemma_slides_valid(n: int, adj: Seq<u32>, mills: Seq<u32>, flying: bool, men: int, s: State, k: nat)
    requires
        valid_state(n, men, s),
        s.mover_hand() == 0,
        adj_within(adj, n),
        adj.len() == n,
        k <= n < 32,
    ensures
        forall|j: int|
            0 <= j < slides(n, adj, mills, flying, s, k).len() ==> valid_state(n, men, #[trigger] slides(n, adj, mills, flying, s, k)[j]),
    decreases k,
{
    if k > 0 {
        lemma_slides_valid(n, adj, mills, flying, men, s, (k - 1) as nat);
        let prev = slides(n, adj, mills, flying, s, (k - 1) as nat);
        if bit(s.mover(), k - 1) {
            lemma_slides_from_valid(n, adj, mills, flying, men, s, k - 1, 32);
            let outs = slides_from(n, adj, mills, flying, s, k - 1, 32);
            assert forall|j: int| 0 <= j < (prev + outs).len() implies valid_state(n, men, #[trigger] (prev + outs)[j]) by {
                if j >= prev.len() {
                    assert((prev + outs)[j] == outs[j - prev.len()]);
                }
            }
        }
    }
}

proof fn lemma_slides_from_none(
    n: int,
    adj: Seq<u32>,
    mills: Seq<u32>,
    flying: bool,
    s: State,
    f: int,
    k: nat,
)
    requires
        forall|t: int| 0 <= t < 32 ==> !#[trigger] bit(targets(n, adj, flying, s, f), t),
        k <= 32,
    ensures
        slides_from(n, adj, mills, flying, s, f, k).len() == 0,
    decreases k,
{
    if k > 0 {
        lemma_slides_from_none(n, adj, mills, flying, s, f, (k - 1) as nat);
        assert(!bit(targets(n, adj, flying, s, f), k - 1));
    }
}

proof fn lemma_slides_none(n: int, adj: Seq<u32>, mills: Seq<u32>, flying: bool, s: State, k: nat)
    requires
        forall|f: int, t: int|
            0 <= f < k && bit(s.mover(), f) && 0 <= t < 32 ==> !#[trigger] bit(targets(n, adj, flying, s, f), t),
    ensures
        slides(n, adj, mills, flying, s, k).len() == 0,
    decreases k,
{
    if k > 0 {
        lemma_slides_none(n, adj, mills, flying, s, (k - 1) as nat);
        if bit(s.mover(), k - 1) {
            lemma_slides_from_none(n, adj, mills, flying, s, k - 1, 32);
        }
    }
}

/// Blockade: in the movement phase (no man in hand on either side), a side
/// with three or more men loses only when it has no legal move, whether it
/// slides or, with the flying rule and exactly three men, flies.
pub proof fn lemma_blockade_rule(n: int, adj: Seq<u32>, mills: Seq<u32>, flying: bool, s: State)
    requires
        0 <= n < 32,
        adj.len() == n,
        s.w_hand == 0,
        s.b_hand == 0,
        popcount_below(s.mover(), 32) >= 3,
    ensures
        morris_result(n, adj, flying, s) == Some(Outcome::Loss) ==> legal_moves(n, adj, mills, flying, s).len() == 0,
{
    if morris_result(n, adj, flying, s) == Some(Outcome::Loss) {
        let stm = s.mover();
        let occ = s.white | s.black;
        let low = ((1u32 << (n as u32)) - 1) as u32;
        assert forall|f: int, t: int|
            0 <= f < n && bit(stm, f) && 0 <= t < 32 implies !#[trigger] bit(targets(n, adj, flying, s, f), t) by {
            if flying && popcount_below(stm, 32) == 3 {
                assert(occ == low);
                lemma_bit_and(!occ, low, t);
                lemma_bit_not(occ, t);
            } else {
                assert(adj[f] & !occ == 0u32);
                lemma_bit_zero(t);
            }
        }
        lemma_slides_none(n, adj, mills, flying, s, n as nat);
    }
}

/// After move `t` from `s`, the side that moved holds `p` and did not hold it
/// before: its moved or placed man landed on `p`.
pub open spec fn lands_on(s: State, t: State, p: int) -> bool {
    0 <= p < 32 && bit(t.opponent(), p) && !bit(s.mover(), p)
}

/// After move `t` from `s` the other side is to move, the mover's hand has one
/// man fewer while it still held men (and stays empty otherwise), and the
/// other hand is unchanged.
pub open spec fn hands_after(s: State, t: State) -> bool {
    let spent: int = if s.mover_hand() > 0 {
        s.mover_hand() - 1
    } else {
        0
    };
    &&& s.turn == WHITE ==> t.turn == BLACK && t.w_hand == spent && t.b_hand == s.b_hand
    &&& s.turn != WHITE ==> t.turn == WHITE && t.b_hand == spent && t.w_hand == s.w_hand
}

/// Move `t` from `s` lands a man, and takes an opponent man exactly when the
/// opponent has one and the men of the side that moved fill a mill through
/// the point its man landed on; what it takes is one capturable man.
pub open spec fn captures_by_rule(mills: Seq<u32>, s: State, t: State) -> bool {
    &&& exists|p: int| lands_on(s, t, p)
    &&& hands_after(s, t)
    &&& t.mover() != s.opponent() ==> exists|q: int|
        0 <= q < 32 && bit(removable_spec(mills, s.opponent()), q) && t.mover() == s.opponent() & !(1u32 << (
        q as u32))
    &&& forall|p: int|
        #[trigger] lands_on(s, t, p) ==> (t.mover() != s.opponent() <==> (s.opponent() != 0 && exists|i: int|
            0 <= i < mills.len() && bit(#[trigger] mills[i], p) && t.opponent() & mills[i] == mills[i]))
}

/// `t` is the position after the mover's men become `mover` and it takes the
/// man on `q`, a capturable man of `opp`.
spec fn takes(s: State, mover: u32, opp: u32, rem: u32, t: State, q: int) -> bool {
    0 <= q < 32 && bit(opp, q) && bit(rem, q) && t == s.after_spec(mover, s.spent_hand(), opp & !(1u32 << (q as u32)))
}

/// `t` takes some capturable man of `opp`.
spec fn takes_one(s: State, mover: u32, opp: u32, rem: u32, t: State) -> bool {
    exists|q: int| takes(s, mover, opp, rem, t, q)
}

proof fn lemma_captures_take_one(s: State, mover: u32, opp: u32, rem: u32, k: nat, mills: Seq<u32>)
    requires
        k <= 32,
        rem == removable_spec(mills, opp),
    ensures
        forall|j: int|
            0 <= j < captures(s, mover, opp, rem, k).len() ==> takes_one(
                s,
                mover,
                opp,
                rem,
                #[trigger] captures(s, mover, opp, rem, k)[j],
            ),
    decreases k,
{
    if k > 0 {
        lemma_captures_take_one(s, mover, opp, rem, (k - 1) as nat, mills);
        let prev = captures(s, mover, opp, rem, (k - 1) as nat);
        let cur = captures(s, mover, opp, rem, k);
        if bit(rem, k - 1) {
            lemma_removable_rule(mills, opp, k - 1);
            let x = s.after_spec(mover, s.spent_hand(), opp & !(1u32 << ((k - 1) as u32)));
            assert(cur == prev.push(x));
            assert forall|j: int| 0 <= j < cur.len() implies takes_one(s, mover, opp, rem, #[trigger] cur[j]) by {
                if j < prev.len() {
                    assert(cur[j] == prev[j]);
                } else {
                    assert(cur[j] == x);
                    assert(takes(s, mover, opp, rem, cur[j], k - 1));
                }
            }
        } else {
            assert(cur == prev);
            assert forall|j: int| 0 <= j < cur.len() implies takes_one(s, mover, opp, rem, #[trigger] cur[j]) by {
                assert(cur[j] == prev[j]);
            }
        }
    }
}

proof fn lemma_outcomes_by_rule(mills: Seq<u32>, s: State, mover: u32, dest: int)
    requires
        0 <= dest < 32,
        bit(mover, dest),
        !bit(s.mover(), dest),
        forall|q: int| 0 <= q < 32 && #[trigger] bit(mover, q) && !bit(s.mover(), q) ==> q == dest,
    ensures
        forall|j: int|
            0 <= j < outcomes(mills, s, mover, dest).len() ==> captures_by_rule(
                mills,
                s,
                #[trigger] outcomes(mills, s, mover, dest)[j],
            ),
{
    let opp = s.opponent();
    let outs = outcomes(mills, s, mover, dest);
    assert forall|j: int| 0 <= j < outs.len() implies captures_by_rule(mills, s, #[trigger] outs[j]) by {
        let t = outs[j];
        if mill_through(mills, mover, dest) && opp != 0 {
            let rem = removable_spec(mills, opp);
            lemma_captures_take_one(s, mover, opp, rem, 32, mills);
            let q = choose|q: int| takes(s, mover, opp, rem, t, q);
            let opp2 = opp & !(1u32 << (q as u32));
            assert(t.opponent() == mover && t.mover() == opp2);
            lemma_bit_and(opp, !(1u32 << (q as u32)), q);
            lemma_bit_not(1u32 << (q as u32), q);
            lemma_bit_one(q, q);
            assert(opp2 != opp);
            assert(lands_on(s, t, dest));
        } else {
            assert(t == s.after_spec(mover, s.spent_hand(), opp));
            assert(t.opponent() == mover && t.mover() == opp);
            assert(lands_on(s, t, dest));
        }
    }
}

proof fn lemma_placements_by_rule(n: int, mills: Seq<u32>, s: State, k: nat)
    requires
        k <= n <= 32,
    ensures
        forall|j: int|
            0 <= j < placements(mills, s, k).len() ==> captures_by_rule(mills, s, #[trigger] placements(mills, s, k)[j]),
    decreases k,
{
    if k > 0 {
        lemma_placements_by_rule(n, mills, s, (k - 1) as nat);
        let p = k - 1;
        let prev = placements(mills, s, (k - 1) as nat);
        if !bit(s.white | s.black, p) {
            let stm = s.mover();
            let m2 = stm | (1u32 << (p as u32));
            lemma_bit_or(s.white, s.black, p);
            assert forall|q: int| 0 <= q < 32 implies #[trigger] bit(m2, q) == (bit(stm, q) || q == p) by {
                lemma_bit_or(stm, 1u32 << (p as u32), q);
                lemma_bit_one(p, q);
            }
            lemma_outcomes_by_rule(mills, s, m2, p);
            let outs = outcomes(mills, s, m2, p);
            assert forall|j: int| 0 <= j < (prev + outs).len() implies captures_by_rule(
                mills,
                s,
                #[trigger] (prev + outs)[j],
            ) by {
                if j >= prev.len() {
                    assert((prev + outs)[j] == outs[j - prev.len()]);
                } else {
                    assert((prev + outs)[j] == prev[j]);
                }
            }
        }
    }
}

proof fn lemma_slides_from_by_rule(
    n: int,
    adj: Seq<u32>,
    mills: Seq<u32>,
    flying: bool,
    s: State,
    f: int,
    k: nat,
)
    requires
        0 <= f < n <= 32,
        k <= 32,
    ensures
        forall|j: int|
            0 <= j < slides_from(n, adj, mills, flying, s, f, k).len() ==> captures_by_rule(
                mills,
                s,
                #[trigger] slides_from(n, adj, mills, flying, s, f, k)[j],
            ),
    decreases k,
{
    if k > 0 {
        lemma_slides_from_by_rule(n, adj, mills, flying, s, f, (k - 1) as nat);
        let t = k - 1;
        let prev = slides_from(n, adj, mills, flying, s, f, (k - 1) as nat);
        let tm = targets(n, adj, flying, s, f);
        if bit(tm, t) {
            let stm = s.mover();
            let occ = s.white | s.black;
            if flying && popcount_below(stm, 32) == 3 {
                lemma_bit_and(!occ, ((1u32 << (n as u32)) - 1) as u32, t);
            } else {
                lemma_bit_and(adj[f], !occ, t);
            }
            lemma_bit_not(occ, t);
            lemma_bit_or(s.white, s.black, t);
            let m1 = stm & !(1u32 << (f as u32));
            let m2 = m1 | (1u32 << (t as u32));
            assert forall|q: int| 0 <= q < 32 implies #[trigger] bit(m2, q) == ((bit(stm, q) && q != f) || q == t) by {
                lemma_bit_or(m1, 1u32 << (t as u32), q);
                lemma_bit_one(t, q);
                lemma_bit_and(stm, !(1u32 << (f as u32)), q);
                lemma_bit_not(1u32 << (f as u32), q);
                lemma_bit_one(f, q);
            }
            lemma_outcomes_by_rule(mills, s, m2, t);
            let outs = outcomes(mills, s, m2, t);
            assert forall|j: int| 0 <= j < (prev + outs).len() implies captures_by_rule(
                mills,
                s,
                #[trigger] (prev + outs)[j],
            ) by {
                if j >= prev.len() {
                    assert((prev + outs)[j] == outs[j - prev.len()]);
                } else {
                    assert((prev + outs)[j] == prev[j]);
                }
            }
        }
    }
}

proof fn lemma_slides_by_rule(n: int, adj: Seq<u32>, mills: Seq<u32>, flying: bool, s: State, k: nat)
    requires
        k <= n <= 32,
    ensures
        forall|j: int|
            0 <= j < slides(n, adj, mills, flying, s, k).len() ==> captures_by_rule(
                mills,
                s,
                #[trigger] slides(n, adj, mills, flying, s, k)[j],
            ),
    decreases k,
{
    if k > 0 {
        lemma_slides_by_rule(n, adj, mills, flying, s, (k - 1) as nat);
        let prev = slides(n, adj, mills, flying, s, (k - 1) as nat);
        if bit(s.mover(), k - 1) {
            lemma_slides_from_by_rule(n, adj, mills, flying, s, k - 1, 32);
            let outs = slides_from(n, adj, mills, flying, s, k - 1, 32);
            assert forall|j: int| 0 <= j < (prev + outs).len() implies captures_by_rule(
                mills,
                s,
                #[trigger] (prev + outs)[j],
            ) by {
                if j >= prev.len() {
                    assert((prev + outs)[j] == outs[j - prev.len()]);
                } else {
                    assert((prev + outs)[j] == prev[j]);
                }
            }
        }
    }
}

/// Captures follow the mill rule: every legal move lands a man on some point
/// the side to move did not hold, and it takes an opponent man exactly when
/// the opponent has one and the mover's men then fill a mill through that
/// point; any other move leaves the opponent's men as they were. A capture
/// takes exactly one man, one that may be captured (see
/// [`lemma_removable_rule`]). The turn passes and the mover's hand is spent by
/// a placement.
pub proof fn lemma_capture_rule(n: int, adj: Seq<u32>, mills: Seq<u32>, flying: bool, s: State, j: int)
    requires
        0 <= n <= 32,
        0 <= j < legal_moves(n, adj, mills, flying, s).len(),
    ensures
        ({
            let t = legal_moves(n, adj, mills, flying, s)[j];
            &&& exists|p: int| 0 <= p < 32 && bit(t.opponent(), p) && !bit(s.mover(), p)
            &&& hands_after(s, t)
            &&& t.mover() != s.opponent() ==> exists|q: int|
                0 <= q < 32 && bit(removable_spec(mills, s.opponent()), q) && t.mover() == s.opponent() & !(1u32 << (
                q as u32))
            &&& forall|p: int|
                0 <= p < 32 && #[trigger] bit(t.opponent(), p) && !bit(s.mover(), p) ==> (t.mover() != s.opponent()
                    <==> (s.opponent() != 0 && exists|i: int|
                    0 <= i < mills.len() && bit(#[trigger] mills[i], p) && t.opponent() & mills[i] == mills[i]))
        }),
{
    let t = legal_moves(n, adj, mills, flying, s)[j];
    if s.mover_hand() > 0 {
        lemma_placements_by_rule(n, mills, s, n as nat);
    } else {
        lemma_slides_by_rule(n, adj, mills, flying, s, n as nat);
    }
    assert(captures_by_rule(mills, s, t));
    let p0 = choose|p: int| lands_on(s, t, p);
    assert(0 <= p0 < 32 && bit(t.opponent(), p0) && !bit(s.mover(), p0));
    assert forall|p: int| 0 <= p < 32 && #[trigger] bit(t.opponent(), p) && !bit(s.mover(), p) implies (t.mover()
        != s.opponent() <==> (s.opponent() != 0 && exists|i: int|
        0 <= i < mills.len() && bit(#[trigger] mills[i], p) && t.opponent() & mills[i] == mills[i])) by {
        assert(lands_on(s, t, p));
    }
}

proof fn lemma_has_bit(m: u32)
    requires
        m != 0,
    ensures
        exists|q: int| 0 <= q < 32 && #[trigger] bit(m, q),
{
    if forall|q: int| 0 <= q < 32 ==> !#[trigger] bit(m, q) {
        assert forall|q: int| 0 <= q < 32 implies #[trigger] bit(m, q) == bit(0u32, q) by {
            lemma_bit_zero(q);
        }
        lemma_bits_ext(m, 0u32);
    }
}

proof fn lemma_no_bits_no_men(m: u32, k: nat)
    requires
        k <= 32,
        forall|q: int| 0 <= q < 32 ==> !#[trigger] bit(m, q),
    ensures
        popcount_below(m, k) == 0,
    decreases k,
{
    if k > 0 {
        lemma_no_bits_no_men(m, (k - 1) as nat);
        assert(!bit(m, k - 1));
    }
}

proof fn lemma_captures_contain(s: State, mover: u32, opp: u32, rem: u32, k: nat, q: int)
    requires
        0 <= q < k <= 32,
        bit(rem, q),
    ensures
        captures(s, mover, opp, rem, k).contains(s.after_spec(mover, s.spent_hand(), opp & !(1u32 << (q as u32)))),
    decreases k,
{
    let x = s.after_spec(mover, s.spent_hand(), opp & !(1u32 << (q as u32)));
    let prev = captures(s, mover, opp, rem, (k - 1) as nat);
    if q == k - 1 {
        assert(captures(s, mover, opp, rem, k) == prev.push(x));
        assert(prev.push(x)[prev.len() as int] == x);
    } else {
        lemma_captures_contain(s, mover, opp, rem, (k - 1) as nat, q);
        let j = choose|j: int| 0 <= j < prev.len() && prev[j] == x;
        if bit(rem, k - 1) {
            let y = s.after_spec(mover, s.spent_hand(), opp & !(1u32 << ((k - 1) as u32)));
            assert(captures(s, mover, opp, rem, k) == prev.push(y));
            assert(prev.push(y)[j] == x);
        }
    }
}

/// What a base move leads to: every capture of a capturable man when it fills
/// a mill through `dest` and the opponent has men, else the one position; and
/// it always leads somewhere.
proof fn lemma_outcomes_cover(mills: Seq<u32>, s: State, mover: u32, dest: int)
    ensures
        outcomes(mills, s, mover, dest).len() > 0,
        (mill_through(mills, mover, dest) && s.opponent() != 0) ==> forall|q: int|
            0 <= q < 32 && #[trigger] bit(removable_spec(mills, s.opponent()), q) ==> outcomes(
                mills,
                s,
                mover,
                dest,
            ).contains(s.after_spec(mover, s.spent_hand(), s.opponent() & !(1u32 << (q as u32)))),
        !(mill_through(mills, mover, dest) && s.opponent() != 0) ==> outcomes(mills, s, mover, dest).contains(
            s.after_spec(mover, s.spent_hand(), s.opponent()),
        ),
{
    let opp = s.opponent();
    if mill_through(mills, mover, dest) && opp != 0 {
        let rem = removable_spec(mills, opp);
        assert forall|q: int| 0 <= q < 32 && #[trigger] bit(rem, q) implies outcomes(mills, s, mover, dest).contains(
            s.after_spec(mover, s.spent_hand(), opp & !(1u32 << (q as u32))),
        ) by {
            lemma_captures_contain(s, mover, opp, rem, 32, q);
        }
        assert(rem != 0);
        lemma_has_bit(rem);
        let q = choose|q: int| 0 <= q < 32 && #[trigger] bit(rem, q);
        lemma_captures_contain(s, mover, opp, rem, 32, q);
    } else {
        assert(outcomes(mills, s, mover, dest)[0] == s.after_spec(mover, s.spent_hand(), opp));
    }
}

proof fn lemma_placements_contain(mills: Seq<u32>, s: State, k: nat, p: int, x: State)
    requires
        0 <= p < k <= 32,
        !bit(s.white | s.black, p),
        outcomes(mills, s, s.mover() | (1u32 << (p as u32)), p).contains(x),
    ensures
        placements(mills, s, k).contains(x),
    decreases k,
{
    let prev = placements(mills, s, (k - 1) as nat);
    if p == k - 1 {
        let outs = outcomes(mills, s, s.mover() | (1u32 << (p as u32)), p);
        let j = choose|j: int| 0 <= j < outs.len() && outs[j] == x;
        assert((prev + outs)[prev.len() + j] == x);
    } else {
        lemma_placements_contain(mills, s, (k - 1) as nat, p, x);
        let j = choose|j: int| 0 <= j < prev.len() && prev[j] == x;
        if !bit(s.white | s.black, k - 1) {
            let outs = outcomes(mills, s, s.mover() | (1u32 << ((k - 1) as u32)), k - 1);
            assert((prev + outs)[j] == x);
        }
    }
}

proof fn lemma_slides_from_contain(
    n: int,
    adj: Seq<u32>,
    mills: Seq<u32>,
    flying: bool,
    s: State,
    f: int,
    k: nat,
    t: int,
    x: State,
)
    requires
        0 <= t < k <= 32,
        bit(targets(n, adj, flying, s, f), t),
        outcomes(mills, s, (s.mover() & !(1u32 << (f as u32))) | (1u32 << (t as u32)), t).contains(x),
    ensures
        slides_from(n, adj, mills, flying, s, f, k).contains(x),
    decreases k,
{
    let prev = slides_from(n, adj, mills, flying, s, f, (k - 1) as nat);
    if t == k - 1 {
        let outs = outcomes(mills, s, (s.mover() & !(1u32 << (f as u32))) | (1u32 << (t as u32)), t);
        let j = choose|j: int| 0 <= j < outs.len() && outs[j] == x;
        assert((prev + outs)[prev.len() + j] == x);
    } else {
        lemma_slides_from_contain(n, adj, mills, flying, s, f, (k - 1) as nat, t, x);
        let j = choose|j: int| 0 <= j < prev.len() && prev[j] == x;
        if bit(targets(n, adj, flying, s, f), k - 1) {
            let outs = outcomes(
                mills,
                s,
                (s.mover() & !(1u32 << (f as u32))) | (1u32 << ((k - 1) as u32)),
                k - 1,
            );
            assert((prev + outs)[j] == x);
        }
    }
}

proof fn lemma_slides_contain(n: int, adj: Seq<u32>, mills: Seq<u32>, flying: bool, s: State, k: nat, f: int, x: State)
    requires
        0 <= f < k,
        bit(s.mover(), f),
        slides_from(n, adj, mills, flying, s, f, 32).contains(x),
    ensures
        slides(n, adj, mills, flying, s, k).contains(x),
    decreases k,
{
    let prev = slides(n, adj, mills, flying, s, (k - 1) as nat);
    if f == k - 1 {
        let outs = slides_from(n, adj, mills, flying, s, f, 32);
        let j = choose|j: int| 0 <= j < outs.len() && outs[j] == x;
        assert((prev + outs)[prev.len() + j] == x);
    } else {
        lemma_slides_contain(n, adj, mills, flying, s, (k - 1) as nat, f, x);
        let j = choose|j: int| 0 <= j < prev.len() && prev[j] == x;
        if bit(s.mover(), k - 1) {
            let outs = slides_from(n, adj, mills, flying, s, k - 1, 32);
            assert((prev + outs)[j] == x);
        }
    }
}

/// Every placement is a legal move: while the side to move has men in hand,
/// dropping one on any empty point `p` of the board is among the legal moves,
/// followed by the capture of each capturable man when the new man fills a
/// mill through `p` and the opponent has men, and otherwise with the
/// opponent's men untouched.
pub proof fn lemma_placement_complete(n: int, adj: Seq<u32>, mills: Seq<u32>, flying: bool, s: State, p: int)
    requires
        0 <= p < n <= 32,
        s.mover_hand() > 0,
        !bit(s.white | s.black, p),
    ensures
        ({
            let moves = legal_moves(n, adj, mills, flying, s);
            let m = s.mover() | (1u32 << (p as u32));
            let filled = exists|i: int| 0 <= i < mills.len() && bit(#[trigger] mills[i], p) && m & mills[i] == mills[i];
            &&& (filled && s.opponent() != 0) ==> forall|q: int|
                0 <= q < 32 && #[trigger] bit(removable_spec(mills, s.opponent()), q) ==> moves.contains(
                    s.after_spec(m, s.spent_hand(), s.opponent() & !(1u32 << (q as u32))),
                )
            &&& !(filled && s.opponent() != 0) ==> moves.contains(s.after_spec(m, s.spent_hand(), s.opponent()))
            &&& moves.len() > 0
        }),
{
    let m = s.mover() | (1u32 << (p as u32));
    lemma_outcomes_cover(mills, s, m, p);
    let x0 = outcomes(mills, s, m, p)[0];
    assert(outcomes(mills, s, m, p).contains(x0));
    lemma_placements_contain(mills, s, n as nat, p, x0);
    let opp = s.opponent();
    if mill_through(mills, m, p) && opp != 0 {
        assert forall|q: int| 0 <= q < 32 && #[trigger] bit(removable_spec(mills, opp), q) implies legal_moves(
            n,
            adj,
            mills,
            flying,
            s,
        ).contains(s.after_spec(m, s.spent_hand(), opp & !(1u32 << (q as u32)))) by {
            lemma_placements_contain(mills, s, n as nat, p, s.after_spec(m, s.spent_hand(), opp & !(1u32 << (q as u32))));
        }
    } else {
        lemma_placements_contain(mills, s, n as nat, p, s.after_spec(m, s.spent_hand(), opp));
    }
}

/// Every slide is a legal move: with no men in hand, moving a man from `f` to
/// an empty point `t` it may reach (a neighbour of `f`, or, when its side
/// flies with exactly three men, any point of the board) is among the legal
/// moves, followed by each capture when the moved man fills a mill through
/// `t` and the opponent has men, and otherwise with the opponent untouched.
pub proof fn lemma_slide_complete(
    n: int,
    adj: Seq<u32>,
    mills: Seq<u32>,
    flying: bool,
    s: State,
    f: int,
    t: int,
)
    requires
        0 <= n < 32,
        0 <= f < n,
        0 <= t < 32,
        s.mover_hand() == 0,
        bit(s.mover(), f),
        !bit(s.white | s.black, t),
        if flying && popcount_below(s.mover(), 32) == 3 {
            t < n
        } else {
            bit(adj[f], t)
        },
    ensures
        ({
            let moves = legal_moves(n, adj, mills, flying, s);
            let m = (s.mover() & !(1u32 << (f as u32))) | (1u32 << (t as u32));
            let filled = exists|i: int| 0 <= i < mills.len() && bit(#[trigger] mills[i], t) && m & mills[i] == mills[i];
            &&& (filled && s.opponent() != 0) ==> forall|q: int|
                0 <= q < 32 && #[trigger] bit(removable_spec(mills, s.opponent()), q) ==> moves.contains(
                    s.after_spec(m, s.spent_hand(), s.opponent() & !(1u32 << (q as u32))),
                )
            &&& !(filled && s.opponent() != 0) ==> moves.contains(s.after_spec(m, s.spent_hand(), s.opponent()))
            &&& moves.len() > 0
        }),
{
    let m = (s.mover() & !(1u32 << (f as u32))) | (1u32 << (t as u32));
    let occ = s.white | s.black;
    lemma_bit_not(occ, t);
    if flying && popcount_below(s.mover(), 32) == 3 {
        lemma_bit_and(!occ, ((1u32 << (n as u32)) - 1) as u32, t);
        lemma_bit_low(n, t);
    } else {
        lemma_bit_and(adj[f], !occ, t);
    }
    assert(bit(targets(n, adj, flying, s, f), t));
    lemma_outcomes_cover(mills, s, m, t);
    let x0 = outcomes(mills, s, m, t)[0];
    assert(outcomes(mills, s, m, t).contains(x0));
    lemma_slides_from_contain(n, adj, mills, flying, s, f, 32, t, x0);
    lemma_slides_contain(n, adj, mills, flying, s, n as nat, f, x0);
    let opp = s.opponent();
    if mill_through(mills, m, t) && opp != 0 {
        assert forall|q: int| 0 <= q < 32 && #[trigger] bit(removable_spec(mills, opp), q) implies legal_moves(
            n,
            adj,
            mills,
            flying,
            s,
        ).contains(s.after_spec(m, s.spent_hand(), opp & !(1u32 << (q as u32)))) by {
            let x = s.after_spec(m, s.spent_hand(), opp & !(1u32 << (q as u32)));
            lemma_slides_from_contain(n, adj, mills, flying, s, f, 32, t, x);
            lemma_slides_contain(n, adj, mills, flying, s, n as nat, f, x);
        }
    } else {
        let x = s.after_spec(m, s.spent_hand(), opp);
        lemma_slides_from_contain(n, adj, mills, flying, s, f, 32, t, x);
        lemma_slides_contain(n, adj, mills, flying, s, n as nat, f, x);
    }
}

/// When a morris game ends: never while a man is still in hand; with both
/// hands empty, the side to move loses when it is down to fewer than three
/// men; and an ended game is always a loss for the side to move (no draws by
/// rule).
pub proof fn lemma_end_rule(n: int, adj: Seq<u32>, flying: bool, s: State)
    ensures
        (s.w_hand > 0 || s.b_hand > 0) ==> morris_result(n, adj, flying, s) is None,
        s.w_hand == 0 && s.b_hand == 0 && popcount_below(s.mover(), 32) < 3 ==> morris_result(n, adj, flying, s)
            == Some(Outcome::Loss),
        morris_result(n, adj, flying, s) is Some ==> morris_result(n, adj, flying, s) == Some(Outcome::Loss),
{
}

/// A side in the movement phase with its men on the board, three or more of
/// them, and no legal move has lost by blockade.
pub proof fn lemma_blockade_when_stuck(n: int, adj: Seq<u32>, mills: Seq<u32>, flying: bool, s: State)
    requires
        0 <= n < 32,
        adj.len() == n,
        s.w_hand == 0,
        s.b_hand == 0,
        within32(s.white, n),
        within32(s.black, n),
        popcount_below(s.mover(), 32) >= 3,
        legal_moves(n, adj, mills, flying, s).len() == 0,
    ensures
        morris_result(n, adj, flying, s) == Some(Outcome::Loss),
{
    let stm = s.mover();
    let occ = s.white | s.black;
    let low = ((1u32 << (n as u32)) - 1) as u32;
    let cnt = popcount_below(stm, 32);
    if morris_result(n, adj, flying, s) != Some(Outcome::Loss) {
        if flying && cnt == 3 {
            assert(occ != low);
            if forall|t: int| 0 <= t < n ==> #[trigger] bit(occ, t) {
                assert forall|t: int| 0 <= t < 32 implies #[trigger] bit(occ, t) == bit(low, t) by {
                    lemma_bit_low(n, t);
                    lemma_bit_or(s.white, s.black, t);
                }
                lemma_bits_ext(occ, low);
            }
            let t = choose|t: int| 0 <= t < n && !#[trigger] bit(occ, t);
            if forall|q: int| 0 <= q < 32 ==> !#[trigger] bit(stm, q) {
                lemma_no_bits_no_men(stm, 32);
            }
            let f = choose|f: int| 0 <= f < 32 && #[trigger] bit(stm, f);
            assert(f < n);
            lemma_slide_complete(n, adj, mills, flying, s, f, t);
        } else {
            assert(can_slide(adj, stm, occ));
            let f = choose|f: int| #![trigger adj[f]] 0 <= f < adj.len() && bit(stm, f) && adj[f] & !occ != 0u32;
            lemma_has_bit(adj[f] & !occ);
            let t = choose|t: int| 0 <= t < 32 && #[trigger] bit(adj[f] & !occ, t);
            lemma_bit_and(adj[f], !occ, t);
            lemma_bit_not(occ, t);
            lemma_slide_complete(n, adj, mills, flying, s, f, t);
        }
    }
}

/// Both colours' men lie on points below `n`.
pub open spec fn on_board(n: int, s: State) -> bool {
    within32(s.white, n) && within32(s.black, n)
}

proof fn lemma_captures_on_board(n: int, s: State, mover: u32, opp: u32, rem: u32, k: nat)
    requires
        0 <= n <= 32,
        within32(mover, n),
        within32(opp, n),
        k <= 32,
    ensures
        forall|j: int| 0 <= j < captures(s, mover, opp, rem, k).len() ==> on_board(n, #[trigger] captures(s, mover, opp, rem, k)[j]),
    decreases k,
{
    if k > 0 {
        lemma_captures_on_board(n, s, mover, opp, rem, (k - 1) as nat);
        if bit(rem, k - 1) {
            let opp2 = opp & !(1u32 << ((k - 1) as u32));
            lemma_capture_subset(opp, k - 1);
            assert forall|p: int| n <= p < 32 implies !#[trigger] bit(opp2, p) by {
                assert(!bit(opp, p));
            }
            let prev = captures(s, mover, opp, rem, (k - 1) as nat);
            let x = s.after_spec(mover, s.spent_hand(), opp2);
            assert(on_board(n, x));
            assert forall|j: int| 0 <= j < prev.push(x).len() implies on_board(n, #[trigger] prev.push(x)[j]) by {
                if j < prev.len() {
                    assert(prev.push(x)[j] == prev[j]);
                }
            }
            assert(captures(s, mover, opp, rem, k) == prev.push(x));
        } else {
            assert(captures(s, mover, opp, rem, k) == captures(s, mover, opp, rem, (k - 1) as nat));
        }
    }
}

proof fn lemma_outcomes_on_board(n: int, mills: Seq<u32>, s: State, mover: u32, dest: int)
    requires
        0 <= n <= 32,
        on_board(n, s),
        within32(mover, n),
    ensures
        forall|j: int| 0 <= j < outcomes(mills, s, mover, dest).len() ==> on_board(n, #[trigger] outcomes(mills, s, mover, dest)[j]),
{
    let opp = s.opponent();
    if mill_through(mills, mover, dest) && opp != 0 {
        lemma_captures_on_board(n, s, mover, opp, removable_spec(mills, opp), 32);
    } else {
        assert(on_board(n, s.after_spec(mover, s.spent_hand(), opp)));
    }
}

proof fn lemma_placements_on_board(n: int, mills: Seq<u32>, s: State, k: nat)
    requires
        on_board(n, s),
        k <= n < 32,
    ensures
        forall|j: int| 0 <= j < placements(mills, s, k).len() ==> on_board(n, #[trigger] placements(mills, s, k)[j]),
    decreases k,
{
    if k > 0 {
        lemma_placements_on_board(n, mills, s, (k - 1) as nat);
        let p = k - 1;
        let prev = placements(mills, s, (k - 1) as nat);
        if !bit(s.white | s.black, p) {
            let stm = s.mover();
            let m2 = stm | (1u32 << (p as u32));
            assert forall|q: int| n <= q < 32 implies !#[trigger] bit(m2, q) by {
                lemma_bit_or(stm, 1u32 << (p as u32), q);
                lemma_bit_one(p, q);
            }
            lemma_outcomes_on_board(n, mills, s, m2, p);
            let outs = outcomes(mills, s, m2, p);
            assert forall|j: int| 0 <= j < (prev + outs).len() implies on_board(n, #[trigger] (prev + outs)[j]) by {
                if j >= prev.len() {
                    assert((prev + outs)[j] == outs[j - prev.len()]);
                }
            }
        }
    }
}

proof fn lemma_slides_from_on_board(
    n: int,
    adj: Seq<u32>,
    mills: Seq<u32>,
    flying: bool,
    s: State,
    f: int,
    k: nat,
)
    requires
        on_board(n, s),
        adj_within(adj, n),
        adj.len() == n,
        0 <= f < n < 32,
        k <= 32,
    ensures
        forall|j: int|
            0 <= j < slides_from(n, adj, mills, flying, s, f, k).len() ==> on_board(
                n,
                #[trigger] slides_from(n, adj, mills, flying, s, f, k)[j],
            ),
    decreases k,
{
    if k > 0 {
        lemma_slides_from_on_board(n, adj, mills, flying, s, f, (k - 1) as nat);
        let t = k - 1;
        let prev = slides_from(n, adj, mills, flying, s, f, (k - 1) as nat);
        let tm = targets(n, adj, flying, s, f);
        if bit(tm, t) {
            let stm = s.mover();
            let occ = s.white | s.black;
            if flying && popcount_below(stm, 32) == 3 {
                lemma_bit_and(!occ, ((1u32 << (n as u32)) - 1) as u32, t);
                lemma_bit_low(n, t);
            } else {
                lemma_bit_and(adj[f], !occ, t);
                assert(within32(adj[f], n));
            }
            assert(t < n);
            let m1 = stm & !(1u32 << (f as u32));
            let m2 = m1 | (1u32 << (t as u32));
            assert forall|q: int| n <= q < 32 implies !#[trigger] bit(m2, q) by {
                lemma_bit_or(m1, 1u32 << (t as u32), q);
                lemma_bit_one(t, q);
                lemma_bit_and(stm, !(1u32 << (f as u32)), q);
            }
            lemma_outcomes_on_board(n, mills, s, m2, t);
            let outs = outcomes(mills, s, m2, t);
            assert forall|j: int| 0 <= j < (prev + outs).len() implies on_board(n, #[trigger] (prev + outs)[j]) by {
                if j >= prev.len() {
                    assert((prev + outs)[j] == outs[j - prev.len()]);
                }
            }
        }
    }
}

proof fn lemma_slides_on_board(n: int, adj: Seq<u32>, mills: Seq<u32>, flying: bool, s: State, k: nat)
    requires
        on_board(n, s),
        adj_within(adj, n),
        adj.len() == n,
        k <= n < 32,
    ensures
        forall|j: int|
            0 <= j < slides(n, adj, mills, flying, s, k).len() ==> on_board(n, #[trigger] slides(n, adj, mills, flying, s, k)[j]),
    decreases k,
{
    if k > 0 {
        lemma_slides_on_board(n, adj, mills, flying, s, (k - 1) as nat);
        let prev = slides(n, adj, mills, flying, s, (k - 1) as nat);
        if bit(s.mover(), k - 1) {
            lemma_slides_from_on_board(n, adj, mills, flying, s, k - 1, 32);
            let outs = slides_from(n, adj, mills, flying, s, k - 1, 32);
            assert forall|j: int| 0 <= j < (prev + outs).len() implies on_board(n, #[trigger] (prev + outs)[j]) by {
                if j >= prev.len() {
                    assert((prev + outs)[j] == outs[j - prev.len()]);
                }
            }
        }
    }
}

/// Every legal move from a position with its men on the board keeps them on
/// the board.
pub proof fn lemma_legal_moves_on_board(n: int, adj: Seq<u32>, mills: Seq<u32>, flying: bool, s: State)
    requires
        on_board(n, s),
        adj_within(adj, n),
        adj.len() == n,
        0 <= n < 32,
    ensures
        forall|j: int|
            0 <= j < legal_moves(n, adj, mills, flying, s).len() ==> on_board(n, #[trigger] legal_moves(n, adj, mills, flying, s)[j]),
{
    if s.mover_hand() > 0 {
        lemma_placements_on_board(n, mills, s, n as nat);
    } else {
        lemma_slides_on_board(n, adj, mills, flying, s, n as nat);
    }
}

/// Every legal move from a valid position leads to a valid position.
pub proof fn lemma_legal_moves_valid(n: int, adj: Seq<u32>, mills: Seq<u32>, flying: bool, men: int, s: State)
    requires
        valid_state(n, men, s),
        adj_within(adj, n),
        adj.len() == n,
        0 <= n < 32,
    ensures
        forall|j: int|
            0 <= j < legal_moves(n, adj, mills, flying, s).len() ==> valid_state(n, men, #[trigger] legal_moves(n, adj, mills, flying, s)[j]),
{
    if s.mover_hand() > 0 {
        lemma_placements_valid(n, men, mills, s, n as nat);
    } else {
        lemma_slides_valid(n, adj, mills, flying, men, s, n as nat);
    }
}

} // verus!
