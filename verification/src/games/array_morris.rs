//! Six men's morris a second time, with a *different representation*: a
//! `[u8; 16]` cell array and a board derived from the two rings and their
//! spokes rather than the hand-written bitmasks of [`super::morris`]. Solving
//! both and comparing the reachable-state count, the win/loss/draw split and
//! the starting value checks the two against each other; the same
//! representation also gives five men's morris (same board, 5 men).

use vstd::prelude::*;
use crate::Outcome;
use crate::reachable::{RulesGame, StateKey};
use crate::retrograde::{lemma_occurrences_push, occurrences};
use vstd::array::spec_array_update;

verus! {

pub const E: u8 = 0;

pub const W: u8 = 1;

pub const B: u8 = 2;

/// The neighbours of point `a`, in the order the board walk adds them: the
/// two along its ring (the ring is walked point by point, each step joining a
/// point to the next), then, for a side-midpoint, the spoke to the other ring.
pub open spec fn adj_list(a: int) -> Seq<usize> {
    let r = a / 8;
    let i = a % 8;
    let base = 8 * r;
    let ring = if i == 0 {
        seq![(base + 1) as usize, (base + 7) as usize]
    } else {
        seq![(base + i - 1) as usize, (base + (i + 1) % 8) as usize]
    };
    if i % 2 == 1 {
        ring.push((if r == 0 {
            a + 8
        } else {
            a - 8
        }) as usize)
    } else {
        ring
    }
}

/// Point `k` (0..3) of mill `j`: corner, mid, corner of one side of a ring.
pub open spec fn mill_point(j: int, k: int) -> int {
    8 * (j / 4) + (2 * (j % 4) + k) % 8
}

/// `m` is mill `j`.
pub open spec fn mill_at(m: [usize; 3], j: int) -> bool {
    m[0] as int == mill_point(j, 0) && m[1] as int == mill_point(j, 1) && m[2] as int == mill_point(j, 2)
}

/// Derive the adjacency from the two rings and the spokes between them.
pub fn adjacency() -> (adj: Vec<Vec<usize>>)
    ensures
        adj@.len() == 16,
        forall|a: int| 0 <= a < 16 ==> (#[trigger] adj@[a])@ == adj_list(a),
{
    let mut adj: Vec<Vec<usize>> = Vec::new();
    let mut a: usize = 0;
    while a < 16
        invariant
            a <= 16,
            adj@.len() == a,
            forall|x: int| 0 <= x < a ==> (#[trigger] adj@[x])@ == adj_list(x),
        decreases 16 - a,
    {
        let r = a / 8;
        let i = a % 8;
        let base = 8 * r;
        let mut l: Vec<usize> = Vec::new();
        if i == 0 {
            l.push(base + 1);
            l.push(base + 7);
        } else {
            l.push(base + i - 1);
            l.push(base + (i + 1) % 8);
        }
        if i % 2 == 1 {
            l.push(if r == 0 {
                a + 8
            } else {
                a - 8
            });
        }
        proof {
            assert(l@ =~= adj_list(a as int));
        }
        adj.push(l);
        a += 1;
    }
    adj
}

/// The mills: the four corner-mid-corner sides of each ring.
pub fn mills() -> (m: Vec<[usize; 3]>)
    ensures
        m@.len() == 8,
        forall|j: int| 0 <= j < 8 ==> mill_at(#[trigger] m@[j], j),
{
    let mut m: Vec<[usize; 3]> = Vec::new();
    let mut j: usize = 0;
    while j < 8
        invariant
            j <= 8,
            m@.len() == j,
            forall|x: int| 0 <= x < j ==> mill_at(#[trigger] m@[x], x),
        decreases 8 - j,
    {
        let base = 8 * (j / 4);
        let s = j % 4;
        let side = [base + 2 * s, base + 2 * s + 1, base + (2 * s + 2) % 8];
        proof {
            assert(side[0] as int == mill_point(j as int, 0));
            assert(side[1] as int == mill_point(j as int, 1));
            assert(side[2] as int == mill_point(j as int, 2));
        }
        m.push(side);
        j += 1;
    }
    m
}

#[derive(Clone, Copy, PartialEq, Eq, Debug)]
pub struct ArrState {
    pub cells: [u8; 16],
    pub w_hand: u8,
    pub b_hand: u8,
    pub turn: u8,
}

pub struct ArrMorris {
    men: u8,
    adj: Vec<Vec<usize>>,
    mills: Vec<[usize; 3]>,
}

/// `player` holds the whole of some mill through point `p`.
pub open spec fn in_mill_spec(mills: Seq<[usize; 3]>, cells: Seq<u8>, p: int, player: u8) -> bool {
    exists|i: int|
        #![trigger mills[i]]
        0 <= i < mills.len() && (mills[i][0] == p || mills[i][1] == p || mills[i][2] == p) && cells[mills[i][0]
            as int] == player && cells[mills[i][1] as int] == player && cells[mills[i][2] as int] == player
}

/// The position after the mover's move: the new cells, the mover's hand,
/// and the other side to move.
pub open spec fn flipped_spec(s: ArrState, cells: [u8; 16], mover_hand: u8) -> ArrState {
    ArrState {
        cells,
        w_hand: if s.turn == W {
            mover_hand
        } else {
            s.w_hand
        },
        b_hand: if s.turn == W {
            s.b_hand
        } else {
            mover_hand
        },
        turn: if s.turn == W {
            B
        } else {
            W
        },
    }
}

/// The points below `k` holding a man of `opp` that may be captured: `free`
/// asks that the man be in no mill.
pub open spec fn targets_below(mills: Seq<[usize; 3]>, cells: Seq<u8>, opp: u8, free: bool, k: nat) -> Seq<usize>
    decreases k,
{
    if k == 0 {
        Seq::empty()
    } else {
        let prev = targets_below(mills, cells, opp, free, (k - 1) as nat);
        if cells[k - 1] == opp && (!free || !in_mill_spec(mills, cells, k - 1, opp)) {
            prev.push((k - 1) as usize)
        } else {
            prev
        }
    }
}

impl ArrState {
    /// The side to move and its opponent.
    pub open spec fn stm(self) -> u8 {
        self.turn
    }

    pub open spec fn opp(self) -> u8 {
        if self.turn == W {
            B
        } else {
            W
        }
    }

    /// The men the side to move holds in hand, and after this move.
    pub open spec fn hand(self) -> u8 {
        if self.turn == W {
            self.w_hand
        } else {
            self.b_hand
        }
    }

    pub open spec fn new_hand(self) -> u8 {
        if self.hand() > 0 {
            (self.hand() - 1) as u8
        } else {
            0
        }
    }
}

impl ArrMorris {
    pub closed spec fn adj_v(&self) -> Seq<Seq<usize>> {
        self.adj@.map_values(|v: Vec<usize>| v@)
    }

    pub closed spec fn mills_v(&self) -> Seq<[usize; 3]> {
        self.mills@
    }

    pub closed spec fn men_v(&self) -> u8 {
        self.men
    }

    /// The tables are the ring board's.
    pub open spec fn tables_ok(&self) -> bool {
        &&& self.adj_v().len() == 16
        &&& forall|a: int| 0 <= a < 16 ==> #[trigger] self.adj_v()[a] == adj_list(a)
        &&& self.mills_v().len() == 8
        &&& forall|j: int| 0 <= j < 8 ==> mill_at(#[trigger] self.mills_v()[j], j)
    }

    /// What a move to `dest` leaving `cells` leads to: a capture of each
    /// capturable opponent man if it closes a mill, else the one position.
    pub open spec fn expand(&self, s: ArrState, cells: [u8; 16], dest: int) -> Seq<ArrState> {
        let formed = in_mill_spec(self.mills_v(), cells@, dest, s.stm());
        if formed && occurrences(cells@, s.opp()) > 0 {
            let free = targets_below(self.mills_v(), cells@, s.opp(), true, 16);
            let targets = if free.len() == 0 {
                targets_below(self.mills_v(), cells@, s.opp(), false, 16)
            } else {
                free
            };
            targets.map_values(|q: usize| flipped_spec(s, spec_array_update(cells, q as int, E), s.new_hand()))
        } else {
            seq![flipped_spec(s, cells, s.new_hand())]
        }
    }

    /// Drops on the empty points below `k`, in point order.
    pub open spec fn drops(&self, s: ArrState, k: nat) -> Seq<ArrState>
        decreases k,
    {
        if k == 0 {
            Seq::empty()
        } else {
            let prev = self.drops(s, (k - 1) as nat);
            if s.cells@[k - 1] == E {
                prev + self.expand(s, spec_array_update(s.cells, k - 1, s.stm()), k - 1)
            } else {
                prev
            }
        }
    }

    /// Slides of the man on `f` along the first `k` entries of its neighbour list.
    pub open spec fn slides_from(&self, s: ArrState, f: int, k: nat) -> Seq<ArrState>
        decreases k,
    {
        if k == 0 {
            Seq::empty()
        } else {
            let prev = self.slides_from(s, f, (k - 1) as nat);
            let t = self.adj_v()[f][k - 1] as int;
            if s.cells@[t] == E {
                prev + self.expand(s, spec_array_update(spec_array_update(s.cells, f, E), t, s.stm()), t)
            } else {
                prev
            }
        }
    }

    /// Slides of the mover's men on the points below `k`, in point order.
    pub open spec fn slides(&self, s: ArrState, k: nat) -> Seq<ArrState>
        decreases k,
    {
        if k == 0 {
            Seq::empty()
        } else {
            let prev = self.slides(s, (k - 1) as nat);
            if s.cells@[k - 1] == s.stm() {
                prev + self.slides_from(s, k - 1, self.adj_v()[k - 1].len())
            } else {
                prev
            }
        }
    }

    /// Point `f` has an empty neighbour.
    pub open spec fn empty_nbr(&self, s: ArrState, f: int) -> bool {
        exists|j: int| 0 <= j < self.adj_v()[f].len() && s.cells@[#[trigger] self.adj_v()[f][j] as int] == E
    }

    /// Some man of the side to move has an empty neighbour.
    pub open spec fn can_move(&self, s: ArrState) -> bool {
        exists|f: int| 0 <= f < 16 && s.cells@[f] == s.stm() && #[trigger] self.empty_nbr(s, f)
    }

    pub fn new(men: u8) -> (g: Self)
        ensures
            g.men_v() == men,
            g.tables_ok(),
    {
        let g = ArrMorris { men, adj: adjacency(), mills: mills() };
        proof {
            assert forall|a: int| 0 <= a < 16 implies #[trigger] g.adj_v()[a] == adj_list(a) by {
                assert(g.adj_v()[a] == g.adj@[a]@);
            }
        }
        g
    }

    fn in_mill(&self, cells: &[u8; 16], p: usize, player: u8) -> (r: bool)
        requires
            self.tables_ok(),
        ensures
            r == in_mill_spec(self.mills_v(), cells@, p as int, player),
    {
        let mut i: usize = 0;
        while i < self.mills.len()
            invariant
                self.tables_ok(),
                i <= self.mills@.len(),
                forall|j: int|
                    0 <= j < i ==> !((#[trigger] self.mills@[j][0] == p || self.mills@[j][1] == p || self.mills@[j][2]
                        == p) && cells@[self.mills@[j][0] as int] == player && cells@[self.mills@[j][1] as int]
                        == player && cells@[self.mills@[j][2] as int] == player),
            decreases self.mills@.len() - i,
        {
            let m = self.mills[i];
            proof {
                assert(self.mills_v()[i as int] == m);
                assert(mill_at(m, i as int));
            }
            if (m[0] == p || m[1] == p || m[2] == p) && cells[m[0]] == player && cells[m[1]] == player && cells[m[2]]
                == player {
                proof {
                    assert(self.mills_v()[i as int] == m);
                }
                return true;
            }
            i += 1;
        }
        false
    }

    fn flipped(&self, s: &ArrState, cells: [u8; 16], mover_hand: u8) -> (r: ArrState)
        ensures
            r == flipped_spec(*s, cells, mover_hand),
    {
        let mut n = ArrState {
            cells,
            w_hand: s.w_hand,
            b_hand: s.b_hand,
            turn: if s.turn == W {
                B
            } else {
                W
            },
        };
        if s.turn == W {
            n.w_hand = mover_hand;
        } else {
            n.b_hand = mover_hand;
        }
        n
    }

    fn push_expand(&self, s: &ArrState, cells: [u8; 16], dest: usize, out: &mut Vec<ArrState>)
        requires
            self.tables_ok(),
        ensures
            final(out)@ == old(out)@ + self.expand(*s, cells, dest as int),
    {
        let stm = s.turn;
        let opp = if stm == W {
            B
        } else {
            W
        };
        let hand = if stm == W {
            s.w_hand
        } else {
            s.b_hand
        };
        let new_hand = if hand > 0 {
            hand - 1
        } else {
            0
        };
        let formed = self.in_mill(&cells, dest, stm);
        let opp_on_board = count_of(&cells, opp);
        if formed && opp_on_board > 0 {
            let mut targets: Vec<usize> = Vec::new();
            let mut q: usize = 0;
            while q < 16
                invariant
                    self.tables_ok(),
                    q <= 16,
                    opp == s.opp(),
                    targets@ == targets_below(self.mills_v(), cells@, opp, true, q as nat),
                decreases 16 - q,
            {
                if cells[q] == opp && !self.in_mill(&cells, q, opp) {
                    targets.push(q);
                }
                q += 1;
            }
            if targets.len() == 0 {
                let mut q: usize = 0;
                while q < 16
                    invariant
                        q <= 16,
                        opp == s.opp(),
                        targets@ == targets_below(self.mills_v(), cells@, opp, false, q as nat),
                    decreases 16 - q,
                {
                    if cells[q] == opp {
                        targets.push(q);
                    }
                    q += 1;
                }
            }
            let ghost tg = targets@;
            let ghost base = out@;
            proof {
                lemma_targets_below_bound(self.mills_v(), cells@, opp, true, 16);
                lemma_targets_below_bound(self.mills_v(), cells@, opp, false, 16);
            }
            let mut k: usize = 0;
            while k < targets.len()
                invariant
                    k <= tg.len(),
                    targets@ == tg,
                    forall|j: int| 0 <= j < tg.len() ==> (#[trigger] tg[j]) < 16,
                    new_hand == s.new_hand(),
                    out@ == base + tg.subrange(0, k as int).map_values(
                        |q: usize| flipped_spec(*s, spec_array_update(cells, q as int, E), s.new_hand()),
                    ),
                decreases tg.len() - k,
            {
                let q = targets[k];
                let mut c = cells;
                c[q] = E;
                let n = self.flipped(s, c, new_hand);
                proof {
                    assert(c =~= spec_array_update(cells, q as int, E));
                    assert(tg.subrange(0, k as int + 1) =~= tg.subrange(0, k as int).push(q));
                    assert(tg.subrange(0, k as int + 1).map_values(
                        |q: usize| flipped_spec(*s, spec_array_update(cells, q as int, E), s.new_hand()),
                    ) =~= tg.subrange(0, k as int).map_values(
                        |q: usize| flipped_spec(*s, spec_array_update(cells, q as int, E), s.new_hand()),
                    ).push(n));
                }
                out.push(n);
                k += 1;
            }
            proof {
                assert(tg.subrange(0, k as int) =~= tg);
            }
        } else {
            let n = self.flipped(s, cells, new_hand);
            out.push(n);
            proof {
                assert(out@ =~= old(out)@ + seq![n]);
            }
        }
    }
}

proof fn lemma_targets_below_bound(mills: Seq<[usize; 3]>, cells: Seq<u8>, opp: u8, free: bool, k: nat)
    ensures
        forall|j: int| 0 <= j < targets_below(mills, cells, opp, free, k).len() ==> (#[trigger] targets_below(
            mills,
            cells,
            opp,
            free,
            k,
        )[j] as int) < k,
    decreases k,
{
    if k > 0 {
        lemma_targets_below_bound(mills, cells, opp, free, (k - 1) as nat);
        let prev = targets_below(mills, cells, opp, free, (k - 1) as nat);
        let t = targets_below(mills, cells, opp, free, k);
        assert forall|j: int| 0 <= j < t.len() implies (#[trigger] t[j] as int) < k by {
            if j < prev.len() {
                assert(t[j] == prev[j]);
            }
        }
    }
}

/// How many cells hold `v`.
fn count_of(cells: &[u8; 16], v: u8) -> (r: u8)
    ensures
        r == occurrences(cells@, v),
        r <= 16,
{
    let mut n: u8 = 0;
    let mut k: usize = 0;
    while k < 16
        invariant
            k <= 16,
            n == occurrences(cells@.subrange(0, k as int), v),
            n <= k,
        decreases 16 - k,
    {
        proof {
            assert(cells@.subrange(0, k as int + 1) =~= cells@.subrange(0, k as int).push(cells@[k as int]));
            lemma_occurrences_push(cells@.subrange(0, k as int), cells@[k as int], v);
        }
        if cells[k] == v {
            n += 1;
        }
        k += 1;
    }
    assert(cells@.subrange(0, 16) =~= cells@);
    n
}

/// The cells below `k` read as a base-4 number, first cell most significant
/// (each cell taken as its low two bits).
pub open spec fn enc_below(cells: Seq<u8>, k: nat) -> int
    decreases k,
{
    if k == 0 {
        0
    } else {
        enc_below(cells, (k - 1) as nat) * 4 + (cells[k - 1] & 3u8) as int
    }
}

/// 4^k.
pub open spec fn pow4(k: nat) -> int
    decreases k,
{
    if k == 0 {
        1
    } else {
        4 * pow4((k - 1) as nat)
    }
}

proof fn lemma_enc_bound(cells: Seq<u8>, k: nat)
    ensures
        0 <= enc_below(cells, k) < pow4(k),
    decreases k,
{
    if k > 0 {
        lemma_enc_bound(cells, (k - 1) as nat);
        let d = cells[k - 1];
        assert(d & 3u8 <= 3u8) by (bit_vector);
    }
}

proof fn lemma_enc_injective(a: Seq<u8>, b: Seq<u8>, k: nat)
    requires
        enc_below(a, k) == enc_below(b, k),
    ensures
        forall|i: int| 0 <= i < k ==> #[trigger] (a[i] & 3u8) == b[i] & 3u8,
    decreases k,
{
    if k > 0 {
        lemma_enc_bound(a, (k - 1) as nat);
        lemma_enc_bound(b, (k - 1) as nat);
        let da = a[k - 1];
        let db = b[k - 1];
        assert(da & 3u8 <= 3u8) by (bit_vector);
        assert(db & 3u8 <= 3u8) by (bit_vector);
        let x = enc_below(a, k);
        vstd::arithmetic::div_mod::lemma_fundamental_div_mod_converse(x, 4, enc_below(a, (k - 1) as nat), (da & 3u8) as int);
        vstd::arithmetic::div_mod::lemma_fundamental_div_mod_converse(x, 4, enc_below(b, (k - 1) as nat), (db & 3u8) as int);
        lemma_enc_injective(a, b, (k - 1) as nat);
    }
}

/// The key of a position: its cells in base 4, then the two hands and the
/// side to move a byte each.
pub open spec fn arr_key(s: ArrState) -> int {
    ((enc_below(s.cells@, 16) * 256 + s.w_hand) * 256 + s.b_hand) * 256 + s.turn
}

proof fn lemma_arr_key_bound(s: ArrState)
    ensures
        0 <= arr_key(s) < 72057594037927936,
{
    lemma_enc_bound(s.cells@, 16);
    assert(pow4(16) == 4294967296) by {
        reveal_with_fuel(pow4, 17);
    }
}

impl StateKey for ArrState {
    open spec fn key_exact(&self) -> bool {
        forall|c: int| 0 <= c < 16 ==> #[trigger] self.cells@[c] < 4
    }

    open spec fn key_spec(&self) -> u128 {
        arr_key(*self) as u128
    }

    fn same(&self, other: &Self) -> (r: bool) {
        let mut c: usize = 0;
        while c < 16
            invariant
                c <= 16,
                forall|j: int| 0 <= j < c ==> self.cells@[j] == other.cells@[j],
            decreases 16 - c,
        {
            if self.cells[c] != other.cells[c] {
                return false;
            }
            c += 1;
        }
        proof {
            broadcast use vstd::array::axiom_array_ext_equal;

            assert(self.cells =~= other.cells);
        }
        self.w_hand == other.w_hand && self.b_hand == other.b_hand && self.turn == other.turn
    }

    fn key(&self) -> (r: u128) {
        let mut e: u128 = 0;
        let mut c: usize = 0;
        while c < 16
            invariant
                c <= 16,
                e == enc_below(self.cells@, c as nat),
            decreases 16 - c,
        {
            proof {
                lemma_enc_bound(self.cells@, c as nat);
                lemma_enc_bound(self.cells@, 16);
                assert(pow4(16) == 4294967296) by {
                    reveal_with_fuel(pow4, 17);
                }
                lemma_pow4_mono(c as nat + 1, 16);
                lemma_enc_bound(self.cells@, c as nat + 1);
            }
            e = e * 4 + (self.cells[c] & 3) as u128;
            c += 1;
        }
        proof {
            lemma_arr_key_bound(*self);
        }
        ((e * 256 + self.w_hand as u128) * 256 + self.b_hand as u128) * 256 + self.turn as u128
    }

    proof fn lemma_key_injective(a: Self, b: Self) {
        lemma_arr_key_bound(a);
        lemma_arr_key_bound(b);
        let ka = arr_key(a);
        let x1 = (enc_below(a.cells@, 16) * 256 + a.w_hand) * 256 + a.b_hand;
        let y1 = (enc_below(b.cells@, 16) * 256 + b.w_hand) * 256 + b.b_hand;
        vstd::arithmetic::div_mod::lemma_fundamental_div_mod_converse(ka, 256, x1, a.turn as int);
        vstd::arithmetic::div_mod::lemma_fundamental_div_mod_converse(ka, 256, y1, b.turn as int);
        let x2 = enc_below(a.cells@, 16) * 256 + a.w_hand;
        let y2 = enc_below(b.cells@, 16) * 256 + b.w_hand;
        vstd::arithmetic::div_mod::lemma_fundamental_div_mod_converse(x1, 256, x2, a.b_hand as int);
        vstd::arithmetic::div_mod::lemma_fundamental_div_mod_converse(x1, 256, y2, b.b_hand as int);
        vstd::arithmetic::div_mod::lemma_fundamental_div_mod_converse(x2, 256, enc_below(a.cells@, 16), a.w_hand as int);
        vstd::arithmetic::div_mod::lemma_fundamental_div_mod_converse(x2, 256, enc_below(b.cells@, 16), b.w_hand as int);
        lemma_enc_injective(a.cells@, b.cells@, 16);
        assert forall|i: int| 0 <= i < 16 implies a.cells[i] == b.cells[i] by {
            let (x, y) = (a.cells@[i], b.cells@[i]);
            assert(x < 4 && y < 4 && (x & 3u8) == (y & 3u8) ==> x == y) by (bit_vector);
            assert((a.cells@[i] & 3u8) == b.cells@[i] & 3u8);
        }
        assert(a.cells =~= b.cells);
    }
}

proof fn lemma_pow4_mono(a: nat, b: nat)
    requires
        a <= b,
    ensures
        1 <= pow4(a) <= pow4(b),
    decreases b,
{
    if a < b {
        lemma_pow4_mono(a, (b - 1) as nat);
    } else if a > 0 {
        lemma_pow4_mono((a - 1) as nat, (a - 1) as nat);
    }
}

/// Cells that hold nothing but empties and men of the two sides' colours
/// (and a side to move that is one of them or past them).
pub open spec fn arr_legal(s: ArrState) -> bool {
    &&& forall|c: int| 0 <= c < 16 ==> #[trigger] s.cells@[c] < 4
    &&& s.turn < 4
}

impl ArrMorris {
    /// Every move's positions are legal when the position moved from is.
    proof fn lemma_expand_legal(&self, s: ArrState, cells: [u8; 16], dest: int)
        requires
            self.tables_ok(),
            forall|c: int| 0 <= c < 16 ==> #[trigger] cells@[c] < 4,
        ensures
            forall|j: int| 0 <= j < self.expand(s, cells, dest).len() ==> arr_legal(#[trigger] self.expand(s, cells, dest)[j]),
    {
        let free = targets_below(self.mills_v(), cells@, s.opp(), true, 16);
        lemma_targets_below_bound(self.mills_v(), cells@, s.opp(), true, 16);
        lemma_targets_below_bound(self.mills_v(), cells@, s.opp(), false, 16);
        let e = self.expand(s, cells, dest);
        assert forall|j: int| 0 <= j < e.len() implies arr_legal(#[trigger] e[j]) by {
            if in_mill_spec(self.mills_v(), cells@, dest, s.stm()) && occurrences(cells@, s.opp()) > 0 {
                let targets = if free.len() == 0 {
                    targets_below(self.mills_v(), cells@, s.opp(), false, 16)
                } else {
                    free
                };
                let q = targets[j];
                let u = spec_array_update(cells, q as int, E);
                assert(u@ == cells@.update(q as int, E));
                assert forall|c: int| 0 <= c < 16 implies #[trigger] u@[c] < 4 by {}
            }
        }
    }
}

/// The board with every cell empty.
pub open spec fn empty_board() -> [u8; 16] {
    choose|a: [u8; 16]| a@ == Seq::new(16, |c: int| E)
}

proof fn lemma_adj_list_bound(a: int)
    requires
        0 <= a < 16,
    ensures
        forall|j: int| 0 <= j < adj_list(a).len() ==> (#[trigger] adj_list(a)[j] as int) < 16,
{
}

impl ArrMorris {
    proof fn lemma_drops_legal(&self, s: ArrState, k: nat)
        requires
            self.tables_ok(),
            arr_legal(s),
            k <= 16,
        ensures
            forall|j: int| 0 <= j < self.drops(s, k).len() ==> arr_legal(#[trigger] self.drops(s, k)[j]),
        decreases k,
    {
        if k > 0 {
            self.lemma_drops_legal(s, (k - 1) as nat);
            let prev = self.drops(s, (k - 1) as nat);
            if s.cells@[k - 1] == E {
                let c = spec_array_update(s.cells, k - 1, s.stm());
                assert(c@ == s.cells@.update(k - 1, s.stm()));
                assert forall|x: int| 0 <= x < 16 implies #[trigger] c@[x] < 4 by {}
                self.lemma_expand_legal(s, c, k - 1);
                let e = self.expand(s, c, k - 1);
                assert forall|j: int| 0 <= j < (prev + e).len() implies arr_legal(#[trigger] (prev + e)[j]) by {
                    if j >= prev.len() {
                        assert((prev + e)[j] == e[j - prev.len()]);
                    }
                }
            }
        }
    }

    proof fn lemma_slides_from_legal(&self, s: ArrState, f: int, k: nat)
        requires
            self.tables_ok(),
            arr_legal(s),
            0 <= f < 16,
            k <= self.adj_v()[f].len(),
        ensures
            forall|j: int| 0 <= j < self.slides_from(s, f, k).len() ==> arr_legal(#[trigger] self.slides_from(s, f, k)[j]),
        decreases k,
    {
        if k > 0 {
            self.lemma_slides_from_legal(s, f, (k - 1) as nat);
            let prev = self.slides_from(s, f, (k - 1) as nat);
            lemma_adj_list_bound(f);
            let t = self.adj_v()[f][k - 1] as int;
            if s.cells@[t] == E {
                let c1 = spec_array_update(s.cells, f, E);
                let c = spec_array_update(c1, t, s.stm());
                assert(c1@ == s.cells@.update(f, E));
                assert(c@ == c1@.update(t, s.stm()));
                assert forall|x: int| 0 <= x < 16 implies #[trigger] c@[x] < 4 by {}
                self.lemma_expand_legal(s, c, t);
                let e = self.expand(s, c, t);
                assert forall|j: int| 0 <= j < (prev + e).len() implies arr_legal(#[trigger] (prev + e)[j]) by {
                    if j >= prev.len() {
                        assert((prev + e)[j] == e[j - prev.len()]);
                    }
                }
            }
        }
    }

    proof fn lemma_slides_legal(&self, s: ArrState, k: nat)
        requires
            self.tables_ok(),
            arr_legal(s),
            k <= 16,
        ensures
            forall|j: int| 0 <= j < self.slides(s, k).len() ==> arr_legal(#[trigger] self.slides(s, k)[j]),
        decreases k,
    {
        if k > 0 {
            self.lemma_slides_legal(s, (k - 1) as nat);
            let prev = self.slides(s, (k - 1) as nat);
            if s.cells@[k - 1] == s.stm() {
                self.lemma_slides_from_legal(s, k - 1, self.adj_v()[k - 1].len());
                let e = self.slides_from(s, k - 1, self.adj_v()[k - 1].len());
                assert forall|j: int| 0 <= j < (prev + e).len() implies arr_legal(#[trigger] (prev + e)[j]) by {
                    if j >= prev.len() {
                        assert((prev + e)[j] == e[j - prev.len()]);
                    }
                }
            }
        }
    }
}

impl RulesGame for ArrMorris {
    type State = ArrState;

    open spec fn rules_ok(&self) -> bool {
        self.tables_ok()
    }

    open spec fn legal_state(&self, s: ArrState) -> bool {
        arr_legal(s)
    }

    open spec fn initial(&self) -> ArrState {
        ArrState { cells: empty_board(), w_hand: self.men_v(), b_hand: self.men_v(), turn: W }
    }

    open spec fn next_states(&self, s: ArrState) -> Seq<ArrState> {
        if s.hand() > 0 {
            self.drops(s, 16)
        } else {
            self.slides(s, 16)
        }
    }

    open spec fn result_of(&self, s: ArrState) -> Option<Outcome> {
        if s.w_hand == 0 && s.b_hand == 0 {
            if occurrences(s.cells@, s.stm()) < 3 {
                Some(Outcome::Loss)
            } else if !self.can_move(s) {
                Some(Outcome::Loss)
            } else {
                None
            }
        } else {
            None
        }
    }

    fn start(&self) -> (r: ArrState) {
        let r = ArrState { cells: [E; 16], w_hand: self.men, b_hand: self.men, turn: W };
        proof {
            assert(r.cells@ =~= Seq::new(16, |c: int| E));
            let g = empty_board();
            assert(g@ == r.cells@);
            assert(g =~= r.cells);
        }
        r
    }

    fn successors(&self, s: &ArrState) -> (r: Vec<ArrState>) {
        let stm = s.turn;
        let hand = if stm == W {
            s.w_hand
        } else {
            s.b_hand
        };
        let mut out: Vec<ArrState> = Vec::new();
        if hand > 0 {
            let mut p: usize = 0;
            while p < 16
                invariant
                    self.tables_ok(),
                    p <= 16,
                    stm == s.stm(),
                    s.hand() > 0,
                    out@ == self.drops(*s, p as nat),
                decreases 16 - p,
            {
                if s.cells[p] == E {
                    let mut c = s.cells;
                    c[p] = stm;
                    proof {
                        assert(c =~= spec_array_update(s.cells, p as int, stm));
                    }
                    self.push_expand(s, c, p, &mut out);
                }
                p += 1;
            }
        } else {
            let mut f: usize = 0;
            while f < 16
                invariant
                    self.tables_ok(),
                    f <= 16,
                    stm == s.stm(),
                    s.hand() == 0,
                    out@ == self.slides(*s, f as nat),
                decreases 16 - f,
            {
                if s.cells[f] == stm {
                    let ghost base = out@;
                    let nbrs = &self.adj[f];
                    proof {
                        assert(nbrs@ == self.adj_v()[f as int]);
                        lemma_adj_list_bound(f as int);
                    }
                    let mut j: usize = 0;
                    while j < nbrs.len()
                        invariant
                            self.tables_ok(),
                            f < 16,
                            j <= nbrs@.len(),
                            nbrs@ == self.adj_v()[f as int],
                            forall|x: int| 0 <= x < nbrs@.len() ==> (#[trigger] nbrs@[x] as int) < 16,
                            stm == s.stm(),
                            out@ == base + self.slides_from(*s, f as int, j as nat),
                        decreases nbrs@.len() - j,
                    {
                        let t = nbrs[j];
                        if s.cells[t] == E {
                            let mut c = s.cells;
                            c[f] = E;
                            c[t] = stm;
                            proof {
                                assert(c =~= spec_array_update(spec_array_update(s.cells, f as int, E), t as int, stm));
                            }
                            let ghost before = out@;
                            self.push_expand(s, c, t, &mut out);
                            proof {
                                assert(out@ =~= base + self.slides_from(*s, f as int, j as nat + 1));
                            }
                        }
                        j += 1;
                    }
                    proof {
                        assert(out@ =~= self.slides(*s, f as nat + 1));
                    }
                }
                f += 1;
            }
        }
        proof {
            if hand > 0 {
                self.lemma_drops_legal(*s, 16);
            } else {
                self.lemma_slides_legal(*s, 16);
            }
        }
        out
    }

    fn terminal(&self, s: &ArrState) -> (r: Option<Outcome>) {
        if s.w_hand == 0 && s.b_hand == 0 {
            let stm = s.turn;
            if count_of(&s.cells, stm) < 3 {
                return Some(Outcome::Loss);
            }
            let mut can_move = false;
            let mut f: usize = 0;
            while f < 16
                invariant
                    self.tables_ok(),
                    f <= 16,
                    stm == s.stm(),
                    can_move == exists|g: int| 0 <= g < f && s.cells@[g] == stm && #[trigger] self.empty_nbr(*s, g),
                decreases 16 - f,
            {
                if s.cells[f] == stm {
                    let nbrs = &self.adj[f];
                    proof {
                        assert(nbrs@ == self.adj_v()[f as int]);
                        lemma_adj_list_bound(f as int);
                    }
                    let mut found = false;
                    let mut j: usize = 0;
                    while j < nbrs.len()
                        invariant
                            self.tables_ok(),
                            f < 16,
                            j <= nbrs@.len(),
                            nbrs@ == self.adj_v()[f as int],
                            forall|x: int| 0 <= x < nbrs@.len() ==> (#[trigger] nbrs@[x] as int) < 16,
                            found == exists|k: int| 0 <= k < j && s.cells@[#[trigger] self.adj_v()[f as int][k] as int] == E,
                        decreases nbrs@.len() - j,
                    {
                        if s.cells[nbrs[j]] == E {
                            found = true;
                        }
                        j += 1;
                    }
                    if found {
                        can_move = true;
                    }
                    proof {
                        assert(found == self.empty_nbr(*s, f as int));
                    }
                }
                f += 1;
            }
            if !can_move {
                return Some(Outcome::Loss);
            }
        }
        None
    }

    proof fn lemma_next_legal(&self, s: ArrState, k: int) {
        if s.hand() > 0 {
            self.lemma_drops_legal(s, 16);
        } else {
            self.lemma_slides_legal(s, 16);
        }
    }

    proof fn lemma_legal_exact(&self, s: ArrState) {
    }
}

} // verus!
