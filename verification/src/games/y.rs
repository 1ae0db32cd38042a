//! Y — the connection game of Schensted & Titus (1953). A triangular board of
//! hexagonal cells; players alternately place a stone of their colour on an empty
//! cell, and a player wins by connecting all THREE sides of the triangle with one
//! connected group of their stones. Hex reduces to Y.
//!
//! Y is the friendliest possible target for retrograde analysis:
//!   * **Pure placement** — stones are never moved or removed, so the board fills
//!     monotonically and the position graph is acyclic. The loopy retrograde never
//!     has to resolve a repetition cycle.
//!   * **No draws** — by the Y theorem (a Hex-style topological argument) a full
//!     board always has exactly one player connecting all three sides, and the two
//!     players can never connect simultaneously. So every reachable position is a
//!     Win or a Loss. A `Draw` in the solved output would therefore mean a wrong
//!     board topology or wrong win detection.

use vstd::prelude::*;
use crate::Outcome;
use crate::reachable::{RulesGame, StateKey};

verus! {

pub const P1: u8 = 1;  // first player

pub const P2: u8 = 2;  // second player

/// The number of cells in the first `r` rows: `r(r+1)/2`.
pub open spec fn tri(r: int) -> int {
    r * (r + 1) / 2
}

/// Bit `i` of `m`.
pub open spec fn bit64(m: u64, i: int) -> bool {
    (m >> (i as u64)) & 1u64 == 1u64
}

/// Cell `(r, c)` of the side-`n` board as a one-bit mask, or 0 off the board.
/// Cells are indexed row-major: `idx(r, c) = r(r+1)/2 + c` for `0 <= c <= r`.
pub open spec fn cell_bit(n: int, r: int, c: int) -> u64 {
    if 0 <= r < n && 0 <= c <= r {
        1u64 << ((tri(r) + c) as u64)
    } else {
        0u64
    }
}

/// The hex neighbours of cell `(r, c)`: same-row left/right, and the two cells
/// in each adjacent row. This is the topology under which Hex reduces to Y.
pub open spec fn cell_adj(n: int, r: int, c: int) -> u64 {
    cell_bit(n, r, c - 1) | cell_bit(n, r, c + 1) | cell_bit(n, r - 1, c - 1) | cell_bit(n, r - 1, c)
        | cell_bit(n, r + 1, c) | cell_bit(n, r + 1, c + 1)
}

/// The neighbour masks of the cells of the first `k` rows, in cell order.
pub open spec fn rows_adj(n: int, k: nat) -> Seq<u64>
    decreases k,
{
    if k == 0 {
        Seq::empty()
    } else {
        rows_adj(n, (k - 1) as nat) + Seq::new(k, |c: int| cell_adj(n, k - 1, c))
    }
}

/// The cells `(r, c)` with `c < k` of row `r` for which `on` holds, as a mask.
pub open spec fn row_mask(n: int, r: int, k: nat, on: spec_fn(int, int) -> bool) -> u64
    decreases k,
{
    if k == 0 {
        0
    } else {
        row_mask(n, r, (k - 1) as nat, on) | (if on(r, k - 1) {
            cell_bit(n, r, k - 1)
        } else {
            0u64
        })
    }
}

/// The cells of the first `k` rows for which `on` holds, as a mask.
pub open spec fn rows_mask(n: int, k: nat, on: spec_fn(int, int) -> bool) -> u64
    decreases k,
{
    if k == 0 {
        0
    } else {
        rows_mask(n, (k - 1) as nat, on) | row_mask(n, k - 1, k, on)
    }
}

/// The bottom row.
pub open spec fn edge_a_cells(n: int) -> spec_fn(int, int) -> bool {
    |r: int, c: int| r == n - 1
}

/// The left edge.
pub open spec fn edge_b_cells() -> spec_fn(int, int) -> bool {
    |r: int, c: int| c == 0
}

/// The right edge.
pub open spec fn edge_c_cells() -> spec_fn(int, int) -> bool {
    |r: int, c: int| c == r
}

/// `b` is reached from `a` in at most `d` steps from a cell of `mask` to a
/// neighbouring cell of `mask`.
pub open spec fn linked(adj: Seq<u64>, mask: u64, a: int, b: int, d: nat) -> bool
    decreases d,
{
    if d == 0 {
        a == b && 0 <= a < adj.len() && bit64(mask, a)
    } else {
        linked(adj, mask, a, b, (d - 1) as nat) || exists|m: int|
            #![trigger adj[m]]
            0 <= m < adj.len() && linked(adj, mask, a, m, (d - 1) as nat) && bit64(adj[m], b) && 0 <= b
                < adj.len() && bit64(mask, b)
    }
}

/// `b` lies in the group of `mask` that `a` belongs to.
pub open spec fn in_group(adj: Seq<u64>, mask: u64, a: int, b: int) -> bool {
    exists|d: nat| linked(adj, mask, a, b, d)
}

/// The group of `a` holds a cell of `edge`.
pub open spec fn group_touches(adj: Seq<u64>, mask: u64, a: int, edge: u64) -> bool {
    exists|b: int| #[trigger] in_group(adj, mask, a, b) && bit64(edge, b)
}

/// `mask` holds a connected group touching all three edges.
pub open spec fn connects_spec(adj: Seq<u64>, ea: u64, eb: u64, ec: u64, mask: u64) -> bool {
    exists|a: int|
        0 <= a < adj.len() && bit64(mask, a) && #[trigger] group_touches(adj, mask, a, ea) && group_touches(
            adj,
            mask,
            a,
            eb,
        ) && group_touches(adj, mask, a, ec)
}

/// The number of set bits of `m` below `k`.
pub open spec fn ones_below(m: u64, k: nat) -> nat
    decreases k,
{
    if k == 0 {
        0
    } else {
        ones_below(m, (k - 1) as nat) + if bit64(m, k - 1) {
            1nat
        } else {
            0nat
        }
    }
}

/// A Y board of side `n`: `n` rows, row `r` holding `r + 1` cells, `n(n+1)/2` total.
/// Cells are indexed row-major: `idx(r, c) = r*(r+1)/2 + c` for `0 <= c <= r`.
pub struct Y {
    pub n: usize,
    pub cells: usize,
    adj: Vec<u64>,  // adj[i] = bitmask of the cells adjacent to cell i
    edge_a: u64,  // bottom row (r == n-1)
    edge_b: u64,  // left edge (c == 0)
    edge_c: u64,  // right edge (c == r)
}

/// A position: the cells each player occupies, as bitmasks over `0..cells`. The
/// side to move is derived from the stone counts (the first player moves first).
#[derive(Clone, Copy, PartialEq, Eq, Debug)]
pub struct Pos {
    pub p1: u64,
    pub p2: u64,
}

proof fn lemma_tri_step(r: int)
    requires
        r >= 0,
    ensures
        tri(r + 1) == tri(r) + r + 1,
        tri(r) >= 0,
{
    assert((r + 1) * (r + 2) == r * (r + 1) + 2 * (r + 1)) by (nonlinear_arith);
    assert(r * (r + 1) >= 0) by (nonlinear_arith)
        requires
            r >= 0,
    ;
}

proof fn lemma_tri_mono(a: int, b: int)
    requires
        0 <= a <= b,
    ensures
        tri(a) <= tri(b),
    decreases b - a,
{
    if a < b {
        lemma_tri_mono(a, b - 1);
        lemma_tri_step(b - 1);
    }
}

proof fn lemma_side_small(n: int)
    requires
        n >= 0,
        tri(n) <= 64,
    ensures
        n <= 10,
{
    if n > 10 {
        lemma_tri_mono(11, n);
        assert(tri(11) == 66);
    }
}

/// Cell `(r, c)` of a side-`n` board as a one-bit mask.
fn cell_mask(n: usize, r: usize, c: usize) -> (m: u64)
    requires
        r < n,
        c <= r,
        tri(n as int) <= 64,
    ensures
        m == cell_bit(n as int, r as int, c as int),
{
    proof {
        lemma_side_small(n as int);
        lemma_tri_step(r as int);
        lemma_tri_mono(r as int + 1, n as int);
    }
    1u64 << ((r * (r + 1) / 2 + c) as u64)
}

proof fn lemma_rows_adj_len(n: int, k: nat)
    ensures
        rows_adj(n, k).len() == tri(k as int),
    decreases k,
{
    if k > 0 {
        lemma_rows_adj_len(n, (k - 1) as nat);
        lemma_tri_step(k - 1);
    } else {
        assert(tri(0) == 0);
    }
}

impl Y {
    /// The board's tables are those of its side.
    pub closed spec fn board_ok(&self) -> bool {
        &&& tri(self.n as int) <= 64
        &&& self.cells == tri(self.n as int)
        &&& self.adj@ == rows_adj(self.n as int, self.n as nat)
        &&& self.edge_a == rows_mask(self.n as int, self.n as nat, edge_a_cells(self.n as int))
        &&& self.edge_b == rows_mask(self.n as int, self.n as nat, edge_b_cells())
        &&& self.edge_c == rows_mask(self.n as int, self.n as nat, edge_c_cells())
    }

    /// The side and the number of cells.
    pub closed spec fn dims(&self) -> (usize, usize) {
        (self.n, self.cells)
    }

    /// The neighbour mask of each cell, in cell order.
    pub closed spec fn adj_view(&self) -> Seq<u64> {
        self.adj@
    }

    /// The three edges: bottom row, left edge, right edge.
    pub closed spec fn edges(&self) -> (u64, u64, u64) {
        (self.edge_a, self.edge_b, self.edge_c)
    }

    /// Build the side-`n` board: precompute the 6-neighbour hex adjacency and the
    /// three edge masks. Limited to 64 cells (side 10) by the `u64` bitboard.
    pub fn new(n: usize) -> (y: Self)
        requires
            tri(n as int) <= 64,
        ensures
            y.board_ok(),
            y.dims() == (n, tri(n as int) as usize),
            y.adj_view() == rows_adj(n as int, n as nat),
            y.edges() == (
                rows_mask(n as int, n as nat, edge_a_cells(n as int)),
                rows_mask(n as int, n as nat, edge_b_cells()),
                rows_mask(n as int, n as nat, edge_c_cells()),
            ),
    {
        proof {
            lemma_side_small(n as int);
        }
        let cells = n * (n + 1) / 2;
        let mut adj: Vec<u64> = Vec::new();
        let mut edge_a: u64 = 0;
        let mut edge_b: u64 = 0;
        let mut edge_c: u64 = 0;
        let ghost on_a = edge_a_cells(n as int);
        let ghost on_b = edge_b_cells();
        let ghost on_c = edge_c_cells();
        let mut r: usize = 0;
        while r < n
            invariant
                n <= 10,
                tri(n as int) <= 64,
                r <= n,
                on_a == edge_a_cells(n as int),
                on_b == edge_b_cells(),
                on_c == edge_c_cells(),
                adj@ == rows_adj(n as int, r as nat),
                edge_a == rows_mask(n as int, r as nat, on_a),
                edge_b == rows_mask(n as int, r as nat, on_b),
                edge_c == rows_mask(n as int, r as nat, on_c),
            decreases n - r,
        {
            let ghost base = adj@;
            let ghost ea0 = edge_a;
            let ghost eb0 = edge_b;
            let ghost ec0 = edge_c;
            proof {
                assert(ea0 | 0u64 == ea0) by (bit_vector);
                assert(eb0 | 0u64 == eb0) by (bit_vector);
                assert(ec0 | 0u64 == ec0) by (bit_vector);
                assert(adj@ =~= base + Seq::new(0, |k: int| cell_adj(n as int, r as int, k)));
            }
            let mut c: usize = 0;
            while c <= r
                invariant
                    n <= 10,
                    tri(n as int) <= 64,
                    r < n,
                    c <= r + 1,
                    on_a == edge_a_cells(n as int),
                    on_b == edge_b_cells(),
                    on_c == edge_c_cells(),
                    adj@ == base + Seq::new(c as nat, |k: int| cell_adj(n as int, r as int, k)),
                    edge_a == ea0 | row_mask(n as int, r as int, c as nat, on_a),
                    edge_b == eb0 | row_mask(n as int, r as int, c as nat, on_b),
                    edge_c == ec0 | row_mask(n as int, r as int, c as nat, on_c),
                decreases r + 1 - c,
            {
                // Same-row left/right, then the two cells in each adjacent row.
                let left = if c >= 1 {
                    cell_mask(n, r, c - 1)
                } else {
                    0
                };
                let right = if c + 1 <= r {
                    cell_mask(n, r, c + 1)
                } else {
                    0
                };
                let up_left = if r >= 1 && c >= 1 {
                    cell_mask(n, r - 1, c - 1)
                } else {
                    0
                };
                let up = if r >= 1 && c <= r - 1 {
                    cell_mask(n, r - 1, c)
                } else {
                    0
                };
                let down = if r + 1 < n {
                    cell_mask(n, r + 1, c)
                } else {
                    0
                };
                let down_right = if r + 1 < n {
                    cell_mask(n, r + 1, c + 1)
                } else {
                    0
                };
                adj.push(left | right | up_left | up | down | down_right);
                let here = cell_mask(n, r, c);
                edge_a = edge_a | (if r == n - 1 {
                    here
                } else {
                    0
                });
                edge_b = edge_b | (if c == 0 {
                    here
                } else {
                    0
                });
                edge_c = edge_c | (if c == r {
                    here
                } else {
                    0
                });
                proof {
                    assert(adj@ =~= base + Seq::new(c as nat + 1, |k: int| cell_adj(n as int, r as int, k)));
                    let x = row_mask(n as int, r as int, c as nat, on_a);
                    let y = if on_a(r as int, c as int) { cell_bit(n as int, r as int, c as int) } else { 0u64 };
                    assert((ea0 | x) | y == ea0 | (x | y)) by (bit_vector);
                    let x = row_mask(n as int, r as int, c as nat, on_b);
                    let y = if on_b(r as int, c as int) { cell_bit(n as int, r as int, c as int) } else { 0u64 };
                    assert((eb0 | x) | y == eb0 | (x | y)) by (bit_vector);
                    let x = row_mask(n as int, r as int, c as nat, on_c);
                    let y = if on_c(r as int, c as int) { cell_bit(n as int, r as int, c as int) } else { 0u64 };
                    assert((ec0 | x) | y == ec0 | (x | y)) by (bit_vector);
                }
                c += 1;
            }
            r += 1;
        }
        Y { n, cells, adj, edge_a, edge_b, edge_c }
    }
}

/// A path can be extended by one step to a neighbouring cell of `mask`.
proof fn lemma_linked_step(adj: Seq<u64>, mask: u64, a: int, m: int, y: int, d: nat)
    requires
        linked(adj, mask, a, m, d),
        0 <= m < adj.len(),
        bit64(adj[m], y),
        0 <= y < adj.len(),
        bit64(mask, y),
    ensures
        linked(adj, mask, a, y, d + 1),
{
    let d1: nat = d + 1;
    assert((d1 - 1) as nat == d);
    assert(linked(adj, mask, a, m, (d1 - 1) as nat));
}

/// Paths compose.
proof fn lemma_linked_trans(adj: Seq<u64>, mask: u64, a: int, b: int, c: int, d1: nat, d2: nat)
    requires
        linked(adj, mask, a, b, d1),
        linked(adj, mask, b, c, d2),
    ensures
        linked(adj, mask, a, c, d1 + d2),
    decreases d2,
{
    if d2 > 0 {
        if linked(adj, mask, b, c, (d2 - 1) as nat) {
            lemma_linked_trans(adj, mask, a, b, c, d1, (d2 - 1) as nat);
            let e: nat = d1 + d2;
            assert((e - 1) as nat == d1 + d2 - 1);
        } else {
            let m = choose|m: int|
                #![trigger adj[m]]
                0 <= m < adj.len() && linked(adj, mask, b, m, (d2 - 1) as nat) && bit64(adj[m], c) && 0 <= c
                    < adj.len() && bit64(mask, c);
            lemma_linked_trans(adj, mask, a, b, m, d1, (d2 - 1) as nat);
            lemma_linked_step(adj, mask, a, m, c, (d1 + d2 - 1) as nat);
        }
    }
}

/// A linked cell lies on the board and in `mask`.
proof fn lemma_linked_in(adj: Seq<u64>, mask: u64, a: int, b: int, d: nat)
    requires
        linked(adj, mask, a, b, d),
    ensures
        0 <= b < adj.len(),
        bit64(mask, b),
        0 <= a < adj.len(),
        bit64(mask, a),
    decreases d,
{
    if d > 0 {
        if linked(adj, mask, a, b, (d - 1) as nat) {
            lemma_linked_in(adj, mask, a, b, (d - 1) as nat);
        } else {
            let m = choose|m: int|
                #![trigger adj[m]]
                0 <= m < adj.len() && linked(adj, mask, a, m, (d - 1) as nat) && bit64(adj[m], b) && 0 <= b
                    < adj.len() && bit64(mask, b);
            lemma_linked_in(adj, mask, a, m, (d - 1) as nat);
        }
    }
}

/// Whatever the group of `b` touches, the group of `a` touches when `b` is in it.
proof fn lemma_touches_inherit(adj: Seq<u64>, mask: u64, a: int, b: int, edge: u64)
    requires
        in_group(adj, mask, a, b),
        group_touches(adj, mask, b, edge),
    ensures
        group_touches(adj, mask, a, edge),
{
    let d1 = choose|d: nat| linked(adj, mask, a, b, d);
    let c = choose|c: int| #[trigger] in_group(adj, mask, b, c) && bit64(edge, c);
    let d2 = choose|d: nat| linked(adj, mask, b, c, d);
    lemma_linked_trans(adj, mask, a, b, c, d1, d2);
    assert(in_group(adj, mask, a, c));
}

/// Cell `y` is listed in `q`.
pub open spec fn listed(q: Seq<usize>, y: int) -> bool {
    exists|k: int| 0 <= k < q.len() && #[trigger] q[k] as int == y
}

/// Some of the first `h` cells of `q` lies on `edge`.
pub open spec fn met_edge(edge: u64, q: Seq<usize>, h: int) -> bool {
    exists|k: int| 0 <= k < h && bit64(edge, #[trigger] q[k] as int)
}

proof fn lemma_met_edge_step(edge: u64, q0: Seq<usize>, q: Seq<usize>, h: int, t: bool)
    requires
        0 <= h < q0.len() <= q.len(),
        forall|k: int| 0 <= k < q0.len() ==> #[trigger] q[k] == q0[k],
        t == met_edge(edge, q0, h),
    ensures
        (t || bit64(edge, q0[h] as int)) == met_edge(edge, q, h + 1),
{
    if bit64(edge, q0[h] as int) {
        assert(q[h] == q0[h]);
    }
    if t {
        let k = choose|k: int| 0 <= k < h && bit64(edge, #[trigger] q0[k] as int);
        assert(q[k] == q0[k]);
    }
    if met_edge(edge, q, h + 1) {
        let k = choose|k: int| 0 <= k < h + 1 && bit64(edge, #[trigger] q[k] as int);
        assert(q[k] == q0[k]);
    }
}

proof fn lemma_met_edge_group(adj: Seq<u64>, mask: u64, s: int, q: Seq<usize>, edge: u64)
    requires
        forall|y: int| #[trigger] listed(q, y) <==> in_group(adj, mask, s, y),
    ensures
        met_edge(edge, q, q.len() as int) == group_touches(adj, mask, s, edge),
{
    if met_edge(edge, q, q.len() as int) {
        let k = choose|k: int| 0 <= k < q.len() && bit64(edge, #[trigger] q[k] as int);
        assert(listed(q, q[k] as int));
        assert(in_group(adj, mask, s, q[k] as int));
    }
    if group_touches(adj, mask, s, edge) {
        let b = choose|b: int| #[trigger] in_group(adj, mask, s, b) && bit64(edge, b);
        assert(listed(q, b));
        let k = choose|k: int| 0 <= k < q.len() && #[trigger] q[k] as int == b;
        assert(bit64(edge, q[k] as int));
    }
}

/// The group of `a` touches all three edges.
pub open spec fn touches_all(adj: Seq<u64>, ea: u64, eb: u64, ec: u64, mask: u64, a: int) -> bool {
    group_touches(adj, mask, a, ea) && group_touches(adj, mask, a, eb) && group_touches(adj, mask, a, ec)
}

pub proof fn lemma_bit64_or_one(m: u64, p: int, q: int)
    requires
        0 <= p < 64,
        0 <= q < 64,
    ensures
        bit64(m | (1u64 << (p as u64)), q) == (bit64(m, q) || q == p),
{
    let pp = p as u64;
    let qq = q as u64;
    assert((((m | (1u64 << pp)) >> qq) & 1u64 == 1u64) == (((m >> qq) & 1u64 == 1u64) || qq == pp)) by (bit_vector)
        requires
            pp < 64,
            qq < 64,
    ;
}

proof fn lemma_bit64_or(a: u64, b: u64, q: int)
    requires
        0 <= q < 64,
    ensures
        bit64(a | b, q) == (bit64(a, q) || bit64(b, q)),
{
    let qq = q as u64;
    assert((((a | b) >> qq) & 1u64 == 1u64) == (((a >> qq) & 1u64 == 1u64) || ((b >> qq) & 1u64 == 1u64))) by (bit_vector)
        requires
            qq < 64,
    ;
}

proof fn lemma_bit64_single(p: int, q: int)
    requires
        0 <= p < 64,
        0 <= q < 64,
    ensures
        bit64(1u64 << (p as u64), q) == (q == p),
{
    let pp = p as u64;
    let qq = q as u64;
    assert((((1u64 << pp) >> qq) & 1u64 == 1u64) == (qq == pp)) by (bit_vector)
        requires
            pp < 64,
            qq < 64,
    ;
}

/// One more set bit: the count goes up by one.
proof fn lemma_ones_one_more(a: u64, b: u64, p: int, k: nat)
    requires
        0 <= p < 64,
        k <= 64,
        !bit64(a, p),
        bit64(b, p),
        forall|q: int| 0 <= q < 64 && q != p ==> #[trigger] bit64(a, q) == bit64(b, q),
    ensures
        ones_below(b, k) == ones_below(a, k) + (if p < k { 1int } else { 0int }),
    decreases k,
{
    if k > 0 {
        lemma_ones_one_more(a, b, p, (k - 1) as nat);
    }
}

/// A mask within `c` bits has at most `c` set bits below any `k`.
proof fn lemma_ones_within(m: u64, c: int, k: nat)
    requires
        0 <= c <= 64,
        k <= 64,
        within(m, c),
    ensures
        ones_below(m, k) <= c,
        ones_below(m, k) <= k,
    decreases k,
{
    if k > 0 {
        lemma_ones_within(m, c, (k - 1) as nat);
        if k > c {
            assert(!bit64(m, k - 1));
        }
    }
}

impl Y {
    /// The group of `s` in `mask` as a mask, found breadth-first, and whether
    /// that group touches all three edges. `queue` is scratch space.
    fn group_of(&self, mask: u64, s: usize, queue: &mut Vec<usize>) -> (r: (bool, u64))
        requires
            self.board_ok(),
            s < self.adj@.len(),
            bit64(mask, s as int),
        ensures
            r.0 == touches_all(self.adj@, self.edge_a, self.edge_b, self.edge_c, mask, s as int),
            forall|y: int| 0 <= y < 64 ==> (#[trigger] bit64(r.1, y) <==> in_group(self.adj@, mask, s as int, y)),
    {
        proof {
            lemma_rows_adj_len(self.n as int, self.n as nat);
        }
        let cells = self.adj.len();
        let ghost adj = self.adj@;
        queue.clear();
        let mut seen: u64 = 1u64 << (s as u64);
        queue.push(s);
        proof {
            assert(linked(adj, mask, s as int, s as int, 0));
            assert(queue@[0] == s);
            assert forall|y: int| 0 <= y < 64 implies (#[trigger] bit64(seen, y) <==> listed(queue@, y)) by {
                lemma_bit64_single(s as int, y);
                if listed(queue@, y) {
                    let k = choose|k: int| 0 <= k < queue@.len() && #[trigger] queue@[k] as int == y;
                }
            }
            assert forall|q: int| 0 <= q < 64 && q != s implies #[trigger] bit64(0u64, q) == bit64(seen, q) by {
                lemma_bit64_single(s as int, q);
                let qq = q as u64;
                assert((0u64 >> qq) & 1u64 != 1u64) by (bit_vector);
            }
            lemma_bit64_single(s as int, s as int);
            let ss = s as u64;
            assert((0u64 >> ss) & 1u64 != 1u64) by (bit_vector);
            lemma_ones_one_more(0u64, seen, s as int, 64);
            lemma_ones_zero(64);
            assert forall|w: int| cells <= w < 64 implies !#[trigger] bit64(seen, w) by {
                lemma_bit64_single(s as int, w);
            }
        }
        let mut ta = false;
        let mut tb = false;
        let mut tc = false;
        let mut head: usize = 0;
        while head < queue.len()
            invariant
                adj == self.adj@,
                cells == adj.len(),
                cells <= 64,
                s < cells,
                1 <= queue@.len() == ones_below(seen, 64),
                queue@[0] == s,
                head <= queue@.len(),
                within(seen, cells as int),
                forall|k: int| 0 <= k < queue@.len() ==> (#[trigger] queue@[k] as int) < cells,
                forall|y: int| 0 <= y < 64 ==> (#[trigger] bit64(seen, y) <==> listed(queue@, y)),
                forall|k: int|
                    0 <= k < queue@.len() ==> #[trigger] in_group(adj, mask, s as int, queue@[k] as int),
                forall|k: int, y: int|
                    0 <= k < head && 0 <= y < cells && bit64(adj[#[trigger] queue@[k] as int], y) && bit64(mask, y)
                        ==> #[trigger] bit64(seen, y),
                ta == met_edge(self.edge_a, queue@, head as int),
                tb == met_edge(self.edge_b, queue@, head as int),
                tc == met_edge(self.edge_c, queue@, head as int),
            decreases cells - head,
        {
            proof {
                lemma_ones_within(seen, cells as int, 64);
            }
            let x = queue[head];
            let ghost (ta_prev, tb_prev, tc_prev) = (ta, tb, tc);
            ta = ta || (self.edge_a >> (x as u64)) & 1 == 1;
            tb = tb || (self.edge_b >> (x as u64)) & 1 == 1;
            tc = tc || (self.edge_c >> (x as u64)) & 1 == 1;
            let ax = self.adj[x];
            proof {
                assert(in_group(adj, mask, s as int, queue@[head as int] as int));
            }
            let ghost dx = choose|d: nat| linked(adj, mask, s as int, x as int, d);
            let ghost q0 = queue@;
            let mut y: usize = 0;
            while y < cells
                invariant
                    adj == self.adj@,
                    cells == adj.len(),
                    cells <= 64,
                    s < cells,
                    x < cells,
                    ax == adj[x as int],
                    linked(adj, mask, s as int, x as int, dx),
                    1 <= queue@.len() == ones_below(seen, 64),
                    within(seen, cells as int),
                    queue@.len() >= q0.len(),
                    forall|k: int| 0 <= k < q0.len() ==> #[trigger] queue@[k] == q0[k],
                    queue@[0] == s,
                    head < q0.len(),
                    q0[head as int] == x,
                    y <= cells,
                    forall|k: int| 0 <= k < queue@.len() ==> (#[trigger] queue@[k] as int) < cells,
                    forall|w: int| 0 <= w < 64 ==> (#[trigger] bit64(seen, w) <==> listed(queue@, w)),
                    forall|k: int|
                        0 <= k < queue@.len() ==> #[trigger] in_group(adj, mask, s as int, queue@[k] as int),
                    forall|k: int, w: int|
                        0 <= k < head && 0 <= w < cells && bit64(adj[#[trigger] q0[k] as int], w) && bit64(mask, w)
                            ==> #[trigger] bit64(seen, w),
                    forall|w: int| 0 <= w < y && bit64(ax, w) && bit64(mask, w) ==> #[trigger] bit64(seen, w),
                decreases cells - y,
            {
                if (ax >> (y as u64)) & 1 == 1 && (mask >> (y as u64)) & 1 == 1 && (seen >> (y as u64)) & 1 != 1 {
                    proof {
                        lemma_linked_step(adj, mask, s as int, x as int, y as int, dx);
                        assert(in_group(adj, mask, s as int, y as int));
                    }
                    let ghost qb = queue@;
                    let ghost sb = seen;
                    seen = seen | (1u64 << (y as u64));
                    queue.push(y);
                    proof {
                        assert forall|w: int| 0 <= w < 64 implies #[trigger] bit64(seen, w) == (bit64(sb, w) || w == y) by {
                            lemma_bit64_or_one(sb, y as int, w);
                        }
                        lemma_ones_one_more(sb, seen, y as int, 64);
                        assert forall|w: int| cells <= w < 64 implies !#[trigger] bit64(seen, w) by {
                            assert(!bit64(sb, w));
                        }
                        assert forall|w: int| 0 <= w < 64 implies (#[trigger] bit64(seen, w) <==> listed(queue@, w)) by {
                            if w != y {
                                if listed(qb, w) {
                                    let j = choose|j: int| 0 <= j < qb.len() && #[trigger] qb[j] as int == w;
                                    assert(queue@[j] as int == w);
                                }
                                if listed(queue@, w) {
                                    let j = choose|j: int| 0 <= j < queue@.len() && #[trigger] queue@[j] as int == w;
                                    assert(j < qb.len());
                                    assert(qb[j] as int == w);
                                }
                            } else {
                                assert(queue@[queue@.len() - 1] as int == y);
                            }
                        }
                        assert forall|k: int| 0 <= k < q0.len() implies #[trigger] queue@[k] == q0[k] by {
                            assert(queue@[k] == qb[k]);
                        }
                    }
                }
                y += 1;
            }
            proof {
                assert forall|k: int, w: int|
                    0 <= k < head + 1 && 0 <= w < cells && bit64(adj[#[trigger] queue@[k] as int], w) && bit64(mask, w)
                        implies #[trigger] bit64(seen, w) by {
                    assert(queue@[k] == q0[k]);
                }
                lemma_met_edge_step(self.edge_a, q0, queue@, head as int, ta_prev);
                lemma_met_edge_step(self.edge_b, q0, queue@, head as int, tb_prev);
                lemma_met_edge_step(self.edge_c, q0, queue@, head as int, tc_prev);
            }
            head += 1;
        }
        proof {
            // Everything linked to the seed was reached.
            assert forall|y: int| #[trigger] listed(queue@, y) <==> in_group(adj, mask, s as int, y) by {
                if in_group(adj, mask, s as int, y) {
                    let d = choose|d: nat| linked(adj, mask, s as int, y, d);
                    self.lemma_reached(mask, s as int, queue@, seen, y, d);
                }
                if listed(queue@, y) {
                    let k = choose|k: int| 0 <= k < queue@.len() && #[trigger] queue@[k] as int == y;
                    assert(in_group(adj, mask, s as int, queue@[k] as int));
                }
            }
            lemma_met_edge_group(adj, mask, s as int, queue@, self.edge_a);
            lemma_met_edge_group(adj, mask, s as int, queue@, self.edge_b);
            lemma_met_edge_group(adj, mask, s as int, queue@, self.edge_c);
        }
        (ta && tb && tc, seen)
    }

    /// A closed search reaches every cell linked to its seed.
    proof fn lemma_reached(&self, mask: u64, s: int, queue: Seq<usize>, seen: u64, y: int, d: nat)
        requires
            linked(self.adj@, mask, s, y, d),
            self.adj@.len() <= 64,
            queue.len() >= 1,
            queue[0] == s,
            forall|k: int| 0 <= k < queue.len() ==> (#[trigger] queue[k] as int) < self.adj@.len(),
            forall|w: int| 0 <= w < 64 ==> (#[trigger] bit64(seen, w) <==> listed(queue, w)),
            forall|k: int, w: int|
                0 <= k < queue.len() && 0 <= w < self.adj@.len() && bit64(self.adj@[#[trigger] queue[k] as int], w)
                    && bit64(mask, w) ==> #[trigger] bit64(seen, w),
        ensures
            listed(queue, y),
            0 <= y < self.adj@.len(),
        decreases d,
    {
        let adj = self.adj@;
        if d == 0 {
            assert(queue[0] as int == y);
        } else if linked(adj, mask, s, y, (d - 1) as nat) {
            self.lemma_reached(mask, s, queue, seen, y, (d - 1) as nat);
        } else {
            let m = choose|m: int|
                #![trigger adj[m]]
                0 <= m < adj.len() && linked(adj, mask, s, m, (d - 1) as nat) && bit64(adj[m], y) && 0 <= y
                    < adj.len() && bit64(mask, y);
            self.lemma_reached(mask, s, queue, seen, m, (d - 1) as nat);
            let k = choose|k: int| 0 <= k < queue.len() && #[trigger] queue[k] as int == m;
            assert(bit64(adj[queue[k] as int], y));
            assert(bit64(seen, y));
        }
    }

    /// Does `mask` contain a connected group touching all three edges?
    fn connects(&self, mask: u64) -> (r: bool)
        requires
            self.board_ok(),
        ensures
            r == connects_spec(self.adj@, self.edge_a, self.edge_b, self.edge_c, mask),
    {
        proof {
            lemma_rows_adj_len(self.n as int, self.n as nat);
        }
        let cells = self.adj.len();
        let ghost adj = self.adj@;
        let ghost (ea, eb, ec) = (self.edge_a, self.edge_b, self.edge_c);
        // Cells already examined as part of some group.
        let mut done: u64 = 0;
        let mut queue: Vec<usize> = Vec::new();
        let mut s: usize = 0;
        proof {
            assert forall|a: int| 0 <= a < 64 implies !#[trigger] bit64(0u64, a) by {
                let aa = a as u64;
                assert((0u64 >> aa) & 1u64 != 1u64) by (bit_vector);
            }
        }
        while s < cells
            invariant
                adj == self.adj@,
                (ea, eb, ec) == (self.edge_a, self.edge_b, self.edge_c),
                self.board_ok(),
                cells == adj.len(),
                cells <= 64,
                s <= cells,
                forall|a: int| 0 <= a < cells && #[trigger] bit64(done, a) ==> !touches_all(adj, ea, eb, ec, mask, a),
                forall|a: int| 0 <= a < s && bit64(mask, a) ==> #[trigger] bit64(done, a),
            decreases cells - s,
        {
            if (mask >> (s as u64)) & 1 == 1 && (done >> (s as u64)) & 1 != 1 {
                // Flood-fill the group of the lowest cell not yet examined.
                let (all3, group) = self.group_of(mask, s, &mut queue);
                if all3 {
                    return true;
                }
                let ghost d0 = done;
                done = done | group;
                proof {
                    assert forall|a: int| 0 <= a < 64 implies #[trigger] bit64(done, a) == (bit64(d0, a) || bit64(group, a)) by {
                        lemma_bit64_or(d0, group, a);
                    }
                    assert forall|a: int| 0 <= a < cells && #[trigger] bit64(done, a) implies !touches_all(adj, ea, eb, ec, mask, a) by {
                        if bit64(group, a) {
                            assert(in_group(adj, mask, s as int, a));
                            if touches_all(adj, ea, eb, ec, mask, a) {
                                lemma_touches_inherit(adj, mask, s as int, a, ea);
                                lemma_touches_inherit(adj, mask, s as int, a, eb);
                                lemma_touches_inherit(adj, mask, s as int, a, ec);
                            }
                        }
                    }
                    assert(linked(adj, mask, s as int, s as int, 0));
                    assert(in_group(adj, mask, s as int, s as int));
                    assert(bit64(group, s as int));
                }
            }
            s += 1;
        }
        proof {
            if connects_spec(adj, ea, eb, ec, mask) {
                let a = choose|a: int|
                    0 <= a < adj.len() && bit64(mask, a) && #[trigger] group_touches(adj, mask, a, ea) && group_touches(
                        adj,
                        mask,
                        a,
                        eb,
                    ) && group_touches(adj, mask, a, ec);
                assert(bit64(done, a));
            }
        }
        false
    }
}

/// The empty mask has no bits.
pub proof fn lemma_bit64_zero(q: int)
    requires
        0 <= q < 64,
    ensures
        !bit64(0u64, q),
{
    let qq = q as u64;
    assert((0u64 >> qq) & 1u64 != 1u64) by (bit_vector);
}

proof fn lemma_ones_zero(k: nat)
    requires
        k <= 64,
    ensures
        ones_below(0u64, k) == 0,
    decreases k,
{
    if k > 0 {
        lemma_ones_zero((k - 1) as nat);
        lemma_bit64_zero(k - 1);
    }
}

/// The bits of `m` lie below `k`.
pub open spec fn within(m: u64, k: int) -> bool {
    forall|i: int| k <= i < 64 ==> !#[trigger] bit64(m, i)
}

/// The side to move: the first player when the stone counts are level.
pub open spec fn mover_of(p: Pos) -> u8 {
    if ones_below(p.p1, 64) == ones_below(p.p2, 64) {
        P1
    } else {
        P2
    }
}

/// The position after the side to move drops a stone on cell `i`.
pub open spec fn drop_stone(p: Pos, i: int) -> Pos {
    if mover_of(p) == P1 {
        Pos { p1: p.p1 | (1u64 << (i as u64)), ..p }
    } else {
        Pos { p2: p.p2 | (1u64 << (i as u64)), ..p }
    }
}

/// Drops on the empty cells below `k`, in cell order.
pub open spec fn drops(p: Pos, k: nat) -> Seq<Pos>
    decreases k,
{
    if k == 0 {
        Seq::empty()
    } else {
        let prev = drops(p, (k - 1) as nat);
        if !bit64(p.p1 | p.p2, k - 1) {
            prev.push(drop_stone(p, k - 1))
        } else {
            prev
        }
    }
}

/// The number of set bits of `m`.
fn ones(m: u64) -> (r: u32)
    ensures
        r == ones_below(m, 64),
{
    let mut c: u32 = 0;
    let mut i: u32 = 0;
    while i < 64
        invariant
            i <= 64,
            c == ones_below(m, i as nat),
            c <= i,
        decreases 64 - i,
    {
        if (m >> (i as u64)) & 1 == 1 {
            c += 1;
        }
        i += 1;
    }
    c
}

proof fn lemma_set_bit_within(m: u64, i: u64, k: int)
    requires
        within(m, k),
        0 <= i < k <= 64,
    ensures
        within(m | (1u64 << i), k),
{
    assert forall|j: int| k <= j < 64 implies !#[trigger] bit64(m | (1u64 << i), j) by {
        let jj = j as u64;
        assert(!bit64(m, jj as int));
        assert(((m >> jj) & 1u64 != 1u64 && i < jj && jj < 64) ==> ((m | (1u64 << i)) >> jj) & 1u64 != 1u64)
            by (bit_vector);
    }
}

/// A drop keeps both players' stones on the board.
proof fn lemma_drops_legal(p: Pos, cells: nat, k: int)
    requires
        cells <= 64,
        within(p.p1, cells as int),
        within(p.p2, cells as int),
        0 <= k < drops(p, cells).len(),
    ensures
        within(drops(p, cells)[k].p1, cells as int),
        within(drops(p, cells)[k].p2, cells as int),
{
    lemma_drops_legal_below(p, cells, cells, k);
}

proof fn lemma_drops_legal_below(p: Pos, cells: nat, j: nat, k: int)
    requires
        j <= cells <= 64,
        within(p.p1, cells as int),
        within(p.p2, cells as int),
        0 <= k < drops(p, j).len(),
    ensures
        within(drops(p, j)[k].p1, cells as int),
        within(drops(p, j)[k].p2, cells as int),
    decreases j,
{
    let prev = drops(p, (j - 1) as nat);
    if k < prev.len() {
        lemma_drops_legal_below(p, cells, (j - 1) as nat, k);
    } else {
        lemma_set_bit_within(p.p1, (j - 1) as u64, cells as int);
        lemma_set_bit_within(p.p2, (j - 1) as u64, cells as int);
    }
}

impl Y {
    fn to_move(&self, p: &Pos) -> (r: u8)
        ensures
            r == mover_of(*p),
    {
        if ones(p.p1) == ones(p.p2) {
            P1
        } else {
            P2
        }
    }
}

proof fn lemma_pos_key_injective(a: Pos, b: Pos)
    requires
        (a.p1 as u128) | ((a.p2 as u128) << 64u128) == (b.p1 as u128) | ((b.p2 as u128) << 64u128),
    ensures
        a == b,
{
    let (x1, y1, x2, y2) = (a.p1, a.p2, b.p1, b.p2);
    assert(x1 == x2 && y1 == y2) by (bit_vector)
        requires
            (x1 as u128) | ((y1 as u128) << 64u128) == (x2 as u128) | ((y2 as u128) << 64u128),
    ;
}

impl StateKey for Pos {
    open spec fn key_exact(&self) -> bool {
        true
    }

    open spec fn key_spec(&self) -> u128 {
        (self.p1 as u128) | ((self.p2 as u128) << 64u128)
    }

    fn same(&self, other: &Self) -> (r: bool) {
        self.p1 == other.p1 && self.p2 == other.p2
    }

    fn key(&self) -> (r: u128) {
        (self.p1 as u128) | ((self.p2 as u128) << 64u128)
    }

    proof fn lemma_key_injective(a: Self, b: Self) {
        lemma_pos_key_injective(a, b);
    }
}

impl RulesGame for Y {
    type State = Pos;

    open spec fn rules_ok(&self) -> bool {
        self.board_ok()
    }

    open spec fn legal_state(&self, p: Pos) -> bool {
        within(p.p1, self.dims().1 as int) && within(p.p2, self.dims().1 as int)
    }

    open spec fn initial(&self) -> Pos {
        Pos { p1: 0, p2: 0 }
    }

    open spec fn next_states(&self, p: Pos) -> Seq<Pos> {
        drops(p, self.dims().1 as nat)
    }

    open spec fn result_of(&self, p: Pos) -> Option<Outcome> {
        let (ea, eb, ec) = self.edges();
        if connects_spec(self.adj_view(), ea, eb, ec, p.p1) || connects_spec(self.adj_view(), ea, eb, ec, p.p2) {
            Some(Outcome::Loss)
        } else {
            None
        }
    }

    fn start(&self) -> (r: Pos) {
        let r = Pos { p1: 0, p2: 0 };
        proof {
            assert forall|i: int| 0 <= i < 64 implies !#[trigger] bit64(0u64, i) by {
                let ii = i as u64;
                assert((0u64 >> ii) & 1u64 != 1u64) by (bit_vector);
            }
        }
        r
    }

    fn successors(&self, p: &Pos) -> (r: Vec<Pos>) {
        // The mover places one stone on each empty cell in turn.
        proof {
            lemma_rows_adj_len(self.n as int, self.n as nat);
        }
        let occupied = p.p1 | p.p2;
        let mover = self.to_move(p);
        let mut out: Vec<Pos> = Vec::new();
        let mut i: usize = 0;
        while i < self.cells
            invariant
                self.board_ok(),
                self.cells <= 64,
                i <= self.cells,
                occupied == p.p1 | p.p2,
                mover == mover_of(*p),
                within(p.p1, self.cells as int),
                within(p.p2, self.cells as int),
                out@ == drops(*p, i as nat),
                forall|k: int| 0 <= k < out@.len() ==> self.legal_state(#[trigger] out@[k]),
            decreases self.cells - i,
        {
            if (occupied >> (i as u64)) & 1 != 1 {
                let mut next = *p;
                if mover == P1 {
                    next.p1 = next.p1 | (1u64 << (i as u64));
                    proof {
                        lemma_set_bit_within(p.p1, i as u64, self.cells as int);
                    }
                } else {
                    next.p2 = next.p2 | (1u64 << (i as u64));
                    proof {
                        lemma_set_bit_within(p.p2, i as u64, self.cells as int);
                    }
                }
                out.push(next);
            }
            i += 1;
        }
        out
    }

    proof fn lemma_next_legal(&self, p: Pos, k: int) {
        lemma_rows_adj_len(self.n as int, self.n as nat);
        lemma_drops_legal(p, self.cells as nat, k);
    }

    proof fn lemma_legal_exact(&self, p: Pos) {
    }

    fn terminal(&self, p: &Pos) -> (r: Option<Outcome>) {
        // The player who just moved is the only one who can have completed a
        // connection; if either colour connects, the side to move has lost. Y has
        // no draw branch.
        if self.connects(p.p1) || self.connects(p.p2) {
            Some(Outcome::Loss)
        } else {
            None
        }
    }
}

/// Every position in `drops(p, k)` is `p` with a stone dropped on an empty
/// cell below `k`.
proof fn lemma_drops_are_drops(p: Pos, k: nat, m: int)
    requires
        0 <= m < drops(p, k).len(),
    ensures
        exists|c: int| 0 <= c < k && !bit64(p.p1 | p.p2, c) && #[trigger] drop_stone(p, c) == drops(p, k)[m],
    decreases k,
{
    let prev = drops(p, (k - 1) as nat);
    if m < prev.len() {
        lemma_drops_are_drops(p, (k - 1) as nat, m);
        let c = choose|c: int| 0 <= c < k - 1 && !bit64(p.p1 | p.p2, c) && #[trigger] drop_stone(p, c) == prev[m];
        assert(drops(p, k)[m] == prev[m]);
        assert(drop_stone(p, c) == drops(p, k)[m]);
    } else {
        assert(drop_stone(p, k - 1) == drops(p, k)[m]);
    }
}

/// Y is pure placement: a move drops one stone of the side to move on an empty
/// cell and keeps every stone already on the board, so each move adds exactly
/// one stone and no position ever recurs.
pub proof fn lemma_y_move_adds_a_stone(y: &Y, p: Pos, m: int)
    requires
        y.rules_ok(),
        0 <= m < y.next_states(p).len(),
    ensures
        exists|c: int|
            0 <= c < y.dims().1 && !bit64(p.p1 | p.p2, c) && #[trigger] drop_stone(p, c) == y.next_states(p)[m],
        ones_below(y.next_states(p)[m].p1, 64) + ones_below(y.next_states(p)[m].p2, 64) == ones_below(p.p1, 64)
            + ones_below(p.p2, 64) + 1,
{
    let cells = y.dims().1 as nat;
    lemma_drops_are_drops(p, cells, m);
    let c = choose|c: int| 0 <= c < cells && !bit64(p.p1 | p.p2, c) && #[trigger] drop_stone(p, c) == drops(p, cells)[m];
    let q = drops(p, cells)[m];
    lemma_bit64_or(p.p1, p.p2, c);
    if mover_of(p) == P1 {
        assert forall|j: int| 0 <= j < 64 implies #[trigger] bit64(q.p1, j) == (bit64(p.p1, j) || j == c) by {
            lemma_bit64_or_one(p.p1, c, j);
        }
        lemma_ones_one_more(p.p1, q.p1, c, 64);
    } else {
        assert forall|j: int| 0 <= j < 64 implies #[trigger] bit64(q.p2, j) == (bit64(p.p2, j) || j == c) by {
            lemma_bit64_or_one(p.p2, c, j);
        }
        lemma_ones_one_more(p.p2, q.p2, c, 64);
    }
}

} // verus!
