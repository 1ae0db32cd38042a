//! Every symmetry of a ring-built morris board is an automorphism of it: it
//! maps each point's neighbours onto the neighbours of the point's image, and
//! every mill onto a mill.

use vstd::prelude::*;
use crate::games::generic_morris::{
    automorphism, compose, identity_map, maps_to_mill, permute_spec, ring_adj, ring_mills, side_mill, spoke_mill,
    Board,
};
use crate::games::symmetry::{
    is_board_sym, lemma_generators_are_syms, lemma_mod4, lemma_mod8, lemma_permute_bits, lemma_sym_at,
    lemma_sym_compose, square_map, sym_code, sym_map,
};
use crate::index::{bit, lemma_bit_one, lemma_bit_or, lemma_bit_zero, lemma_bits_ext};

verus! {

/// Points `a` and `b` of a `rings`-ring board are neighbours: beside each
/// other on one ring, or the same side-midpoint on neighbouring rings.
pub open spec fn adjacent(rings: int, a: int, b: int) -> bool {
    let (ra, ia, rb, ib) = (a / 8, a % 8, b / 8, b % 8);
    &&& 0 <= a < 8 * rings
    &&& 0 <= b < 8 * rings
    &&& ((ra == rb && (ib == (ia + 1) % 8 || ib == (ia + 7) % 8)) || (ia == ib && ia % 2 == 1 && (rb == ra + 1
        || ra == rb + 1)))
}

/// The point on ring `r` at place `i`.
proof fn lemma_point(r: int, i: int, q: int)
    requires
        0 <= i < 8,
        0 <= q,
    ensures
        (q == 8 * r + i) <==> (q / 8 == r && q % 8 == i),
{
    vstd::arithmetic::div_mod::lemma_fundamental_div_mod(q, 8);
    if q == 8 * r + i {
        vstd::arithmetic::div_mod::lemma_fundamental_div_mod_converse(q, 8, r, i);
    }
}

/// The neighbour mask of a point holds exactly its neighbours.
pub proof fn lemma_ring_adj_bits(rings: int, a: int, q: int)
    requires
        2 <= rings <= 4,
        0 <= a < 8 * rings,
        0 <= q < 32,
    ensures
        bit(ring_adj(rings, a), q) <==> adjacent(rings, a, q),
{
    let r = a / 8;
    let i = a % 8;
    vstd::arithmetic::div_mod::lemma_fundamental_div_mod(a, 8);
    let x = r * 8 + (i + 1) % 8;
    let y = r * 8 + (i + 7) % 8;
    lemma_mod8(i + 1);
    lemma_mod8(i + 7);
    let along = (1u32 << (x as u32)) | (1u32 << (y as u32));
    let inward = if i % 2 == 1 && r > 0 {
        1u32 << ((a - 8) as u32)
    } else {
        0u32
    };
    let outward = if i % 2 == 1 && r + 1 < rings {
        1u32 << ((a + 8) as u32)
    } else {
        0u32
    };
    lemma_bit_or(along | inward, outward, q);
    lemma_bit_or(along, inward, q);
    lemma_bit_or(1u32 << (x as u32), 1u32 << (y as u32), q);
    lemma_bit_one(x, q);
    lemma_bit_one(y, q);
    if i % 2 == 1 && r > 0 {
        lemma_bit_one(a - 8, q);
    } else {
        lemma_bit_zero(q);
    }
    if i % 2 == 1 && r + 1 < rings {
        lemma_bit_one(a + 8, q);
    } else {
        lemma_bit_zero(q);
    }
    lemma_point(r, (i + 1) % 8, q);
    lemma_point(r, (i + 7) % 8, q);
    lemma_point(r - 1, i, q);
    lemma_point(r + 1, i, q);
    vstd::arithmetic::div_mod::lemma_fundamental_div_mod(q, 8);
}

/// A square symmetry keeps the parity of a place, is one to one, and keeps
/// places beside each other beside each other.
proof fn lemma_square_props(f: bool, t: int, i: int, j: int)
    requires
        0 <= t < 4,
        0 <= i < 8,
        0 <= j < 8,
    ensures
        0 <= square_map(f, t, i) < 8,
        square_map(f, t, i) % 2 == i % 2,
        (square_map(f, t, i) == square_map(f, t, j)) <==> (i == j),
        (j == (i + 1) % 8 || j == (i + 7) % 8) <==> (square_map(f, t, j) == (square_map(f, t, i) + 1) % 8
            || square_map(f, t, j) == (square_map(f, t, i) + 7) % 8),
{
    let xi = (if f { 8 - i } else { i }) + 2 * t;
    let xj = (if f { 8 - j } else { j }) + 2 * t;
    lemma_mod8(xi);
    lemma_mod8(xj);
    lemma_mod8(i + 1);
    lemma_mod8(i + 7);
    let si = xi % 8;
    lemma_mod8(si + 1);
    lemma_mod8(si + 7);
    vstd::arithmetic::div_mod::lemma_fundamental_div_mod(si, 2);
    vstd::arithmetic::div_mod::lemma_fundamental_div_mod(i, 2);
    vstd::arithmetic::div_mod::lemma_fundamental_div_mod(xi, 2);
}

/// A board symmetry maps neighbours to neighbours and nothing else to them.
pub proof fn lemma_sym_adjacent(rings: int, f: bool, t: int, v: bool, a: int, b: int)
    requires
        2 <= rings <= 4,
        0 <= t < 4,
        0 <= a < 8 * rings,
        0 <= b < 8 * rings,
    ensures
        adjacent(rings, a, b) <==> adjacent(
            rings,
            sym_map(rings, f, t, v)[a] as int,
            sym_map(rings, f, t, v)[b] as int,
        ),
{
    lemma_sym_at(rings, f, t, v, a);
    lemma_sym_at(rings, f, t, v, b);
    vstd::arithmetic::div_mod::lemma_fundamental_div_mod(a, 8);
    vstd::arithmetic::div_mod::lemma_fundamental_div_mod(b, 8);
    lemma_square_props(f, t, a % 8, b % 8);
    lemma_square_props(f, t, b % 8, a % 8);
}

/// The inverse of a board symmetry: following it by the symmetry undoes it.
pub open spec fn sym_inverse(rings: int, f: bool, t: int, v: bool) -> Seq<u8> {
    sym_map(rings, f, if f { t } else { (4 - t) % 4 }, v)
}

/// Undoing a board symmetry: the inverse followed by the symmetry is the identity.
proof fn lemma_sym_left_inverse(rings: int, f: bool, t: int, v: bool)
    requires
        1 <= rings <= 4,
        0 <= t < 4,
    ensures
        compose(sym_inverse(rings, f, t, v), sym_map(rings, f, t, v)) == identity_map(8 * rings),
{
    let t2 = if f { t } else { (4 - t) % 4 };
    lemma_mod4(4 - t);
    lemma_mod4(t - t2 + 4);
    lemma_mod4(t2 + t);
    lemma_sym_compose(rings, f, t2, v, f, t, v);
    lemma_generators_are_syms(rings);
}

/// A board symmetry maps the neighbours of `a` onto the neighbours of its image.
pub proof fn lemma_sym_maps_neighbours(rings: int, f: bool, t: int, v: bool, a: int)
    requires
        2 <= rings <= 4,
        0 <= t < 4,
        0 <= a < 8 * rings,
    ensures
        permute_spec(sym_map(rings, f, t, v), ring_adj(rings, a)) == ring_adj(
            rings,
            sym_map(rings, f, t, v)[a] as int,
        ),
{
    let n = 8 * rings;
    let p = sym_map(rings, f, t, v);
    let inv = sym_inverse(rings, f, t, v);
    lemma_sym_left_inverse(rings, f, t, v);
    lemma_sym_at(rings, f, t, v, a);
    let pa = p[a] as int;
    assert forall|x: int| 0 <= x < p.len() implies (#[trigger] p[x] as int) < 32 by {
        lemma_sym_at(rings, f, t, v, x);
    }
    let lhs = permute_spec(p, ring_adj(rings, a));
    let rhs = ring_adj(rings, pa);
    assert forall|y: int| 0 <= y < 32 implies #[trigger] bit(lhs, y) == bit(rhs, y) by {
        lemma_permute_bits(p, ring_adj(rings, a), n as nat, y);
        lemma_ring_adj_bits(rings, pa, y);
        if exists|x: int| 0 <= x < n && bit(ring_adj(rings, a), x) && #[trigger] p[x] == y {
            let x = choose|x: int| 0 <= x < n && bit(ring_adj(rings, a), x) && #[trigger] p[x] == y;
            lemma_ring_adj_bits(rings, a, x);
            lemma_sym_adjacent(rings, f, t, v, a, x);
        }
        if adjacent(rings, pa, y) {
            let t2 = if f { t } else { (4 - t) % 4 };
            lemma_mod4(4 - t);
            lemma_sym_at(rings, f, t2, v, y);
            let x = inv[y] as int;
            assert(compose(inv, p)[y] == identity_map(n)[y]);
            assert(p[x] == y);
            lemma_sym_adjacent(rings, f, t, v, a, x);
            lemma_ring_adj_bits(rings, a, x);
            assert(0 <= x < n && bit(ring_adj(rings, a), x) && p[x] == y);
        }
    }
    lemma_bits_ext(lhs, rhs);
}

/// Point `q` lies on side `s` of ring `r`: the corner at `2s`, the midpoint
/// after it, and the next corner.
pub open spec fn on_side(r: int, s: int, q: int) -> bool {
    &&& q / 8 == r
    &&& (q % 8 == 2 * s || q % 8 == 2 * s + 1 || q % 8 == (2 * s + 2) % 8)
}

/// Point `q` lies on the spoke through midpoint place `m` from ring `r` out.
pub open spec fn on_spoke(r: int, m: int, q: int) -> bool {
    &&& q % 8 == m
    &&& (q / 8 == r || q / 8 == r + 1 || q / 8 == r + 2)
}

/// The bits of a side mill.
proof fn lemma_side_bits(r: int, s: int, q: int)
    requires
        0 <= r < 4,
        0 <= s < 4,
        0 <= q < 32,
    ensures
        bit(side_mill(8 * r, s), q) <==> on_side(r, s, q),
{
    let base = 8 * r;
    let (a1, a2, a3) = (base + 2 * s, base + 2 * s + 1, base + (2 * s + 2) % 8);
    lemma_mod8(2 * s + 2);
    lemma_bit_or((1u32 << (a1 as u32)) | (1u32 << (a2 as u32)), 1u32 << (a3 as u32), q);
    lemma_bit_or(1u32 << (a1 as u32), 1u32 << (a2 as u32), q);
    lemma_bit_one(a1, q);
    lemma_bit_one(a2, q);
    lemma_bit_one(a3, q);
    lemma_point(r, 2 * s, q);
    lemma_point(r, 2 * s + 1, q);
    lemma_point(r, (2 * s + 2) % 8, q);
}

/// The bits of a spoke mill.
proof fn lemma_spoke_bits(r: int, m: int, q: int)
    requires
        0 <= r,
        r + 2 < 4,
        0 <= m < 8,
        0 <= q < 32,
    ensures
        bit(spoke_mill(r, m), q) <==> on_spoke(r, m, q),
{
    let (a1, a2, a3) = (r * 8 + m, (r + 1) * 8 + m, (r + 2) * 8 + m);
    lemma_bit_or((1u32 << (a1 as u32)) | (1u32 << (a2 as u32)), 1u32 << (a3 as u32), q);
    lemma_bit_or(1u32 << (a1 as u32), 1u32 << (a2 as u32), q);
    lemma_bit_one(a1, q);
    lemma_bit_one(a2, q);
    lemma_bit_one(a3, q);
    lemma_point(r, m, q);
    lemma_point(r + 1, m, q);
    lemma_point(r + 2, m, q);
}

/// The side that side `s` goes to under the square symmetry `(f, t)`.
pub open spec fn side_image(f: bool, t: int, s: int) -> int {
    if f {
        (t - s - 1 + 8) % 4
    } else {
        (s + t) % 4
    }
}

/// The ring that ring `r` goes to.
pub open spec fn ring_image(rings: int, v: bool, r: int) -> int {
    if v {
        rings - 1 - r
    } else {
        r
    }
}

/// A board symmetry moves the points of a side onto the points of a side.
proof fn lemma_side_forward(rings: int, f: bool, t: int, v: bool, r: int, s: int, x: int)
    requires
        2 <= rings <= 4,
        0 <= t < 4,
        0 <= r < rings,
        0 <= s < 4,
        0 <= x < 8 * rings,
        on_side(r, s, x),
    ensures
        on_side(ring_image(rings, v, r), side_image(f, t, s), sym_map(rings, f, t, v)[x] as int),
{
    lemma_sym_at(rings, f, t, v, x);
    let i = x % 8;
    let xi = (if f { 8 - i } else { i }) + 2 * t;
    lemma_mod8(xi);
    lemma_mod8(2 * s + 2);
    let s2 = side_image(f, t, s);
    lemma_mod4(t - s - 1 + 8);
    lemma_mod4(s + t);
    lemma_mod8(2 * s2 + 2);
}

/// A board symmetry moves the points of a spoke onto the points of a spoke.
proof fn lemma_spoke_forward(rings: int, f: bool, t: int, v: bool, r: int, m: int, x: int)
    requires
        2 <= rings <= 4,
        0 <= t < 4,
        0 <= r,
        r + 2 < rings,
        0 <= m < 8,
        0 <= x < 8 * rings,
        on_spoke(r, m, x),
    ensures
        on_spoke(
            if v {
                rings - 3 - r
            } else {
                r
            },
            square_map(f, t, m),
            sym_map(rings, f, t, v)[x] as int,
        ),
{
    lemma_sym_at(rings, f, t, v, x);
}

/// The inverse symmetry sends an image side back to its side.
proof fn lemma_side_back(f: bool, t: int, s: int)
    requires
        0 <= t < 4,
        0 <= s < 4,
    ensures
        side_image(f, if f { t } else { (4 - t) % 4 }, side_image(f, t, s)) == s,
        0 <= side_image(f, t, s) < 4,
{
    lemma_mod4(4 - t);
    lemma_mod4(t - s - 1 + 8);
    lemma_mod4(s + t);
    let s2 = side_image(f, t, s);
    lemma_mod4(t - s2 - 1 + 8);
    lemma_mod4(s2 + (4 - t) % 4);
}

/// A board symmetry maps every side mill onto a side mill.
pub proof fn lemma_sym_maps_side(rings: int, f: bool, t: int, v: bool, r: int, s: int)
    requires
        2 <= rings <= 4,
        0 <= t < 4,
        0 <= r < rings,
        0 <= s < 4,
    ensures
        permute_spec(sym_map(rings, f, t, v), side_mill(8 * r, s)) == side_mill(
            8 * ring_image(rings, v, r),
            side_image(f, t, s),
        ),
{
    let n = 8 * rings;
    let p = sym_map(rings, f, t, v);
    let t2 = if f { t } else { (4 - t) % 4 };
    lemma_mod4(4 - t);
    let inv = sym_map(rings, f, t2, v);
    lemma_sym_left_inverse(rings, f, t, v);
    lemma_side_back(f, t, s);
    let r2 = ring_image(rings, v, r);
    let s2 = side_image(f, t, s);
    assert forall|x: int| 0 <= x < p.len() implies (#[trigger] p[x] as int) < 32 by {
        lemma_sym_at(rings, f, t, v, x);
    }
    let lhs = permute_spec(p, side_mill(8 * r, s));
    let rhs = side_mill(8 * r2, s2);
    assert forall|y: int| 0 <= y < 32 implies #[trigger] bit(lhs, y) == bit(rhs, y) by {
        lemma_permute_bits(p, side_mill(8 * r, s), n as nat, y);
        lemma_side_bits(r2, s2, y);
        if exists|x: int| 0 <= x < n && bit(side_mill(8 * r, s), x) && #[trigger] p[x] == y {
            let x = choose|x: int| 0 <= x < n && bit(side_mill(8 * r, s), x) && #[trigger] p[x] == y;
            lemma_side_bits(r, s, x);
            lemma_side_forward(rings, f, t, v, r, s, x);
        }
        if on_side(r2, s2, y) {
            vstd::arithmetic::div_mod::lemma_fundamental_div_mod(y, 8);
            lemma_side_forward(rings, f, t2, v, r2, s2, y);
            lemma_sym_at(rings, f, t2, v, y);
            let x = inv[y] as int;
            assert(compose(inv, p)[y] == identity_map(n)[y]);
            lemma_side_bits(r, s, x);
            assert(0 <= x < n && bit(side_mill(8 * r, s), x) && p[x] == y);
        }
    }
    lemma_bits_ext(lhs, rhs);
}

/// A board symmetry maps every spoke mill onto a spoke mill.
pub proof fn lemma_sym_maps_spoke(rings: int, f: bool, t: int, v: bool, r: int, m: int)
    requires
        2 <= rings <= 4,
        0 <= t < 4,
        0 <= r,
        r + 2 < rings,
        0 <= m < 8,
    ensures
        permute_spec(sym_map(rings, f, t, v), spoke_mill(r, m)) == spoke_mill(
            if v {
                rings - 3 - r
            } else {
                r
            },
            square_map(f, t, m),
        ),
{
    let n = 8 * rings;
    let p = sym_map(rings, f, t, v);
    let t2 = if f { t } else { (4 - t) % 4 };
    lemma_mod4(4 - t);
    let inv = sym_map(rings, f, t2, v);
    lemma_sym_left_inverse(rings, f, t, v);
    let r2 = if v {
        rings - 3 - r
    } else {
        r
    };
    let m2 = square_map(f, t, m);
    assert(square_map(f, t2, m2) == m) by {
        lemma_mod8((if f { 8 - m } else { m }) + 2 * t);
        lemma_mod8((if f { 8 - m2 } else { m2 }) + 2 * t2);
        lemma_mod4(4 - t);
    }
    assert forall|x: int| 0 <= x < p.len() implies (#[trigger] p[x] as int) < 32 by {
        lemma_sym_at(rings, f, t, v, x);
    }
    let lhs = permute_spec(p, spoke_mill(r, m));
    let rhs = spoke_mill(r2, m2);
    assert forall|y: int| 0 <= y < 32 implies #[trigger] bit(lhs, y) == bit(rhs, y) by {
        lemma_permute_bits(p, spoke_mill(r, m), n as nat, y);
        lemma_spoke_bits(r2, m2, y);
        if exists|x: int| 0 <= x < n && bit(spoke_mill(r, m), x) && #[trigger] p[x] == y {
            let x = choose|x: int| 0 <= x < n && bit(spoke_mill(r, m), x) && #[trigger] p[x] == y;
            lemma_spoke_bits(r, m, x);
            lemma_spoke_forward(rings, f, t, v, r, m, x);
        }
        if on_spoke(r2, m2, y) {
            vstd::arithmetic::div_mod::lemma_fundamental_div_mod(y, 8);
            lemma_spoke_forward(rings, f, t2, v, r2, m2, y);
            lemma_sym_at(rings, f, t2, v, y);
            let x = inv[y] as int;
            assert(compose(inv, p)[y] == identity_map(n)[y]);
            lemma_spoke_bits(r, m, x);
            assert(0 <= x < n && bit(spoke_mill(r, m), x) && p[x] == y);
        }
    }
    lemma_bits_ext(lhs, rhs);
}

/// Every board symmetry is an automorphism of the ring board: it maps each
/// point's neighbours onto the neighbours of the point's image, and each mill
/// onto a mill.
pub proof fn lemma_sym_automorphism(rings: int, p: Seq<u8>)
    requires
        2 <= rings <= 4,
        is_board_sym(rings, p),
    ensures
        automorphism(p, Seq::new((8 * rings) as nat, |a: int| ring_adj(rings, a)), ring_mills(rings)),
{
    let c = choose|c: int| 0 <= c < 16 && p == #[trigger] sym_code(rings, c);
    let (f, t, v) = (c / 8 == 1, c % 4, (c / 4) % 2 == 1);
    let n = 8 * rings;
    let adj = Seq::new(n as nat, |a: int| ring_adj(rings, a));
    let mills = ring_mills(rings);
    assert forall|a: int| 0 <= a < p.len() implies permute_spec(p, #[trigger] adj[a]) == adj[p[a] as int] by {
        lemma_sym_at(rings, f, t, v, a);
        lemma_sym_maps_neighbours(rings, f, t, v, a);
    }
    assert forall|i: int| 0 <= i < mills.len() implies #[trigger] maps_to_mill(p, mills, i) by {
        if i < 4 * rings {
            let r = i / 4;
            let s = i % 4;
            assert(mills[i] == side_mill(8 * r, s));
            lemma_sym_maps_side(rings, f, t, v, r, s);
            lemma_side_back(f, t, s);
            let r2 = ring_image(rings, v, r);
            let s2 = side_image(f, t, s);
            let j = 4 * r2 + s2;
            vstd::arithmetic::div_mod::lemma_fundamental_div_mod_converse(j, 4, r2, s2);
            assert(mills[j] == side_mill(8 * r2, s2));
        } else {
            let k = i - 4 * rings;
            let r = k / 4;
            let m = 2 * (k % 4) + 1;
            assert(mills[i] == spoke_mill(r, m));
            lemma_sym_maps_spoke(rings, f, t, v, r, m);
            lemma_square_props(f, t, m, m);
            let r2 = if v {
                rings - 3 - r
            } else {
                r
            };
            let m2 = square_map(f, t, m);
            let cc = (m2 - 1) / 2;
            vstd::arithmetic::div_mod::lemma_fundamental_div_mod(m2, 2);
            let k2 = 4 * r2 + cc;
            vstd::arithmetic::div_mod::lemma_fundamental_div_mod_converse(k2, 4, r2, cc);
            let j = 4 * rings + k2;
            assert(mills[j] == spoke_mill(r2, 2 * cc + 1));
        }
    }
}

/// Every symmetry listed with a ring board is an automorphism of the board.
pub proof fn lemma_ring_board_automorphisms(b: Board, rings: int, men: u8)
    requires
        2 <= rings <= 4,
        b.ring_board(rings, men),
    ensures
        forall|k: int| 0 <= k < b.sym@.len() ==> automorphism(#[trigger] b.sym@[k]@, b.adj@, b.mills@),
{
    let views = b.sym_views();
    assert forall|k: int| 0 <= k < b.sym@.len() implies automorphism(#[trigger] b.sym@[k]@, b.adj@, b.mills@) by {
        assert(views[k] == b.sym@[k]@);
        lemma_sym_automorphism(rings, views[k]);
    }
}

} // verus!
