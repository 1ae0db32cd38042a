//! The symmetry group of a ring-built morris board: the eight symmetries of
//! the square acting within every ring, times turning the rings inside out.
//! Each symmetry is named by a code in `0..16`, and composing two symmetries
//! is arithmetic on their codes.

use vstd::prelude::*;
use crate::games::generic_morris::{
    all_distinct, compose, generators, identity_map, is_point_map, reflection, ring_reversal, rotation,
};
use crate::reachable::lemma_distinct_len_le;
use crate::games::generic_morris::{image, is_canonical, lex_less, permute_below, permute_spec, State};
use crate::index::{bit, lemma_bit_one, lemma_bit_or, lemma_bit_zero, lemma_bits_ext, within32};

verus! {

/// Where the square symmetry `(flip, turn)` sends position `i` of a ring: an
/// optional mirror image, then `turn` quarter turns.
pub open spec fn square_map(flip: bool, turn: int, i: int) -> int {
    ((if flip {
        8 - i
    } else {
        i
    }) + 2 * turn) % 8
}

/// The board symmetry `(flip, turn, inside_out)` on `rings` rings: the square
/// symmetry within each ring, and the ring order reversed when `inside_out`.
pub open spec fn sym_map(rings: int, flip: bool, turn: int, inside_out: bool) -> Seq<u8> {
    Seq::new(
        (8 * rings) as nat,
        |a: int|
            (8 * (if inside_out {
                rings - 1 - a / 8
            } else {
                a / 8
            }) + square_map(flip, turn, a % 8)) as u8,
    )
}

/// The symmetry with code `c` in `0..16`: flip `c / 8`, inside-out `(c / 4) % 2`,
/// and `c % 4` quarter turns.
pub open spec fn sym_code(rings: int, c: int) -> Seq<u8> {
    sym_map(rings, c / 8 == 1, c % 4, (c / 4) % 2 == 1)
}

/// The code of the symmetry `(flip, turn, inside_out)`.
pub open spec fn code_of_sym(flip: bool, turn: int, inside_out: bool) -> int {
    (if flip {
        8int
    } else {
        0int
    }) + (if inside_out {
        4int
    } else {
        0int
    }) + turn % 4
}

/// `p` is one of the sixteen board symmetries.
pub open spec fn is_board_sym(rings: int, p: Seq<u8>) -> bool {
    exists|c: int| 0 <= c < 16 && p == #[trigger] sym_code(rings, c)
}

/// `group` is the board's symmetry group: the sixteen board symmetries,
/// each once, the identity first.
pub open spec fn sym_group(rings: int, group: Seq<Seq<u8>>) -> bool {
    &&& group.len() == 16
    &&& group[0] == identity_map(8 * rings)
    &&& all_distinct(group)
    &&& forall|i: int| 0 <= i < group.len() ==> is_board_sym(rings, #[trigger] group[i])
    &&& forall|c: int| 0 <= c < 16 ==> group.contains(#[trigger] sym_code(rings, c))
}

/// `x % 8` for a small `x`.
pub proof fn lemma_mod8(x: int)
    requires
        0 <= x < 24,
    ensures
        x % 8 == if x >= 16 {
            x - 16
        } else if x >= 8 {
            x - 8
        } else {
            x
        },
{
    let (q, r) = if x >= 16 {
        (2int, x - 16)
    } else if x >= 8 {
        (1int, x - 8)
    } else {
        (0int, x)
    };
    vstd::arithmetic::div_mod::lemma_fundamental_div_mod_converse(x, 8, q, r);
}

/// Square symmetries compose: `(f2, t2)` after `(f1, t1)` is the symmetry
/// with flip `f1 != f2` and the turns added (or, after a flip, subtracted).
proof fn lemma_square_compose(f1: bool, t1: int, f2: bool, t2: int, i: int)
    requires
        0 <= t1 < 4,
        0 <= t2 < 4,
        0 <= i < 8,
    ensures
        0 <= square_map(f1, t1, i) < 8,
        square_map(f2, t2, square_map(f1, t1, i)) == square_map(
            f1 != f2,
            if f2 {
                (t2 - t1 + 4) % 4
            } else {
                (t1 + t2) % 4
            },
            i,
        ),
{
    let x = (if f1 {
        8 - i
    } else {
        i
    }) + 2 * t1;
    lemma_mod8(x);
    let s1 = x % 8;
    let y = (if f2 {
        8 - s1
    } else {
        s1
    }) + 2 * t2;
    lemma_mod8(y);
    let t = if f2 {
        (t2 - t1 + 4) % 4
    } else {
        (t1 + t2) % 4
    };
    let z = (if f1 != f2 {
        8 - i
    } else {
        i
    }) + 2 * t;
    lemma_mod8(z);
}

/// Where a board symmetry sends point `a`: its ring and its place in the ring.
pub proof fn lemma_sym_at(rings: int, flip: bool, turn: int, inside_out: bool, a: int)
    requires
        1 <= rings <= 4,
        0 <= turn < 4,
        0 <= a < 8 * rings,
    ensures
        ({
            let b = sym_map(rings, flip, turn, inside_out)[a] as int;
            let ring = if inside_out {
                rings - 1 - a / 8
            } else {
                a / 8
            };
            &&& 0 <= ring < rings
            &&& 0 <= b < 8 * rings
            &&& b / 8 == ring
            &&& b % 8 == square_map(flip, turn, a % 8)
        }),
{
    vstd::arithmetic::div_mod::lemma_fundamental_div_mod(a, 8);
    let ring = if inside_out {
        rings - 1 - a / 8
    } else {
        a / 8
    };
    let sq = square_map(flip, turn, a % 8);
    lemma_mod8((if flip { 8 - a % 8 } else { a % 8 }) + 2 * turn);
    assert(0 <= a / 8 < rings);
    assert(0 <= sq < 8);
    let b = 8 * ring + sq;
    assert(0 <= b < 32);
    assert(sym_map(rings, flip, turn, inside_out)[a] as int == b);
    vstd::arithmetic::div_mod::lemma_fundamental_div_mod_converse(b, 8, ring, sq);
}

/// Board symmetries compose by their parts: the flips and the ring
/// reversals add up, and the turns as [`lemma_square_compose`] says.
pub proof fn lemma_sym_compose(rings: int, f1: bool, t1: int, v1: bool, f2: bool, t2: int, v2: bool)
    requires
        1 <= rings <= 4,
        0 <= t1 < 4,
        0 <= t2 < 4,
    ensures
        compose(sym_map(rings, f1, t1, v1), sym_map(rings, f2, t2, v2)) == sym_map(
            rings,
            f1 != f2,
            if f2 {
                (t2 - t1 + 4) % 4
            } else {
                (t1 + t2) % 4
            },
            v1 != v2,
        ),
{
    let p = sym_map(rings, f1, t1, v1);
    let q = sym_map(rings, f2, t2, v2);
    let t = if f2 {
        (t2 - t1 + 4) % 4
    } else {
        (t1 + t2) % 4
    };
    let r = sym_map(rings, f1 != f2, t, v1 != v2);
    assert forall|a: int| 0 <= a < 8 * rings implies #[trigger] compose(p, q)[a] == r[a] by {
        lemma_sym_at(rings, f1, t1, v1, a);
        let b = p[a] as int;
        lemma_sym_at(rings, f2, t2, v2, b);
        lemma_sym_at(rings, f1 != f2, t, v1 != v2, a);
        lemma_square_compose(f1, t1, f2, t2, a % 8);
        vstd::arithmetic::div_mod::lemma_fundamental_div_mod(q[b] as int, 8);
        vstd::arithmetic::div_mod::lemma_fundamental_div_mod(r[a] as int, 8);
    }
    assert(compose(p, q) =~= r);
}

/// The identity and the three generators are board symmetries.
pub proof fn lemma_generators_are_syms(rings: int)
    requires
        1 <= rings <= 4,
    ensures
        identity_map(8 * rings) == sym_map(rings, false, 0, false),
        rotation(8 * rings) == sym_map(rings, false, 1, false),
        reflection(8 * rings) == sym_map(rings, true, 0, false),
        ring_reversal(rings) == sym_map(rings, false, 0, true),
{
    assert(identity_map(8 * rings) =~= sym_map(rings, false, 0, false));
    assert(rotation(8 * rings) =~= sym_map(rings, false, 1, false));
    assert(reflection(8 * rings) =~= sym_map(rings, true, 0, false));
    assert(ring_reversal(rings) =~= sym_map(rings, false, 0, true));
}

/// A symmetry's code names it back.
pub proof fn lemma_code_of_sym(rings: int, flip: bool, turn: int, inside_out: bool)
    requires
        0 <= turn < 4,
    ensures
        0 <= code_of_sym(flip, turn, inside_out) < 16,
        sym_code(rings, code_of_sym(flip, turn, inside_out)) == sym_map(rings, flip, turn, inside_out),
{
}

/// Composing a board symmetry with a generator gives a board symmetry.
pub proof fn lemma_sym_closed(rings: int, p: Seq<u8>, g: int)
    requires
        1 <= rings <= 4,
        is_board_sym(rings, p),
        0 <= g < 3,
    ensures
        is_board_sym(rings, compose(p, generators(rings)[g])),
{
    let c = choose|c: int| 0 <= c < 16 && p == #[trigger] sym_code(rings, c);
    let (f1, t1, v1) = (c / 8 == 1, c % 4, (c / 4) % 2 == 1);
    lemma_generators_are_syms(rings);
    let (f2, t2, v2) = if g == 0 {
        (false, 1int, false)
    } else if g == 1 {
        (true, 0int, false)
    } else {
        (false, 0int, true)
    };
    assert(generators(rings)[g] == sym_map(rings, f2, t2, v2));
    lemma_sym_compose(rings, f1, t1, v1, f2, t2, v2);
    let t = if f2 {
        (t2 - t1 + 4) % 4
    } else {
        (t1 + t2) % 4
    };
    lemma_code_of_sym(rings, f1 != f2, t, v1 != v2);
    let c2 = code_of_sym(f1 != f2, t, v1 != v2);
    assert(compose(p, generators(rings)[g]) == sym_code(rings, c2));
}

/// A board symmetry maps the points of the board onto points of the board.
pub proof fn lemma_sym_point_map(rings: int, p: Seq<u8>)
    requires
        1 <= rings <= 4,
        is_board_sym(rings, p),
    ensures
        is_point_map(p, 8 * rings),
{
    let c = choose|c: int| 0 <= c < 16 && p == #[trigger] sym_code(rings, c);
    assert forall|x: int| 0 <= x < 8 * rings implies (#[trigger] p[x] as int) < 8 * rings by {
        lemma_sym_at(rings, c / 8 == 1, c % 4, (c / 4) % 2 == 1, x);
    }
}

/// Distinct board symmetries are at most sixteen.
pub proof fn lemma_syms_at_most_16(rings: int, views: Seq<Seq<u8>>)
    requires
        1 <= rings <= 4,
        all_distinct(views),
        forall|i: int| 0 <= i < views.len() ==> is_board_sym(rings, #[trigger] views[i]),
    ensures
        views.len() <= 16,
{
    let codes = Seq::new(
        views.len(),
        |i: int| choose|c: int| 0 <= c < 16 && views[i] == #[trigger] sym_code(rings, c),
    );
    assert forall|i: int| 0 <= i < views.len() implies 0 <= #[trigger] codes[i] < 16 && views[i] == sym_code(
        rings,
        codes[i],
    ) by {
        assert(is_board_sym(rings, views[i]));
    }
    let all16 = Seq::new(16, |c: int| c);
    assert forall|i: int, j: int| 0 <= i < j < codes.len() implies codes[i] != codes[j] by {
        assert(views[i] != views[j]);
    }
    assert forall|k: int| 0 <= k < codes.len() implies all16.contains(#[trigger] codes[k]) by {
        assert(all16[codes[k]] == codes[k]);
    }
    lemma_distinct_len_le(codes, all16);
}

/// The sixteen codes name sixteen different symmetries on two or more rings.
pub proof fn lemma_sym_codes_distinct(rings: int, c1: int, c2: int)
    requires
        2 <= rings <= 4,
        0 <= c1 < 16,
        0 <= c2 < 16,
        sym_code(rings, c1) == sym_code(rings, c2),
    ensures
        c1 == c2,
{
    let p = sym_code(rings, c1);
    let q = sym_code(rings, c2);
    lemma_sym_at(rings, c1 / 8 == 1, c1 % 4, (c1 / 4) % 2 == 1, 0);
    lemma_sym_at(rings, c2 / 8 == 1, c2 % 4, (c2 / 4) % 2 == 1, 0);
    lemma_sym_at(rings, c1 / 8 == 1, c1 % 4, (c1 / 4) % 2 == 1, 1);
    lemma_sym_at(rings, c2 / 8 == 1, c2 % 4, (c2 / 4) % 2 == 1, 1);
    assert(p[0] == q[0] && p[1] == q[1]);
    lemma_mod8((if c1 / 8 == 1 { 8int } else { 0int }) + 2 * (c1 % 4));
    lemma_mod8((if c2 / 8 == 1 { 8int } else { 0int }) + 2 * (c2 % 4));
    lemma_mod8((if c1 / 8 == 1 { 7int } else { 1int }) + 2 * (c1 % 4));
    lemma_mod8((if c2 / 8 == 1 { 7int } else { 1int }) + 2 * (c2 % 4));
}

/// Composing any map of `group` with any generator gives a map of `group`.
#[verifier::opaque]
pub open spec fn closed_under_generators(rings: int, group: Seq<Seq<u8>>) -> bool {
    forall|i: int, g: int|
        0 <= i < group.len() && 0 <= g < 3 ==> group.contains(#[trigger] compose(group[i], generators(rings)[g]))
}

/// A list that holds the identity and is closed under the generators holds
/// every board symmetry.
pub proof fn lemma_closed_holds_all(rings: int, group: Seq<Seq<u8>>, c: int)
    requires
        1 <= rings <= 4,
        group.contains(identity_map(8 * rings)),
        closed_under_generators(rings, group),
        0 <= c < 16,
    ensures
        group.contains(sym_code(rings, c)),
{
    lemma_generators_are_syms(rings);
    let f = c / 8 == 1;
    let t = c % 4;
    let v = (c / 4) % 2 == 1;
    // The mirror image first, when there is one.
    if f {
        lemma_next_in(rings, group, identity_map(8 * rings), 1);
        lemma_sym_compose(rings, false, 0, false, true, 0, false);
    }
    assert(group.contains(sym_map(rings, f, 0, false)));
    // Then the quarter turns.
    lemma_turns_in(rings, group, f, t);
    // Then inside out, when it is.
    if v {
        lemma_next_in(rings, group, sym_map(rings, f, t, false), 2);
        lemma_sym_compose(rings, f, t, false, false, 0, true);
    }
}

/// `k` quarter turns after the start stay in a list closed under the generators.
proof fn lemma_turns_in(rings: int, group: Seq<Seq<u8>>, f: bool, k: int)
    requires
        1 <= rings <= 4,
        0 <= k < 4,
        group.contains(sym_map(rings, f, 0, false)),
        closed_under_generators(rings, group),
    ensures
        group.contains(sym_map(rings, f, k, false)),
    decreases k,
{
    if k > 0 {
        lemma_turns_in(rings, group, f, k - 1);
        lemma_generators_are_syms(rings);
        lemma_next_in(rings, group, sym_map(rings, f, k - 1, false), 0);
        lemma_sym_compose(rings, f, k - 1, false, false, 1, false);
    }
}

/// One generator step stays in a list closed under the generators.
proof fn lemma_next_in(rings: int, group: Seq<Seq<u8>>, x: Seq<u8>, g: int)
    requires
        group.contains(x),
        0 <= g < 3,
        closed_under_generators(rings, group),
    ensures
        group.contains(compose(x, generators(rings)[g])),
{
    let i = choose|i: int| 0 <= i < group.len() && group[i] == x;
    reveal(closed_under_generators);
    assert(group.contains(compose(group[i], generators(rings)[g])));
}

/// The bits of a permuted mask: `y` is set exactly when some point below `k`
/// set in `m` maps to `y`.
pub proof fn lemma_permute_bits(perm: Seq<u8>, m: u32, k: nat, y: int)
    requires
        k <= perm.len(),
        forall|x: int| 0 <= x < perm.len() ==> (#[trigger] perm[x] as int) < 32,
        0 <= y < 32,
    ensures
        bit(permute_below(perm, m, k), y) <==> exists|x: int| 0 <= x < k && bit(m, x) && #[trigger] perm[x] == y,
    decreases k,
{
    if k == 0 {
        lemma_bit_zero(y);
    } else {
        lemma_permute_bits(perm, m, (k - 1) as nat, y);
        let prev = permute_below(perm, m, (k - 1) as nat);
        let x0 = k - 1;
        if bit(m, x0) {
            lemma_bit_or(prev, 1u32 << (perm[x0] as u32), y);
            lemma_bit_one(perm[x0] as int, y);
        }
        if exists|x: int| 0 <= x < k && bit(m, x) && #[trigger] perm[x] == y {
            let x = choose|x: int| 0 <= x < k && bit(m, x) && #[trigger] perm[x] == y;
            if x < k - 1 {
                assert(exists|x2: int| 0 <= x2 < k - 1 && bit(m, x2) && #[trigger] perm[x2] == y);
            }
        }
    }
}

/// Permuting by `p` and then by `q` is permuting by `p` followed by `q`.
pub proof fn lemma_permute_compose(n: int, p: Seq<u8>, q: Seq<u8>, m: u32)
    requires
        n <= 32,
        is_point_map(p, n),
        is_point_map(q, n),
    ensures
        permute_spec(compose(p, q), m) == permute_spec(q, permute_spec(p, m)),
{
    let pq = compose(p, q);
    let pm = permute_spec(p, m);
    assert forall|y: int| 0 <= y < 32 implies #[trigger] bit(permute_spec(pq, m), y) == bit(permute_spec(q, pm), y) by {
        lemma_permute_bits(pq, m, n as nat, y);
        lemma_permute_bits(q, pm, n as nat, y);
        if exists|x: int| 0 <= x < n && bit(m, x) && #[trigger] pq[x] == y {
            let x = choose|x: int| 0 <= x < n && bit(m, x) && #[trigger] pq[x] == y;
            let z = p[x] as int;
            lemma_permute_bits(p, m, n as nat, z);
            assert(bit(pm, z));
            assert(q[z] == y);
        }
        if exists|z: int| 0 <= z < n && bit(pm, z) && #[trigger] q[z] == y {
            let z = choose|z: int| 0 <= z < n && bit(pm, z) && #[trigger] q[z] == y;
            lemma_permute_bits(p, m, n as nat, z);
            let x = choose|x: int| 0 <= x < n && bit(m, x) && #[trigger] p[x] == z;
            assert(pq[x] == y);
        }
    }
    lemma_bits_ext(permute_spec(pq, m), permute_spec(q, pm));
}

/// The identity leaves a mask of board points as it is.
pub proof fn lemma_permute_identity(n: int, m: u32)
    requires
        0 <= n <= 32,
        within32(m, n),
    ensures
        permute_spec(identity_map(n), m) == m,
{
    let id = identity_map(n);
    assert forall|y: int| 0 <= y < 32 implies #[trigger] bit(permute_spec(id, m), y) == bit(m, y) by {
        lemma_permute_bits(id, m, n as nat, y);
        if bit(m, y) && y < n {
            assert(id[y] == y);
        }
    }
    lemma_bits_ext(permute_spec(id, m), m);
}

/// The product of two board symmetries is a board symmetry.
proof fn lemma_sym_product(rings: int, a: int, b: int) -> (c: int)
    requires
        1 <= rings <= 4,
        0 <= a < 16,
        0 <= b < 16,
    ensures
        0 <= c < 16,
        compose(sym_code(rings, a), sym_code(rings, b)) == sym_code(rings, c),
{
    let (f1, t1, v1) = (a / 8 == 1, a % 4, (a / 4) % 2 == 1);
    let (f2, t2, v2) = (b / 8 == 1, b % 4, (b / 4) % 2 == 1);
    lemma_sym_compose(rings, f1, t1, v1, f2, t2, v2);
    let t = if f2 {
        (t2 - t1 + 4) % 4
    } else {
        (t1 + t2) % 4
    };
    lemma_code_of_sym(rings, f1 != f2, t, v1 != v2);
    code_of_sym(f1 != f2, t, v1 != v2)
}

/// `x % 4` for a small `x`.
pub proof fn lemma_mod4(x: int)
    requires
        0 <= x < 12,
    ensures
        x % 4 == if x >= 8 {
            x - 8
        } else if x >= 4 {
            x - 4
        } else {
            x
        },
{
    let (q, r) = if x >= 8 {
        (2int, x - 8)
    } else if x >= 4 {
        (1int, x - 4)
    } else {
        (0int, x)
    };
    vstd::arithmetic::div_mod::lemma_fundamental_div_mod_converse(x, 4, q, r);
}

/// Any board symmetry is any other followed by a third one.
#[verifier::spinoff_prover]
proof fn lemma_sym_solve(rings: int, a: int, b: int) -> (h: int)
    requires
        1 <= rings <= 4,
        0 <= a < 16,
        0 <= b < 16,
    ensures
        0 <= h < 16,
        compose(sym_code(rings, a), sym_code(rings, h)) == sym_code(rings, b),
{
    let (f1, t1, v1) = (a / 8 == 1, a % 4, (a / 4) % 2 == 1);
    let (f, t, v) = (b / 8 == 1, b % 4, (b / 4) % 2 == 1);
    let f2 = f1 != f;
    let v2 = v1 != v;
    lemma_mod4(t + t1);
    lemma_mod4(t - t1 + 4);
    let t2 = if f2 {
        (t + t1) % 4
    } else {
        (t - t1 + 4) % 4
    };
    lemma_mod4(t2 - t1 + 4);
    lemma_mod4(t1 + t2);
    lemma_sym_compose(rings, f1, t1, v1, f2, t2, v2);
    lemma_code_of_sym(rings, f2, t2, v2);
    let h = code_of_sym(f2, t2, v2);
    assert((if f2 {
        (t2 - t1 + 4) % 4
    } else {
        (t1 + t2) % 4
    }) == t);
    assert((f1 != f2) == f && (v1 != v2) == v);
    assert(sym_map(rings, f, t, v) == sym_code(rings, b));
    h
}

/// Moving the men of `s` by `p` and then by `q` moves them by `p` followed by `q`.
proof fn lemma_image_compose(n: int, p: Seq<u8>, q: Seq<u8>, s: State)
    requires
        n <= 32,
        is_point_map(p, n),
        is_point_map(q, n),
    ensures
        image(q, image(p, s)) == image(compose(p, q), s),
{
    lemma_permute_compose(n, p, q, s.white);
    lemma_permute_compose(n, p, q, s.black);
}

/// The index of a board symmetry within the symmetry group.
proof fn lemma_sym_index(rings: int, syms: Seq<Seq<u8>>, c: int) -> (j: int)
    requires
        sym_group(rings, syms),
        0 <= c < 16,
    ensures
        0 <= j < syms.len(),
        syms[j] == sym_code(rings, c),
{
    assert(syms.contains(sym_code(rings, c)));
    choose|j: int| 0 <= j < syms.len() && syms[j] == sym_code(rings, c)
}

/// The code of a map of the symmetry group.
proof fn lemma_code_in(rings: int, syms: Seq<Seq<u8>>, j: int) -> (c: int)
    requires
        1 <= rings <= 4,
        sym_group(rings, syms),
        0 <= j < syms.len(),
    ensures
        0 <= c < 16,
        syms[j] == sym_code(rings, c),
        is_point_map(syms[j], 8 * rings),
{
    assert(is_board_sym(rings, syms[j]));
    lemma_sym_point_map(rings, syms[j]);
    choose|c: int| 0 <= c < 16 && syms[j] == #[trigger] sym_code(rings, c)
}

/// An image of an image of `s` is an image of `s`.
proof fn lemma_orbit_forward(rings: int, syms: Seq<Seq<u8>>, s: State, k: int, j: int) -> (j2: int)
    requires
        1 <= rings <= 4,
        sym_group(rings, syms),
        0 <= k < syms.len(),
        0 <= j < syms.len(),
    ensures
        0 <= j2 < syms.len(),
        image(syms[j], image(syms[k], s)) == image(syms[j2], s),
{
    let ck = lemma_code_in(rings, syms, k);
    let cj = lemma_code_in(rings, syms, j);
    lemma_image_compose(8 * rings, syms[k], syms[j], s);
    let c = lemma_sym_product(rings, ck, cj);
    lemma_sym_index(rings, syms, c)
}

/// An image of `s` is an image of any image of `s`.
proof fn lemma_orbit_back(rings: int, syms: Seq<Seq<u8>>, s: State, k: int, j: int) -> (j2: int)
    requires
        1 <= rings <= 4,
        sym_group(rings, syms),
        0 <= k < syms.len(),
        0 <= j < syms.len(),
    ensures
        0 <= j2 < syms.len(),
        image(syms[j], s) == image(syms[j2], image(syms[k], s)),
{
    let ck = lemma_code_in(rings, syms, k);
    let cj = lemma_code_in(rings, syms, j);
    let ch = lemma_sym_solve(rings, ck, cj);
    let j2 = lemma_sym_index(rings, syms, ch);
    lemma_code_in(rings, syms, j2);
    lemma_image_compose(8 * rings, syms[k], syms[j2], s);
    j2
}

/// The identity leaves a position of the board as it is.
proof fn lemma_image_identity(rings: int, syms: Seq<Seq<u8>>, s: State)
    requires
        1 <= rings <= 4,
        sym_group(rings, syms),
        within32(s.white, 8 * rings),
        within32(s.black, 8 * rings),
    ensures
        image(syms[0], s) == s,
{
    lemma_permute_identity(8 * rings, s.white);
    lemma_permute_identity(8 * rings, s.black);
}

/// Two orderings that each stay below the other are the same pair.
proof fn lemma_lex_antisym(w1: u32, b1: u32, w2: u32, b2: u32)
    requires
        !lex_less(w1, b1, w2, b2),
        !lex_less(w2, b2, w1, b1),
    ensures
        w1 == w2 && b1 == b2,
{
}

/// Canonical forms name orbits: a position and any of its images under the
/// board's symmetry group have the same canonical form.
pub proof fn lemma_canon_orbit(rings: int, syms: Seq<Seq<u8>>, s: State, k: int, r1: State, r2: State)
    requires
        2 <= rings <= 4,
        sym_group(rings, syms),
        within32(s.white, 8 * rings),
        within32(s.black, 8 * rings),
        0 <= k < syms.len(),
        is_canonical(syms, s, r1),
        is_canonical(syms, image(syms[k], s), r2),
    ensures
        r1 == r2,
{
    let t = image(syms[k], s);
    // r2 is s moved by some map of the group ...
    let j2 = if r2 == t {
        k
    } else {
        let j = choose|j: int| 0 <= j < syms.len() && r2 == image(#[trigger] syms[j], t);
        lemma_orbit_forward(rings, syms, s, k, j)
    };
    assert(r2 == image(syms[j2], s));
    assert(!lex_less(image(syms[j2], s).white, image(syms[j2], s).black, r1.white, r1.black));
    // ... and r1 is t moved by some map of the group.
    let j = if r1 == s {
        lemma_image_identity(rings, syms, s);
        0
    } else {
        choose|j: int| 0 <= j < syms.len() && r1 == image(#[trigger] syms[j], s)
    };
    assert(r1 == image(syms[j], s));
    let j3 = lemma_orbit_back(rings, syms, s, k, j);
    assert(r1 == image(syms[j3], t));
    assert(!lex_less(image(syms[j3], t).white, image(syms[j3], t).black, r2.white, r2.black));
    lemma_lex_antisym(r1.white, r1.black, r2.white, r2.black);
}

/// Canonicalising is idempotent: the canonical form of a canonical form is
/// itself.
pub proof fn lemma_canon_idempotent(rings: int, syms: Seq<Seq<u8>>, s: State, r1: State, r2: State)
    requires
        2 <= rings <= 4,
        sym_group(rings, syms),
        within32(s.white, 8 * rings),
        within32(s.black, 8 * rings),
        is_canonical(syms, s, r1),
        is_canonical(syms, r1, r2),
    ensures
        r2 == r1,
{
    if r1 == s {
        lemma_image_identity(rings, syms, s);
        lemma_canon_orbit(rings, syms, s, 0, r1, r2);
    } else {
        let k = choose|k: int| 0 <= k < syms.len() && r1 == image(#[trigger] syms[k], s);
        lemma_canon_orbit(rings, syms, s, k, r1, r2);
    }
}

} // verus!
