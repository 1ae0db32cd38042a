//! A morris family solver parameterised by board size, so one implementation
//! covers six men's morris (two-ring, 16 points) and nine men's morris
//! (three-ring, 24 points). The rules are those of
//! [`super::morris_rules`], the same as [`super::morris`]; this module adds two
//! things that engine had no need for at 42M states but does at ~10^10:
//!
//! 1. a **dense combinatorial index** (via [`crate::index`]) so positions address
//!    a flat array instead of a hash map, and
//! 2. the board's **symmetry group** (D4 × ring-reversal = 16 maps) and a
//!    canonicaliser, so equivalent positions can be folded.
//!
//! The board is built ring-by-ring; [`is_automorphism`] checks that a point map
//! preserves adjacency and the set of mills.

use vstd::prelude::*;
use crate::{Game, Outcome};
use crate::index::{
    ascending_below, bit, c_spec, compressed_below, disjoint32, expand_below, mask_of, mask_to_points,
    points_below, popcount, popcount_below, rank_black_in_empties, rank_spec, rank_subset, unrank_black_in_empties,
    unrank_subset, unranked, within32, Binom,
};
use crate::games::morris_rules::{
    adj_within, lemma_legal_moves_valid, legal_moves, morris_result, morris_successors, morris_terminal,
    valid_state,
};
use crate::games::symmetry::{
    closed_under_generators, is_board_sym, lemma_closed_holds_all, lemma_code_of_sym, lemma_generators_are_syms,
    lemma_sym_closed, lemma_sym_codes_distinct, lemma_sym_point_map, lemma_syms_at_most_16, sym_code, sym_group,
};
use crate::games::index_fit::{
    buckets_below, code_count, code_size, index_fits, lemma_below_mono, lemma_index_fits, span_below, three_to,
};
use crate::reachable::{next_fn, reachable, reachable_within, result_fn, state_value, RulesGame, StateKey};
use crate::retrograde::lemma_graph_map_value;

verus! {

pub const WHITE: u8 = 1;

pub const BLACK: u8 = 2;

/// The neighbours of point `a` on a `rings`-ring board, as a mask: the two
/// points beside it on its ring (a corner/mid 8-cycle), and, for a
/// side-midpoint, the same midpoint on the rings inside and outside it.
pub open spec fn ring_adj(rings: int, a: int) -> u32 {
    let r = a / 8;
    let i = a % 8;
    let along = (1u32 << ((r * 8 + (i + 1) % 8) as u32)) | (1u32 << ((r * 8 + (i + 7) % 8) as u32));
    let inward = if i % 2 == 1 && r > 0 {
        1u32 << ((a - 8) as u32)
    } else {
        0u32
    };
    let outward = if i % 2 == 1 && r + 1 < rings {
        1u32 << ((a + 8) as u32)
    } else {
        0u32
    };
    along | inward | outward
}

/// Side `s` (0..4) of the ring starting at point `base`: corner, mid, corner.
pub open spec fn side_mill(base: int, s: int) -> u32 {
    (1u32 << ((base + 2 * s) as u32)) | (1u32 << ((base + 2 * s + 1) as u32)) | (1u32 << ((base + (2 * s
        + 2) % 8) as u32))
}

/// The spoke through midpoint `m` from ring `r` out across the next two rings.
pub open spec fn spoke_mill(r: int, m: int) -> u32 {
    (1u32 << ((r * 8 + m) as u32)) | (1u32 << (((r + 1) * 8 + m) as u32)) | (1u32 << (((r + 2) * 8
        + m) as u32))
}

/// The mills of a `rings`-ring board: the four sides of each ring, ring by
/// ring, then the spokes that span three rings.
pub open spec fn ring_mills(rings: int) -> Seq<u32> {
    Seq::new((4 * rings) as nat, |j: int| side_mill(8 * (j / 4), j % 4)) + Seq::new(
        (if rings >= 2 {
            4 * (rings - 2)
        } else {
            0
        }) as nat,
        |j: int| spoke_mill(j / 4, 2 * (j % 4) + 1),
    )
}

/// Apply a point map to the points of `mask` below `k`.
pub open spec fn permute_below(perm: Seq<u8>, mask: u32, k: nat) -> u32
    decreases k,
{
    if k == 0 {
        0
    } else {
        let prev = permute_below(perm, mask, (k - 1) as nat);
        if bit(mask, k - 1) {
            prev | (1u32 << (perm[k - 1] as u32))
        } else {
            prev
        }
    }
}

/// The image of `mask` under the point map `perm`.
pub open spec fn permute_spec(perm: Seq<u8>, mask: u32) -> u32 {
    permute_below(perm, mask, perm.len())
}

/// `perm` maps at most 32 points to points below 32.
pub open spec fn maps_into32(perm: Seq<u8>) -> bool {
    perm.len() <= 32 && forall|x: int| 0 <= x < perm.len() ==> (#[trigger] perm[x]) < 32
}

/// `perm` maps the points `0..n` into `0..n`.
pub open spec fn is_point_map(perm: Seq<u8>, n: int) -> bool {
    perm.len() == n && forall|x: int| 0 <= x < n ==> (#[trigger] perm[x] as int) < n
}

/// `perm` preserves adjacency and maps every mill onto a mill.
pub open spec fn automorphism(perm: Seq<u8>, adj: Seq<u32>, mills: Seq<u32>) -> bool {
    &&& forall|a: int|
        0 <= a < perm.len() ==> permute_spec(perm, #[trigger] adj[a]) == adj[perm[a] as int]
    &&& forall|i: int| 0 <= i < mills.len() ==> #[trigger] maps_to_mill(perm, mills, i)
}

/// The image of mill `i` under `perm` is a mill.
pub open spec fn maps_to_mill(perm: Seq<u8>, mills: Seq<u32>, i: int) -> bool {
    exists|j: int| 0 <= j < mills.len() && #[trigger] mills[j] == permute_spec(perm, mills[i])
}

/// Point map `p` followed by `g`.
pub open spec fn compose(p: Seq<u8>, g: Seq<u8>) -> Seq<u8> {
    Seq::new(p.len(), |x: int| g[p[x] as int])
}

pub open spec fn identity_map(n: int) -> Seq<u8> {
    Seq::new(n as nat, |x: int| x as u8)
}

/// A quarter turn: within each ring `i -> (i + 2) mod 8`.
pub open spec fn rotation(n: int) -> Seq<u8> {
    Seq::new(n as nat, |a: int| (8 * (a / 8) + (a % 8 + 2) % 8) as u8)
}

/// A reflection: within each ring `i -> (8 - i) mod 8`.
pub open spec fn reflection(n: int) -> Seq<u8> {
    Seq::new(n as nat, |a: int| (8 * (a / 8) + (8 - a % 8) % 8) as u8)
}

/// Ring reversal (inside-out): ring `r -> rings - 1 - r`, same in-ring position.
pub open spec fn ring_reversal(rings: int) -> Seq<u8> {
    Seq::new((8 * rings) as nat, |a: int| ((rings - 1 - a / 8) * 8 + a % 8) as u8)
}

/// The three generators of the board's symmetry group.
pub open spec fn generators(rings: int) -> Seq<Seq<u8>> {
    seq![rotation(8 * rings), reflection(8 * rings), ring_reversal(rings)]
}

/// The entries of `s` are pairwise distinct.
pub open spec fn all_distinct<A>(s: Seq<A>) -> bool {
    forall|i: int, j: int| 0 <= i < j < s.len() ==> s[i] != s[j]
}

/// A morris board: point adjacency, the set of mills, and the symmetry group.
pub struct Board {
    pub n: usize,  // number of points
    pub men: u8,  // men per side
    pub adj: Vec<u32>,  // adjacency bitmask per point
    pub mills: Vec<u32>,  // each mill as a 3-bit mask
    pub sym: Vec<Vec<u8>>,  // symmetry group: point permutations (length n each)
    pub flying: bool,  // a side reduced to 3 men may move to any empty point
}

impl Board {
    /// What a `rings`-ring board built with `men` men per side holds: its
    /// tables, and its sixteen symmetries, the identity first.
    pub open spec fn ring_board(self, rings: int, men: u8) -> bool {
        &&& self.n == 8 * rings
        &&& self.men == men
        &&& !self.flying
        &&& self.adj@ == Seq::new(self.n as nat, |a: int| ring_adj(rings, a))
        &&& self.mills@ == ring_mills(rings)
        &&& sym_group(rings, self.sym_views())
    }

    /// The symmetry list as sequences.
    pub open spec fn sym_views(self) -> Seq<Seq<u8>> {
        self.sym@.map_values(|p: Vec<u8>| p@)
    }

    /// Build a `rings`-ring morris board (2 = six men's, 3 = nine men's).
    pub fn rings(rings: usize, men: u8) -> (b: Board)
        requires
            2 <= rings <= 4,
        ensures
            b.ring_board(rings as int, men),
            rings <= 3 ==> board_fits(b),
            forall|k: int| 0 <= k < b.sym@.len() ==> automorphism(#[trigger] b.sym@[k]@, b.adj@, b.mills@),
            forall|k: int| 0 <= k < b.sym@.len() ==> maps_into32(#[trigger] b.sym@[k]@),
    {
        let n = 8 * rings;
        // Each point's neighbours: along its ring (a corner/mid 8-cycle), and
        // along the spokes between consecutive rings at the side-midpoints.
        let mut adj: Vec<u32> = Vec::new();
        let mut a: usize = 0;
        while a < n
            invariant
                n == 8 * rings,
                rings <= 4,
                a <= n,
                adj@ == Seq::new(a as nat, |x: int| ring_adj(rings as int, x)),
            decreases n - a,
        {
            let r = a / 8;
            let i = a % 8;
            let mut m: u32 = (1u32 << ((r * 8 + (i + 1) % 8) as u32)) | (1u32 << ((r * 8 + (i + 7) % 8) as u32));
            if i % 2 == 1 && r > 0 {
                m = m | (1u32 << ((a - 8) as u32));
            } else {
                m = m | 0;
            }
            if i % 2 == 1 && r + 1 < rings {
                m = m | (1u32 << ((a + 8) as u32));
            } else {
                m = m | 0;
            }
            adj.push(m);
            proof {
                assert(adj@ =~= Seq::new(a as nat + 1, |x: int| ring_adj(rings as int, x)));
            }
            a += 1;
        }

        // Mills: the four sides of each ring, plus spokes spanning three rings.
        let mut mills: Vec<u32> = Vec::new();
        let mut j: usize = 0;
        while j < 4 * rings
            invariant
                rings <= 4,
                j <= 4 * rings,
                mills@ == Seq::new(j as nat, |x: int| side_mill(8 * (x / 4), x % 4)),
            decreases 4 * rings - j,
        {
            let base = 8 * (j / 4);
            let s = j % 4;
            mills.push(
                (1u32 << ((base + 2 * s) as u32)) | (1u32 << ((base + 2 * s + 1) as u32)) | (1u32 << ((
                base + (2 * s + 2) % 8) as u32)),
            );
            proof {
                assert(mills@ =~= Seq::new(j as nat + 1, |x: int| side_mill(8 * (x / 4), x % 4)));
            }
            j += 1;
        }
        let ghost sides = mills@;
        let mut k: usize = 0;
        while k < 4 * (rings - 2)
            invariant
                2 <= rings <= 4,
                k <= 4 * (rings - 2),
                sides == Seq::new((4 * rings) as nat, |x: int| side_mill(8 * (x / 4), x % 4)),
                mills@ == sides + Seq::new(k as nat, |x: int| spoke_mill(x / 4, 2 * (x % 4) + 1)),
            decreases 4 * (rings - 2) - k,
        {
            let r = k / 4;
            let m = 2 * (k % 4) + 1;
            mills.push(
                (1u32 << ((r * 8 + m) as u32)) | (1u32 << (((r + 1) * 8 + m) as u32)) | (1u32 << (((r + 2)
                * 8 + m) as u32)),
            );
            proof {
                assert(mills@ =~= sides + Seq::new(k as nat + 1, |x: int| spoke_mill(x / 4, 2 * (x % 4) + 1)));
            }
            k += 1;
        }
        proof {
            assert(mills@ =~= ring_mills(rings as int));
        }
        let sym = build_symmetry(rings, n);
        let b = Board { n, men, adj, mills, sym, flying: false };
        proof {
            if rings <= 3 {
                lemma_ring_board_fits(b, rings as int, men);
            }
            crate::games::automorphism::lemma_ring_board_automorphisms(b, rings as int, men);
            let v = b.sym_views();
            assert forall|k: int| 0 <= k < b.sym@.len() implies maps_into32(#[trigger] b.sym@[k]@) by {
                assert(v[k] == b.sym@[k]@);
                lemma_sym_point_map(rings as int, v[k]);
            }
        }
        b
    }

    pub fn six_mens() -> (b: Board)
        ensures
            b.ring_board(2, 6),
    {
        Board::rings(2, 6)
    }

    pub fn nine_mens() -> (b: Board)
        ensures
            b.ring_board(3, 9),
    {
        Board::rings(3, 9)
    }

    /// Enable the flying rule: a side reduced to exactly three men may move a man
    /// to any empty point instead of only an adjacent one.
    pub fn with_flying(self) -> (b: Board)
        ensures
            b == (Board { flying: true, ..self }),
    {
        let mut b = self;
        b.flying = true;
        b
    }
}

fn make_map(rings: usize, which: u8) -> (r: Vec<u8>)
    requires
        1 <= rings <= 4,
        which < 3,
    ensures
        r@ == generators(rings as int)[which as int],
        is_point_map(r@, 8 * rings),
{
    let n = 8 * rings;
    let mut p: Vec<u8> = Vec::new();
    let mut a: usize = 0;
    while a < n
        invariant
            n == 8 * rings,
            1 <= rings <= 4,
            which < 3,
            a <= n,
            p@ == generators(rings as int)[which as int].subrange(0, a as int),
            forall|x: int| 0 <= x < a ==> (#[trigger] p@[x] as int) < n,
        decreases n - a,
    {
        let r = a / 8;
        let i = a % 8;
        let v: u8 = if which == 0 {
            (r * 8 + (i + 2) % 8) as u8
        } else if which == 1 {
            (r * 8 + (8 - i) % 8) as u8
        } else {
            ((rings - 1 - r) * 8 + i) as u8
        };
        p.push(v);
        proof {
            assert(p@ =~= generators(rings as int)[which as int].subrange(0, a as int + 1));
        }
        a += 1;
    }
    proof {
        assert(p@ =~= generators(rings as int)[which as int]);
    }
    p
}

/// Point map `p` followed by `g`.
fn compose_maps(p: &Vec<u8>, g: &Vec<u8>) -> (r: Vec<u8>)
    requires
        forall|x: int| 0 <= x < p@.len() ==> (#[trigger] p@[x] as int) < g@.len(),
    ensures
        r@ == compose(p@, g@),
{
    let mut r: Vec<u8> = Vec::new();
    let mut x: usize = 0;
    while x < p.len()
        invariant
            x <= p@.len(),
            forall|y: int| 0 <= y < p@.len() ==> (#[trigger] p@[y] as int) < g@.len(),
            r@ == compose(p@, g@).subrange(0, x as int),
        decreases p@.len() - x,
    {
        r.push(g[p[x] as usize]);
        proof {
            assert(r@ =~= compose(p@, g@).subrange(0, x as int + 1));
        }
        x += 1;
    }
    proof {
        assert(r@ =~= compose(p@, g@));
    }
    r
}

fn same_map(a: &Vec<u8>, b: &Vec<u8>) -> (r: bool)
    ensures
        r == (a@ == b@),
{
    if a.len() != b.len() {
        return false;
    }
    let mut i: usize = 0;
    while i < a.len()
        invariant
            a@.len() == b@.len(),
            i <= a@.len(),
            forall|j: int| 0 <= j < i ==> a@[j] == b@[j],
        decreases a@.len() - i,
    {
        if a[i] != b[i] {
            return false;
        }
        i += 1;
    }
    proof {
        assert(a@ =~= b@);
    }
    true
}

fn contains_map(group: &Vec<Vec<u8>>, q: &Vec<u8>) -> (r: bool)
    ensures
        r == group@.map_values(|p: Vec<u8>| p@).contains(q@),
{
    let ghost views = group@.map_values(|p: Vec<u8>| p@);
    let mut i: usize = 0;
    while i < group.len()
        invariant
            i <= group@.len(),
            views == group@.map_values(|p: Vec<u8>| p@),
            forall|j: int| 0 <= j < i ==> views[j] != q@,
        decreases group@.len() - i,
    {
        if same_map(&group[i], q) {
            assert(views[i as int] == q@);
            return true;
        }
        i += 1;
    }
    false
}

/// Generate the board symmetry group as the closure of three generators:
/// quarter-turn rotation, reflection, and ring reversal (inside-out).
fn build_symmetry(rings: usize, n: usize) -> (group: Vec<Vec<u8>>)
    requires
        2 <= rings <= 4,
        n == 8 * rings,
    ensures
        sym_group(rings as int, group@.map_values(|p: Vec<u8>| p@)),
{
    let mut identity: Vec<u8> = Vec::new();
    let mut x: usize = 0;
    while x < n
        invariant
            n == 8 * rings <= 32,
            x <= n,
            identity@ == identity_map(n as int).subrange(0, x as int),
        decreases n - x,
    {
        identity.push(x as u8);
        proof {
            assert(identity@ =~= identity_map(n as int).subrange(0, x as int + 1));
        }
        x += 1;
    }
    proof {
        assert(identity@ =~= identity_map(n as int));
    }
    let gen_maps = [make_map(rings, 0), make_map(rings, 1), make_map(rings, 2)];
    let ghost gens = generators(rings as int);
    // Closure under composition (perm a then b => (b∘a)[x] = b[a[x]]).
    let mut group: Vec<Vec<u8>> = Vec::new();
    group.push(identity.clone());
    let mut frontier: Vec<Vec<u8>> = Vec::new();
    frontier.push(identity);
    proof {
        assert(frontier@.map_values(|p: Vec<u8>| p@)[0] == group@[0]@);
        lemma_generators_are_syms(rings as int);
        lemma_code_of_sym(rings as int, false, 0, false);
        assert(is_board_sym(rings as int, group@[0]@));
        assert(is_board_sym(rings as int, frontier@[0]@));
    }
    // Every map in the group is either done (all three compositions are in the
    // group) or waiting in the frontier.
    while frontier.len() > 0 && group.len() <= 16
        invariant
            n == 8 * rings,
            2 <= rings <= 4,
            gen_maps@.len() == 3,
            forall|g: int| 0 <= g < 3 ==> (#[trigger] gen_maps@[g])@ == gens[g],
            forall|g: int| 0 <= g < 3 ==> is_point_map(#[trigger] gens[g], n as int),
            gens == generators(rings as int),
            1 <= group@.len() <= 16,
            forall|i: int| 0 <= i < group@.len() ==> is_board_sym(rings as int, #[trigger] group@[i]@),
            forall|i: int| 0 <= i < frontier@.len() ==> is_board_sym(rings as int, #[trigger] frontier@[i]@),
            group@[0]@ == identity_map(n as int),
            all_distinct(group@.map_values(|p: Vec<u8>| p@)),
            forall|i: int| 0 <= i < group@.len() ==> is_point_map(#[trigger] group@[i]@, n as int),
            forall|i: int| 0 <= i < frontier@.len() ==> is_point_map(#[trigger] frontier@[i]@, n as int),
            forall|i: int, g: int|
                0 <= i < group@.len() && 0 <= g < 3 ==> group@.map_values(|p: Vec<u8>| p@).contains(
                    compose(#[trigger] group@[i]@, #[trigger] gens[g]),
                ) || frontier@.map_values(|p: Vec<u8>| p@).contains(group@[i]@),
        decreases 20 - group@.len(), frontier@.len(),
    {
        let ghost gv0 = group@.map_values(|v: Vec<u8>| v@);
        let ghost fv0 = frontier@.map_values(|v: Vec<u8>| v@);
        proof {
            assert(is_board_sym(rings as int, frontier@[frontier@.len() - 1]@));
        }
        let p = frontier.pop().unwrap();
        let ghost fv1 = frontier@.map_values(|v: Vec<u8>| v@);
        proof {
            assert(fv0 =~= fv1.push(p@));
        }
        let ghost len0 = group@.len();
        let mut g: usize = 0;
        while g < 3
            invariant
                n == 8 * rings,
                2 <= rings <= 4,
                gen_maps@.len() == 3,
                forall|h: int| 0 <= h < 3 ==> (#[trigger] gen_maps@[h])@ == gens[h],
                forall|h: int| 0 <= h < 3 ==> is_point_map(#[trigger] gens[h], n as int),
                gens == generators(rings as int),
                is_point_map(p@, n as int),
                g <= 3,
                len0 == gv0.len(),
                len0 <= 16,
                len0 <= group@.len() <= len0 + g,
                group@.len() >= 1,
                group@.len() <= 16,
                is_board_sym(rings as int, p@),
                forall|i: int| 0 <= i < group@.len() ==> is_board_sym(rings as int, #[trigger] group@[i]@),
                forall|i: int| 0 <= i < frontier@.len() ==> is_board_sym(rings as int, #[trigger] frontier@[i]@),
                group@[0]@ == identity_map(n as int),
                all_distinct(group@.map_values(|q: Vec<u8>| q@)),
                forall|k: int| 0 <= k < len0 ==> (#[trigger] group@[k])@ == gv0[k],
                frontier@.len() == fv1.len() + (group@.len() - len0),
                forall|k: int| 0 <= k < fv1.len() ==> (#[trigger] frontier@[k])@ == fv1[k],
                forall|k: int|
                    len0 <= k < group@.len() ==> frontier@.map_values(|v: Vec<u8>| v@).contains(
                        (#[trigger] group@[k])@,
                    ),
                forall|i: int| 0 <= i < group@.len() ==> is_point_map(#[trigger] group@[i]@, n as int),
                forall|i: int| 0 <= i < frontier@.len() ==> is_point_map(#[trigger] frontier@[i]@, n as int),
                forall|h: int|
                    0 <= h < g ==> group@.map_values(|q: Vec<u8>| q@).contains(compose(p@, #[trigger] gens[h])),
            decreases 3 - g,
        {
            let q = compose_maps(&p, &gen_maps[g]);
            proof {
                lemma_sym_closed(rings as int, p@, g as int);
            }
            if !contains_map(&group, &q) {
                let ghost old_views = group@.map_values(|v: Vec<u8>| v@);
                let ghost old_fviews = frontier@.map_values(|v: Vec<u8>| v@);
                group.push(q.clone());
                frontier.push(q);
                proof {
                    let views = group@.map_values(|v: Vec<u8>| v@);
                    let fviews = frontier@.map_values(|v: Vec<u8>| v@);
                    assert(views =~= old_views.push(compose(p@, gens[g as int])));
                    assert(fviews =~= old_fviews.push(compose(p@, gens[g as int])));
                    assert forall|i: int| 0 <= i < views.len() implies is_board_sym(rings as int, #[trigger] views[i]) by {
                        assert(views[i] == group@[i]@);
                    }
                    lemma_syms_at_most_16(rings as int, views);
                    assert forall|h: int| 0 <= h <= g implies views.contains(compose(p@, #[trigger] gens[h])) by {
                        if h < g {
                            let w = choose|w: int| 0 <= w < old_views.len() && old_views[w] == compose(p@, gens[h]);
                            assert(views[w] == compose(p@, gens[h]));
                        } else {
                            assert(views[views.len() - 1] == compose(p@, gens[h]));
                        }
                    }
                    assert forall|k: int| len0 <= k < group@.len() implies fviews.contains(
                        (#[trigger] group@[k])@,
                    ) by {
                        if k < group@.len() - 1 {
                            assert(old_fviews.contains(group@[k]@));
                            let w = choose|w: int| 0 <= w < old_fviews.len() && old_fviews[w] == group@[k]@;
                            assert(fviews[w] == group@[k]@);
                        } else {
                            assert(fviews[fviews.len() - 1] == group@[k]@);
                        }
                    }
                }
            }
            g += 1;
        }
        proof {
            let views = group@.map_values(|v: Vec<u8>| v@);
            let fviews = frontier@.map_values(|v: Vec<u8>| v@);
            assert forall|i: int, h: int|
                0 <= i < group@.len() && 0 <= h < 3 implies views.contains(
                compose(#[trigger] group@[i]@, #[trigger] gens[h]),
            ) || fviews.contains(group@[i]@) by {
                if i < len0 {
                    assert(group@[i]@ == gv0[i]);
                    if gv0.contains(compose(gv0[i], gens[h])) {
                        let w = choose|w: int| 0 <= w < gv0.len() && gv0[w] == compose(gv0[i], gens[h]);
                        assert(views[w] == group@[w]@);
                        assert(views[w] == compose(group@[i]@, gens[h]));
                    } else {
                        assert(fv0.contains(gv0[i]));
                        let w = choose|w: int| 0 <= w < fv0.len() && fv0[w] == gv0[i];
                        if w == fv0.len() - 1 {
                            assert(group@[i]@ == p@);
                        } else {
                            assert(fviews[w] == fv1[w]);
                        }
                    }
                }
            }
        }
    }
    proof {
        let views = group@.map_values(|v: Vec<u8>| v@);
        assert(frontier@.len() == 0);
        assert(closed_under_generators(rings as int, views)) by {
            reveal(closed_under_generators);
            assert forall|i: int, h: int| 0 <= i < views.len() && 0 <= h < 3 implies views.contains(
                #[trigger] compose(views[i], generators(rings as int)[h]),
            ) by {
                assert(views[i] == group@[i]@);
                assert(views.contains(compose(group@[i]@, gens[h])) || frontier@.map_values(
                    |p: Vec<u8>| p@,
                ).contains(group@[i]@));
            }
        }
        assert(views[0] == identity_map(8 * rings as int));
        assert(views.contains(identity_map(8 * rings as int)));
        assert forall|c: int| 0 <= c < 16 implies views.contains(#[trigger] sym_code(rings as int, c)) by {
            lemma_closed_holds_all(rings as int, views, c);
        }
        let all16 = Seq::new(16, |c: int| sym_code(rings as int, c));
        assert forall|a: int, b: int| 0 <= a < b < all16.len() implies all16[a] != all16[b] by {
            if all16[a] == all16[b] {
                lemma_sym_codes_distinct(rings as int, a, b);
            }
        }
        assert forall|k: int| 0 <= k < all16.len() implies views.contains(#[trigger] all16[k]) by {
            assert(views.contains(sym_code(rings as int, k)));
        }
        crate::reachable::lemma_distinct_len_le(all16, views);
        assert forall|i: int| 0 <= i < views.len() implies is_board_sym(rings as int, #[trigger] views[i]) by {
            assert(views[i] == group@[i]@);
        }
    }
    group
}

/// A morris position. The side to move is encoded in `turn`.
#[derive(Clone, Copy, PartialEq, Eq, Debug)]
pub struct State {
    pub white: u32,
    pub black: u32,
    pub w_hand: u8,
    pub b_hand: u8,
    pub turn: u8,
}

/// The key of a position: its five fields side by side.
pub open spec fn key_of(s: State) -> u128 {
    (s.white as u128) | ((s.black as u128) << 32u128) | ((s.w_hand as u128) << 64u128) | ((
    s.b_hand as u128) << 72u128) | ((s.turn as u128) << 80u128)
}

proof fn lemma_key_of_injective(a: State, b: State)
    requires
        key_of(a) == key_of(b),
    ensures
        a == b,
{
    let (w1, k1, x1, y1, t1) = (a.white, a.black, a.w_hand, a.b_hand, a.turn);
    let (w2, k2, x2, y2, t2) = (b.white, b.black, b.w_hand, b.b_hand, b.turn);
    assert(w1 == w2 && k1 == k2 && x1 == x2 && y1 == y2 && t1 == t2) by (bit_vector)
        requires
            (w1 as u128) | ((k1 as u128) << 32u128) | ((x1 as u128) << 64u128) | ((y1 as u128) << 72u128)
                | ((t1 as u128) << 80u128) == (w2 as u128) | ((k2 as u128) << 32u128) | ((x2 as u128)
                << 64u128) | ((y2 as u128) << 72u128) | ((t2 as u128) << 80u128),
    ;
}

impl StateKey for State {
    open spec fn key_exact(&self) -> bool {
        true
    }

    open spec fn key_spec(&self) -> u128 {
        key_of(*self)
    }

    fn same(&self, other: &Self) -> (r: bool) {
        self.white == other.white && self.black == other.black && self.w_hand == other.w_hand && self.b_hand
            == other.b_hand && self.turn == other.turn
    }

    fn key(&self) -> (r: u128) {
        (self.white as u128) | ((self.black as u128) << 32u128) | ((self.w_hand as u128) << 64u128) | ((
        self.b_hand as u128) << 72u128) | ((self.turn as u128) << 80u128)
    }

    proof fn lemma_key_injective(a: Self, b: Self) {
        lemma_key_of_injective(a, b);
    }
}

/// Apply a point permutation to a bitmask.
pub fn permute(perm: &[u8], mask: u32) -> (r: u32)
    requires
        perm@.len() <= 32,
        forall|x: int| 0 <= x < perm@.len() ==> (#[trigger] perm@[x]) < 32,
    ensures
        r == permute_spec(perm@, mask),
{
    let mut out: u32 = 0;
    let mut p: usize = 0;
    while p < perm.len()
        invariant
            p <= perm@.len() <= 32,
            forall|x: int| 0 <= x < perm@.len() ==> (#[trigger] perm@[x]) < 32,
            out == permute_below(perm@, mask, p as nat),
        decreases perm@.len() - p,
    {
        if (mask >> (p as u32)) & 1 == 1 {
            out = out | (1u32 << (perm[p] as u32));
        }
        p += 1;
    }
    out
}

/// Is `perm` a board automorphism (preserves adjacency and the mill set)?
pub fn is_automorphism(perm: &[u8], adj: &[u32], mills: &[u32]) -> (r: bool)
    requires
        perm@.len() <= adj@.len() <= 32,
        forall|x: int| 0 <= x < perm@.len() ==> (#[trigger] perm@[x] as int) < adj@.len(),
    ensures
        r == automorphism(perm@, adj@, mills@),
{
    let n = perm.len();
    let mut a: usize = 0;
    while a < n
        invariant
            n == perm@.len() <= adj@.len() <= 32,
            forall|x: int| 0 <= x < perm@.len() ==> (#[trigger] perm@[x] as int) < adj@.len(),
            a <= n,
            forall|b: int| 0 <= b < a ==> permute_spec(perm@, #[trigger] adj@[b]) == adj@[perm@[b] as int],
        decreases n - a,
    {
        // adjacency of a must map onto adjacency of perm[a]
        if permute(perm, adj[a]) != adj[perm[a] as usize] {
            return false;
        }
        a += 1;
    }
    let mut i: usize = 0;
    while i < mills.len()
        invariant
            perm@.len() <= adj@.len() <= 32,
            forall|x: int| 0 <= x < perm@.len() ==> (#[trigger] perm@[x] as int) < adj@.len(),
            i <= mills@.len(),
            forall|b: int| 0 <= b < perm@.len() ==> permute_spec(perm@, #[trigger] adj@[b]) == adj@[perm@[b] as int],
            forall|k: int| 0 <= k < i ==> #[trigger] maps_to_mill(perm@, mills@, k),
        decreases mills@.len() - i,
    {
        let img = permute(perm, mills[i]);
        let mut found = false;
        let mut j: usize = 0;
        while j < mills.len()
            invariant
                j <= mills@.len(),
                img == permute_spec(perm@, mills@[i as int]),
                found ==> exists|w: int| 0 <= w < mills@.len() && #[trigger] mills@[w] == img,
                !found ==> forall|w: int| 0 <= w < j ==> #[trigger] mills@[w] != img,
            decreases mills@.len() - j,
        {
            if mills[j] == img {
                found = true;
            }
            j += 1;
        }
        if !found {
            proof {
                assert(!maps_to_mill(perm@, mills@, i as int));
            }
            return false;
        }
        proof {
            assert(maps_to_mill(perm@, mills@, i as int));
        }
        i += 1;
    }
    true
}

/// `(w1, b1)` comes before `(w2, b2)` in lexicographic order.
pub open spec fn lex_less(w1: u32, b1: u32, w2: u32, b2: u32) -> bool {
    w1 < w2 || (w1 == w2 && b1 < b2)
}

/// The position `s` with both sides' men moved by the point map `p`.
pub open spec fn image(p: Seq<u8>, s: State) -> State {
    State { white: permute_spec(p, s.white), black: permute_spec(p, s.black), ..s }
}

/// `r` is the canonical form of `s` under the maps `syms`: `s` or one of its
/// images, and lexicographically least among `s` and all of them.
pub open spec fn is_canonical(syms: Seq<Seq<u8>>, s: State, r: State) -> bool {
    &&& (r == s || exists|k: int| 0 <= k < syms.len() && r == image(#[trigger] syms[k], s))
    &&& !lex_less(s.white, s.black, r.white, r.black)
    &&& forall|k: int|
        0 <= k < syms.len() ==> !lex_less(
            image(#[trigger] syms[k], s).white,
            image(syms[k], s).black,
            r.white,
            r.black,
        )
}

/// A position's counts: side to move (0 for White), White's men in hand,
/// White's men on the board, Black's men in hand, Black's men on the board.
pub open spec fn counts_of(s: State) -> (int, int, int, int, int) {
    (
        if s.turn == WHITE {
            0int
        } else {
            1int
        },
        s.w_hand as int,
        popcount_below(s.white, 32) as int,
        s.b_hand as int,
        popcount_below(s.black, 32) as int,
    )
}

/// A morris game over a [`Board`], with a precomputed dense index.
pub struct GenericMorris {
    pub board: Board,
    binom: Binom,
    // Dense index: positions are grouped into buckets keyed by
    // (turn, w_hand, nw, b_hand, nb); within a bucket they are ranked by the
    // combinatorial number system. Buckets are stored in ascending-offset order.
    buckets: Vec<Bucket>,
    bucket_of: Vec<u32>,  // key code -> bucket id (u32::MAX if absent)
    total: u64,
}

#[derive(Clone, Copy)]
struct Bucket {
    offset: u64,
    turn: u8,
    w_hand: u8,
    nw: u8,
    b_hand: u8,
    nb: u8,
    black_radix: u64,  // C(n - nw, nb)
}

/// The five digits `(turn, w_hand, nw, b_hand, nb)` of a bucket code in base `radix`.
pub open spec fn code_digits(code: int, radix: int) -> (int, int, int, int, int) {
    let t1 = code / radix;
    let t2 = t1 / radix;
    let t3 = t2 / radix;
    (t3 / radix, t3 % radix, t2 % radix, t1 % radix, code % radix)
}

/// The bucket code of `(turn, w_hand, nw, b_hand, nb)` in base `radix`.
pub open spec fn key_code_spec(radix: int, d: (int, int, int, int, int)) -> int {
    (((d.0 * radix + d.1) * radix + d.2) * radix + d.3) * radix + d.4
}

/// Positions with these counts exist: the men on the board and in hand fit.
pub open spec fn admissible(n: int, men: int, d: (int, int, int, int, int)) -> bool {
    d.2 <= men - d.1 && d.4 <= men - d.3 && d.2 + d.4 <= n
}

/// The number of positions in a bucket: white's placements times black's.
pub open spec fn bucket_size(n: int, nw: int, nb: int) -> int {
    (c_spec(n, nw) * c_spec(n - nw, nb)) as int
}

spec fn digits_of(b: Bucket) -> (int, int, int, int, int) {
    (b.turn as int, b.w_hand as int, b.nw as int, b.b_hand as int, b.nb as int)
}

spec fn end_of(n: int, b: Bucket) -> int {
    b.offset + bucket_size(n, b.nw as int, b.nb as int)
}

/// The board's tables fit the rules' bitmasks.
pub open spec fn board_fits(b: Board) -> bool {
    &&& b.n < 32
    &&& b.adj@.len() == b.n
    &&& adj_within(b.adj@, b.n as int)
    &&& forall|k: int| 0 <= k < b.sym@.len() ==> is_point_map(#[trigger] b.sym@[k]@, b.n as int)
}

impl GenericMorris {
    /// The board the game is played on.
    pub closed spec fn board_view(&self) -> Board {
        self.board
    }

    /// The board's tables fit the rules' bitmasks.
    pub open spec fn board_ok(&self) -> bool {
        board_fits(self.board_view())
    }

    /// Every symmetry of the board maps its points to points of a 32-bit mask.
    pub open spec fn syms_fit(&self) -> bool {
        forall|k: int| 0 <= k < self.board_view().sym@.len() ==> maps_into32(#[trigger] self.board_view().sym@[k]@)
    }

    /// The dense index is in order: every code names its bucket or none, every
    /// admissible code has one (on a board of at most 32 points), the buckets
    /// come in ascending code order (turn, then white's hand, white's men on the
    /// board, black's hand, black's men on the board) and tile `0..total` in
    /// that order.
    pub closed spec fn index_ok(&self) -> bool {
        let n = self.board.n as int;
        let men = self.board.men as int;
        let radix = men + 1;
        let bs = self.buckets@;
        let bo = self.bucket_of@;
        &&& bo.len() == 2 * radix * radix * radix * radix
        &&& bo.len() <= usize::MAX
        &&& bs.len() < u32::MAX
        &&& forall|c: int|
            0 <= c < bo.len() ==> (#[trigger] bo[c] == u32::MAX || ((bo[c] as int) < bs.len() && digits_of(
                bs[bo[c] as int],
            ) == code_digits(c, radix))) && (n <= 32 && admissible(n, men, code_digits(c, radix)) ==> bo[c] != u32::MAX)
        &&& forall|k: int|
            0 <= k < bs.len() ==> {
                let d = digits_of(#[trigger] bs[k]);
                &&& admissible(n, men, d)
                &&& 0 <= d.0 < 2 && d.1 < radix && d.2 < radix && d.3 < radix && d.4 < radix
                &&& bs[k].black_radix == c_spec(n - d.2, d.4)
                &&& bucket_size(n, d.2, d.4) > 0
            }
        &&& forall|k: int|
            0 <= k < bs.len() ==> 0 <= key_code_spec(radix, digits_of(#[trigger] bs[k])) < bo.len() && bo[key_code_spec(
                radix,
                digits_of(bs[k]),
            )] == k
        &&& forall|j: int, k: int|
            0 <= j < k < bs.len() ==> key_code_spec(radix, digits_of(#[trigger] bs[j])) < key_code_spec(
                radix,
                digits_of(#[trigger] bs[k]),
            )
        &&& bs.len() > 0 ==> bs[0].offset == 0
        &&& forall|k: int| 0 <= k < bs.len() - 1 ==> #[trigger] bs[k + 1].offset == end_of(n, bs[k])
        &&& self.total == (if bs.len() == 0 {
            0
        } else {
            end_of(n, bs[bs.len() - 1])
        })
    }

    /// The canonical representative of a position under the 16-fold board
    /// symmetry (hands and turn are symmetry-invariant). Chooses the
    /// lexicographically least `(white, black)` over the orbit.
    pub fn canon(&self, s: &State) -> (r: State)
        requires
            self.syms_fit(),
        ensures
            is_canonical(self.board_view().sym_views(), *s, r),
    {
        let mut best_w = s.white;
        let mut best_b = s.black;
        let mut k: usize = 0;
        while k < self.board.sym.len()
            invariant
                self.syms_fit(),
                k <= self.board.sym@.len(),
                (best_w, best_b) == (s.white, s.black) || exists|j: int|
                    0 <= j < k && (best_w, best_b) == (permute_spec(#[trigger] self.board.sym@[j]@, s.white), permute_spec(
                        self.board.sym@[j]@,
                        s.black,
                    )),
                !lex_less(s.white, s.black, best_w, best_b),
                forall|j: int|
                    0 <= j < k ==> !lex_less(
                        permute_spec(#[trigger] self.board.sym@[j]@, s.white),
                        permute_spec(self.board.sym@[j]@, s.black),
                        best_w,
                        best_b,
                    ),
            decreases self.board.sym@.len() - k,
        {
            let perm = &self.board.sym[k];
            proof {
                assert(maps_into32(self.board_view().sym@[k as int]@));
            }
            let w = permute(perm.as_slice(), s.white);
            let b = permute(perm.as_slice(), s.black);
            if w < best_w || (w == best_w && b < best_b) {
                best_w = w;
                best_b = b;
            }
            k += 1;
        }
        let r = State { white: best_w, black: best_b, ..*s };
        proof {
            let syms = self.board_view().sym_views();
            if (best_w, best_b) != (s.white, s.black) {
                let j = choose|j: int|
                    0 <= j < k && (best_w, best_b) == (permute_spec(#[trigger] self.board.sym@[j]@, s.white), permute_spec(
                        self.board.sym@[j]@,
                        s.black,
                    ));
                assert(syms[j] == self.board.sym@[j]@);
                assert(r == image(syms[j], *s));
            }
            assert forall|j: int| 0 <= j < syms.len() implies !lex_less(
                image(#[trigger] syms[j], *s).white,
                image(syms[j], *s).black,
                r.white,
                r.black,
            ) by {
                assert(syms[j] == self.board.sym@[j]@);
            }
        }
        r
    }
}

impl RulesGame for GenericMorris {
    type State = State;

    open spec fn rules_ok(&self) -> bool {
        self.board_ok()
    }

    open spec fn legal_state(&self, s: State) -> bool {
        true
    }

    open spec fn initial(&self) -> State {
        State { white: 0, black: 0, w_hand: self.board_view().men, b_hand: self.board_view().men, turn: WHITE }
    }

    open spec fn next_states(&self, s: State) -> Seq<State> {
        let b = self.board_view();
        legal_moves(b.n as int, b.adj@, b.mills@, b.flying, s)
    }

    open spec fn result_of(&self, s: State) -> Option<Outcome> {
        let b = self.board_view();
        morris_result(b.n as int, b.adj@, b.flying, s)
    }

    fn start(&self) -> (r: State) {
        State { white: 0, black: 0, w_hand: self.board.men, b_hand: self.board.men, turn: WHITE }
    }

    fn successors(&self, s: &State) -> (r: Vec<State>) {
        morris_successors(
            self.board.n,
            self.board.adj.as_slice(),
            self.board.mills.as_slice(),
            self.board.flying,
            s,
        )
    }

    proof fn lemma_next_legal(&self, s: State, k: int) {
    }

    proof fn lemma_legal_exact(&self, s: State) {
        assert(s.key_exact());
    }

    fn terminal(&self, s: &State) -> (r: Option<Outcome>) {
        morris_terminal(self.board.n, self.board.adj.as_slice(), self.board.flying, s)
    }
}

proof fn lemma_digit_split(x: int, r: int, q: int, d: int)
    requires
        r > 0,
        0 <= d < r,
        x == q * r + d,
    ensures
        x / r == q,
        x % r == d,
{
    vstd::arithmetic::div_mod::lemma_fundamental_div_mod_converse(x, r, q, d);
}

/// Reading the digits of a code gives back the digits it was made of.
pub proof fn lemma_code_digits(radix: int, d: (int, int, int, int, int))
    requires
        radix > 0,
        0 <= d.0,
        0 <= d.1 < radix,
        0 <= d.2 < radix,
        0 <= d.3 < radix,
        0 <= d.4 < radix,
    ensures
        code_digits(key_code_spec(radix, d), radix) == d,
{
    let x3 = d.0 * radix + d.1;
    let x2 = x3 * radix + d.2;
    let x1 = x2 * radix + d.3;
    let x0 = x1 * radix + d.4;
    lemma_digit_split(x0, radix, x1, d.4);
    lemma_digit_split(x1, radix, x2, d.3);
    lemma_digit_split(x2, radix, x3, d.2);
    lemma_digit_split(x3, radix, d.0, d.1);
}

proof fn lemma_mul_lt(a: int, b: int, r: int)
    requires
        0 <= a < b,
        r > 0,
    ensures
        a * r + r <= b * r,
{
    assert(a * r + r <= b * r) by (nonlinear_arith)
        requires
            a + 1 <= b,
            r > 0,
    ;
}

/// A code of in-range digits lies below `2 * radix^4`.
pub proof fn lemma_code_bound(radix: int, d: (int, int, int, int, int))
    requires
        radix > 0,
        0 <= d.0 < 2,
        0 <= d.1 < radix,
        0 <= d.2 < radix,
        0 <= d.3 < radix,
        0 <= d.4 < radix,
    ensures
        0 <= key_code_spec(radix, d) < 2 * radix * radix * radix * radix,
{
    let x3 = d.0 * radix + d.1;
    lemma_mul_lt(d.0, 2, radix);
    let x2 = x3 * radix + d.2;
    lemma_mul_lt(x3, 2 * radix, radix);
    let x1 = x2 * radix + d.3;
    lemma_mul_lt(x2, 2 * radix * radix, radix);
    lemma_mul_lt(x1, 2 * radix * radix * radix, radix);
    assert(0 <= x3) by (nonlinear_arith)
        requires
            x3 == d.0 * radix + d.1,
            0 <= d.0,
            radix > 0,
            0 <= d.1,
    ;
    assert(0 <= x2) by (nonlinear_arith)
        requires
            x2 == x3 * radix + d.2,
            0 <= x3,
            radix > 0,
            0 <= d.2,
    ;
    assert(0 <= x1) by (nonlinear_arith)
        requires
            x1 == x2 * radix + d.3,
            0 <= x2,
            radix > 0,
            0 <= d.3,
    ;
    assert(0 <= x1 * radix + d.4) by (nonlinear_arith)
        requires
            0 <= x1,
            radix > 0,
            0 <= d.4,
    ;
}

/// The digits of a code below `2 * radix^4` are in range.
pub proof fn lemma_digits_range(code: int, radix: int)
    requires
        radix > 0,
        0 <= code < 2 * radix * radix * radix * radix,
    ensures
        0 <= code_digits(code, radix).0 < 2,
        0 <= code_digits(code, radix).1 < radix,
        0 <= code_digits(code, radix).2 < radix,
        0 <= code_digits(code, radix).3 < radix,
        0 <= code_digits(code, radix).4 < radix,
        key_code_spec(radix, code_digits(code, radix)) == code,
{
    let t1 = code / radix;
    let t2 = t1 / radix;
    let t3 = t2 / radix;
    vstd::arithmetic::div_mod::lemma_fundamental_div_mod(code, radix);
    vstd::arithmetic::div_mod::lemma_fundamental_div_mod(t1, radix);
    vstd::arithmetic::div_mod::lemma_fundamental_div_mod(t2, radix);
    vstd::arithmetic::div_mod::lemma_fundamental_div_mod(t3, radix);
    vstd::arithmetic::div_mod::lemma_mod_pos_bound(code, radix);
    vstd::arithmetic::div_mod::lemma_mod_pos_bound(t1, radix);
    vstd::arithmetic::div_mod::lemma_mod_pos_bound(t2, radix);
    vstd::arithmetic::div_mod::lemma_mod_pos_bound(t3, radix);
    vstd::arithmetic::div_mod::lemma_div_pos_is_pos(code, radix);
    vstd::arithmetic::div_mod::lemma_div_pos_is_pos(t1, radix);
    vstd::arithmetic::div_mod::lemma_div_pos_is_pos(t2, radix);
    vstd::arithmetic::div_mod::lemma_div_pos_is_pos(t3, radix);
    let r4 = radix * radix * radix * radix;
    assert(t3 / radix < 2) by (nonlinear_arith)
        requires
            code == radix * t1 + code % radix,
            t1 == radix * t2 + t1 % radix,
            t2 == radix * t3 + t2 % radix,
            t3 == radix * (t3 / radix) + t3 % radix,
            0 <= code % radix,
            0 <= t1 % radix,
            0 <= t2 % radix,
            0 <= t3 % radix,
            code < 2 * radix * radix * radix * radix,
            radix > 0,
            t1 >= 0,
            t2 >= 0,
            t3 >= 0,
            t3 / radix >= 0,
    ;
    assert(key_code_spec(radix, code_digits(code, radix)) == code) by (nonlinear_arith)
        requires
            code == radix * t1 + code % radix,
            t1 == radix * t2 + t1 % radix,
            t2 == radix * t3 + t2 % radix,
            t3 == radix * (t3 / radix) + t3 % radix,
            code_digits(code, radix) == (t3 / radix, t3 % radix, t2 % radix, t1 % radix, code % radix),
    ;
}

proof fn lemma_c_fits(n: int, k: int)
    ensures
        c_spec(n, k) <= 4294967296,
{
    if 0 <= k <= n < 33 {
        crate::index::lemma_binom_bound(n as nat, k as nat);
        crate::index::lemma_two_to_mono(n as nat, 32);
        crate::index::lemma_two_to_31();
    }
}

proof fn lemma_c_pos(n: int, k: int)
    requires
        0 <= k <= n < 33,
    ensures
        c_spec(n, k) >= 1,
{
    crate::index::lemma_binom_pos(n as nat, k as nat);
}

impl GenericMorris {
    /// Lay out the dense index: one bucket per admissible
    /// `(turn, w_hand, nw, b_hand, nb)` that holds some position, in code
    /// order, each as large as the placements it holds, tiling `0..total`.
    /// The index must fit the machine words it is kept in ([`index_fits`];
    /// [`lemma_index_fits`] gives a simple sufficient condition).
    pub fn new(board: Board) -> (g: Self)
        requires
            index_fits(board.n as int, board.men as int),
        ensures
            g.board_view() == board,
            g.index_ok(),
            board_fits(board) ==> g.wf(),
            g.state_count() == span_below(board.n as int, board.men as int, code_count(board.men as int) as nat),
    {
        let binom = Binom::new();
        let men = board.men as usize;
        let n = board.n;
        let radix = men + 1;
        let ghost r = radix as int;
        proof {
            assert(2 * r <= 2 * r * r && 2 * r * r <= 2 * r * r * r && 2 * r * r * r <= 2 * r * r * r * r)
                by (nonlinear_arith)
                requires
                    r >= 1,
            ;
        }
        let codes = 2 * radix * radix * radix * radix;
        let mut buckets: Vec<Bucket> = Vec::new();
        let mut bucket_of: Vec<u32> = Vec::new();
        let mut offset: u64 = 0;
        let mut code: usize = 0;
        while code < codes
            invariant
                n == board.n,
                men == board.men,
                radix == men + 1,
                r == radix,
                codes == 2 * r * r * r * r,
                codes == code_count(men as int),
                index_fits(n as int, men as int),
                code <= codes,
                bucket_of@.len() == code,
                offset == span_below(n as int, men as int, code as nat),
                buckets@.len() == buckets_below(n as int, men as int, code as nat),
                buckets@.len() <= code,
                forall|c: int|
                    0 <= c < code ==> (#[trigger] bucket_of@[c] == u32::MAX || ((bucket_of@[c] as int)
                        < buckets@.len() && digits_of(buckets@[bucket_of@[c] as int]) == code_digits(c, r))) && (
                    n <= 32 && admissible(n as int, men as int, code_digits(c, r)) ==> bucket_of@[c] != u32::MAX),
                forall|k: int|
                    0 <= k < buckets@.len() ==> {
                        let d = digits_of(#[trigger] buckets@[k]);
                        &&& admissible(n as int, men as int, d)
                        &&& 0 <= d.0 < 2 && d.1 < r && d.2 < r && d.3 < r && d.4 < r
                        &&& buckets@[k].black_radix == c_spec(n - d.2, d.4)
                        &&& bucket_size(n as int, d.2, d.4) > 0
                    },
                forall|k: int|
                    0 <= k < buckets@.len() ==> 0 <= key_code_spec(r, digits_of(#[trigger] buckets@[k])) < code
                        && bucket_of@[key_code_spec(r, digits_of(buckets@[k]))] == k,
                forall|j: int, k: int|
                    0 <= j < k < buckets@.len() ==> key_code_spec(r, digits_of(#[trigger] buckets@[j]))
                        < key_code_spec(r, digits_of(#[trigger] buckets@[k])),
                buckets@.len() > 0 ==> buckets@[0].offset == 0,
                forall|k: int|
                    0 <= k < buckets@.len() - 1 ==> #[trigger] buckets@[k + 1].offset == end_of(n as int, buckets@[k]),
                offset == (if buckets@.len() == 0 {
                    0
                } else {
                    end_of(n as int, buckets@[buckets@.len() - 1])
                }),
            decreases codes - code,
        {
            proof {
                lemma_digits_range(code as int, r);
                lemma_below_mono(n as int, men as int, (code + 1) as nat, codes as nat);
                lemma_below_mono(n as int, men as int, 0, code as nat);
            }
            let nb = code % radix;
            let t1 = code / radix;
            let b_hand = t1 % radix;
            let t2 = t1 / radix;
            let nw = t2 % radix;
            let t3 = t2 / radix;
            let w_hand = t3 % radix;
            let turn = t3 / radix;
            let ghost d = code_digits(code as int, r);
            assert(d == (turn as int, w_hand as int, nw as int, b_hand as int, nb as int));
            let ghost old_buckets = buckets@;
            let mut id: u32 = u32::MAX;
            if nw <= men - w_hand && nb <= men - b_hand && nw + nb <= n {
                let white_ways = binom.c(n, nw);
                let black_radix = binom.c(n - nw, nb);
                proof {
                    assert(code_size(n as int, men as int, code as int) == white_ways * black_radix);
                    assert(white_ways * black_radix <= u64::MAX);
                    if n <= 32 {
                        lemma_c_pos(n as int, nw as int);
                        lemma_c_pos((n - nw) as int, nb as int);
                        assert(white_ways * black_radix >= 1) by (nonlinear_arith)
                            requires
                                white_ways >= 1,
                                black_radix >= 1,
                        ;
                    }
                }
                let size = white_ways * black_radix;
                if size != 0 {
                    id = buckets.len() as u32;
                    buckets.push(
                        Bucket {
                            offset,
                            turn: turn as u8,
                            w_hand: w_hand as u8,
                            nw: nw as u8,
                            b_hand: b_hand as u8,
                            nb: nb as u8,
                            black_radix,
                        },
                    );
                    offset = offset + size;
                    proof {
                        assert(digits_of(buckets@[old_buckets.len() as int]) == d);
                        lemma_code_digits(r, d);
                        assert forall|k: int| 0 <= k < buckets@.len() - 1 implies #[trigger] buckets@[k + 1].offset
                            == end_of(n as int, buckets@[k]) by {
                            if k + 1 < old_buckets.len() {
                                assert(buckets@[k + 1] == old_buckets[k + 1]);
                                assert(buckets@[k] == old_buckets[k]);
                            } else {
                                assert(buckets@[k] == old_buckets[k]);
                            }
                        }
                        assert forall|k: int| 0 <= k < buckets@.len() implies {
                            let d = digits_of(#[trigger] buckets@[k]);
                            &&& admissible(n as int, men as int, d)
                            &&& 0 <= d.0 < 2 && d.1 < r && d.2 < r && d.3 < r && d.4 < r
                            &&& buckets@[k].black_radix == c_spec(n - d.2, d.4)
                            &&& bucket_size(n as int, d.2, d.4) > 0
                        } by {
                            if k < old_buckets.len() {
                                assert(buckets@[k] == old_buckets[k]);
                            }
                        }
                        assert forall|j: int, k: int| 0 <= j < k < buckets@.len() implies key_code_spec(
                            r,
                            digits_of(#[trigger] buckets@[j]),
                        ) < key_code_spec(r, digits_of(#[trigger] buckets@[k])) by {
                            assert(buckets@[j] == old_buckets[j]);
                            if k < old_buckets.len() {
                                assert(buckets@[k] == old_buckets[k]);
                            }
                        }
                    }
                }
            }
            proof {
                if code_size(n as int, men as int, code as int) == 0 {
                    assert(buckets@ == old_buckets);
                }
            }
            let ghost old_of = bucket_of@;
            bucket_of.push(id);
            proof {
                assert forall|k: int|
                    0 <= k < buckets@.len() implies 0 <= key_code_spec(r, digits_of(#[trigger] buckets@[k])) < code + 1
                        && bucket_of@[key_code_spec(r, digits_of(buckets@[k]))] == k by {
                    if id != u32::MAX && k == id {
                        assert(digits_of(buckets@[k]) == d);
                        lemma_code_digits(r, d);
                    } else {
                        assert(buckets@[k] == old_buckets[k]);
                        assert(key_code_spec(r, digits_of(buckets@[k])) < code);
                    }
                }
                assert forall|c: int|
                    0 <= c < code + 1 implies (#[trigger] bucket_of@[c] == u32::MAX || ((bucket_of@[c] as int)
                        < buckets@.len() && digits_of(buckets@[bucket_of@[c] as int]) == code_digits(c, r))) && (
                    n <= 32 && admissible(n as int, men as int, code_digits(c, r)) ==> bucket_of@[c] != u32::MAX) by {
                    if c < code {
                        assert(bucket_of@[c] == old_of[c]);
                        if old_of[c] != u32::MAX {
                            assert(buckets@[old_of[c] as int] == old_buckets[old_of[c] as int]);
                        }
                    }
                }
            }
            code += 1;
        }
        GenericMorris { board, binom, buckets, bucket_of, total: offset }
    }

    /// Whether the dense index of `board` fits the machine words it is kept
    /// in, so that [`GenericMorris::new`] may build it: sums the bucket sizes
    /// and counts the buckets code by code.
    pub fn index_fits_for(board: &Board) -> (r: bool)
        ensures
            r == index_fits(board.n as int, board.men as int),
    {
        let n = board.n;
        let men = board.men as usize;
        let r128: u128 = board.men as u128 + 1;
        let ghost rr = r128 as int;
        assert(2 * rr * rr * rr * rr <= 2 * 256 * 256 * 256 * 256) by (nonlinear_arith)
            requires
                1 <= rr <= 256,
        ;
        assert(2 * rr <= 2 * rr * rr && 2 * rr * rr <= 2 * rr * rr * rr && 2 * rr * rr * rr <= 2 * rr * rr * rr * rr)
            by (nonlinear_arith)
            requires
                rr >= 1,
        ;
        let codes128 = 2 * r128 * r128 * r128 * r128;
        if codes128 > usize::MAX as u128 {
            return false;
        }
        let codes = codes128 as usize;
        let radix = men + 1;
        let binom = Binom::new();
        let mut span: u128 = 0;
        let mut count: u128 = 0;
        let mut code: usize = 0;
        while code < codes
            invariant
                n == board.n,
                men == board.men,
                radix == men + 1,
                rr == radix,
                codes == code_count(men as int),
                codes <= 2 * 256 * 256 * 256 * 256,
                code <= codes,
                span == span_below(n as int, men as int, code as nat),
                count == buckets_below(n as int, men as int, code as nat),
                span <= code * 18446744073709551616,
                count <= code,
            decreases codes - code,
        {
            proof {
                lemma_digits_range(code as int, rr);
            }
            let nb = code % radix;
            let t1 = code / radix;
            let b_hand = t1 % radix;
            let t2 = t1 / radix;
            let nw = t2 % radix;
            let t3 = t2 / radix;
            let w_hand = t3 % radix;
            let ghost d = code_digits(code as int, rr);
            assert(d.1 == w_hand && d.2 == nw && d.3 == b_hand && d.4 == nb);
            let mut size: u128 = 0;
            if nw <= men - w_hand && nb <= men - b_hand && nw + nb <= n {
                let a = binom.c(n, nw);
                let b = binom.c(n - nw, nb);
                proof {
                    lemma_c_fits(n as int, nw as int);
                    lemma_c_fits((n - nw) as int, nb as int);
                    assert((a as int) * (b as int) <= 18446744073709551616) by (nonlinear_arith)
                        requires
                            a <= 4294967296,
                            b <= 4294967296,
                    ;
                }
                size = a as u128 * b as u128;
            }
            proof {
                assert(code_size(n as int, men as int, code as int) == size);
                assert((code + 1) * 18446744073709551616 == code * 18446744073709551616 + 18446744073709551616)
                    by (nonlinear_arith);
                assert(code * 18446744073709551616 + 18446744073709551616 <= 2 * 256 * 256 * 256 * 256
                    * 18446744073709551616) by (nonlinear_arith)
                    requires
                        code < 2 * 256 * 256 * 256 * 256,
                ;
            }
            span = span + size;
            if size > 0 {
                count = count + 1;
            }
            code += 1;
        }
        span <= u64::MAX as u128 && count < u32::MAX as u128
    }

    pub fn six_mens() -> (g: Self)
        ensures
            g.board_view().ring_board(2, 6),
            g.index_ok(),
            g.wf(),
    {
        let b = Board::six_mens();
        proof {
            lemma_ring_board_fits(b, 2, 6);
            assert(three_to(16) == 43046721) by {
                reveal_with_fuel(three_to, 17);
            }
            assert(code_count(6) == 4802);
            lemma_index_fits(16, 6);
        }
        GenericMorris::new(b)
    }

    pub fn nine_mens() -> (g: Self)
        ensures
            g.board_view().ring_board(3, 9),
            g.index_ok(),
            g.wf(),
    {
        let b = Board::nine_mens();
        proof {
            lemma_ring_board_fits(b, 3, 9);
            assert(three_to(24) == 282429536481) by {
                reveal_with_fuel(three_to, 25);
            }
            assert(code_count(9) == 20000);
            lemma_index_fits(24, 9);
        }
        GenericMorris::new(b)
    }
}

/// The bucket code of a position's counts.
fn key_code(radix: usize, turn: u8, w_hand: u8, nw: u8, b_hand: u8, nb: u8) -> (r: usize)
    requires
        2 * radix * radix * radix * radix <= usize::MAX,
        turn < 2,
        w_hand < radix,
        nw < radix,
        b_hand < radix,
        nb < radix,
    ensures
        r == key_code_spec(radix as int, (turn as int, w_hand as int, nw as int, b_hand as int, nb as int)),
{
    proof {
        let rr = radix as int;
        let d = (turn as int, w_hand as int, nw as int, b_hand as int, nb as int);
        lemma_code_bound(rr, d);
        let x3 = d.0 * rr + d.1;
        let x2 = x3 * rr + d.2;
        let x1 = x2 * rr + d.3;
        assert(0 <= d.0 * rr <= x3 <= x3 * rr <= x2 <= x2 * rr <= x1 <= x1 * rr <= key_code_spec(rr, d))
            by (nonlinear_arith)
            requires
                rr >= 1,
                0 <= d.0,
                0 <= d.1,
                0 <= d.2,
                0 <= d.3,
                0 <= d.4,
                x3 == d.0 * rr + d.1,
                x2 == x3 * rr + d.2,
                x1 == x2 * rr + d.3,
                key_code_spec(rr, d) == x1 * rr + d.4,
        ;
    }
    ((((turn as usize) * radix + w_hand as usize) * radix + nw as usize) * radix + b_hand as usize) * radix
        + nb as usize
}

/// The neighbours of every point of a ring board lie on the board.
proof fn lemma_ring_adj_within(rings: int, a: int)
    requires
        2 <= rings <= 3,
        0 <= a < 8 * rings,
    ensures
        within32(ring_adj(rings, a), 8 * rings),
{
    let r = a / 8;
    let i = a % 8;
    let x = r * 8 + (i + 1) % 8;
    let y = r * 8 + (i + 7) % 8;
    let along = (1u32 << (x as u32)) | (1u32 << (y as u32));
    let inward = if i % 2 == 1 && r > 0 {
        1u32 << ((a - 8) as u32)
    } else {
        0u32
    };
    let outward = if i % 2 == 1 && r + 1 < rings {
        1u32 << ((a + 8) as u32)
    } else {
        0u32
    };
    assert forall|q: int| 8 * rings <= q < 32 implies !#[trigger] bit(ring_adj(rings, a), q) by {
        crate::index::lemma_bit_or(along | inward, outward, q);
        crate::index::lemma_bit_or(along, inward, q);
        crate::index::lemma_bit_or(1u32 << (x as u32), 1u32 << (y as u32), q);
        crate::index::lemma_bit_one(x, q);
        crate::index::lemma_bit_one(y, q);
        if i % 2 == 1 && r > 0 {
            crate::index::lemma_bit_one(a - 8, q);
        } else {
            crate::index::lemma_bit_zero(q);
        }
        if i % 2 == 1 && r + 1 < rings {
            crate::index::lemma_bit_one(a + 8, q);
        } else {
            crate::index::lemma_bit_zero(q);
        }
    }
}

/// A two- or three-ring board fits the rules' bitmasks.
pub proof fn lemma_ring_board_fits(b: Board, rings: int, men: u8)
    requires
        b.ring_board(rings, men) || (Board { flying: false, ..b }).ring_board(rings, men),
        2 <= rings <= 3,
    ensures
        board_fits(b),
{
    assert forall|f: int| 0 <= f < b.adj@.len() implies within32(#[trigger] b.adj@[f], b.n as int) by {
        lemma_ring_adj_within(rings, f);
    }
    let v = b.sym@.map_values(|p: Vec<u8>| p@);
    assert forall|k: int| 0 <= k < b.sym@.len() implies is_point_map(#[trigger] b.sym@[k]@, b.n as int) by {
        assert(v[k] == b.sym@[k]@);
        lemma_sym_point_map(rings, v[k]);
    }
}

/// Offsets grow: an earlier bucket ends before a later one starts.
proof fn lemma_bucket_order(n: int, bs: Seq<Bucket>, k1: int, k2: int)
    requires
        0 <= k1 < k2 < bs.len(),
        forall|k: int| 0 <= k < bs.len() - 1 ==> #[trigger] bs[k + 1].offset == end_of(n, bs[k]),
        forall|k: int| 0 <= k < bs.len() ==> bucket_size(n, (#[trigger] bs[k]).nw as int, bs[k].nb as int) > 0,
    ensures
        end_of(n, bs[k1]) <= bs[k2].offset,
    decreases k2 - k1,
{
    if k1 + 1 < k2 {
        lemma_bucket_order(n, bs, k1 + 1, k2);
        assert(bs[k1 + 1].offset == end_of(n, bs[k1]));
        assert(bucket_size(n, bs[k1 + 1].nw as int, bs[k1 + 1].nb as int) > 0);
    } else {
        assert(bs[k1 + 1].offset == end_of(n, bs[k1]));
    }
}

impl GenericMorris {
    /// The bucket holding index `i`.
    closed spec fn bucket_at(&self, i: int) -> int {
        let n = self.board.n as int;
        choose|k: int|
            #![trigger self.buckets@[k]]
            0 <= k < self.buckets@.len() && self.buckets@[k].offset <= i < end_of(n, self.buckets@[k])
    }

    /// Every bucket ends by the total.
    proof fn lemma_ends_within(&self, k: int)
        requires
            self.index_ok(),
            0 <= k < self.buckets@.len(),
        ensures
            end_of(self.board.n as int, self.buckets@[k]) <= self.total,
            self.buckets@[k].offset <= end_of(self.board.n as int, self.buckets@[k]),
    {
        let bs = self.buckets@;
        let n = self.board.n as int;
        assert(bucket_size(n, bs[k].nw as int, bs[k].nb as int) > 0);
        if k < bs.len() - 1 {
            lemma_bucket_order(n, bs, k, bs.len() - 1);
            assert(bucket_size(n, bs[bs.len() - 1].nw as int, bs[bs.len() - 1].nb as int) > 0);
        }
    }

    /// The index of a valid position: its bucket's offset, then white's rank
    /// times black's radix, plus black's rank among the empty points.
    pub closed spec fn index_spec(&self, s: State) -> int {
        let radix = self.board.men as int + 1;
        let d = (
            if s.turn == WHITE {
                0int
            } else {
                1int
            },
            s.w_hand as int,
            popcount_below(s.white, 32) as int,
            s.b_hand as int,
            popcount_below(s.black, 32) as int,
        );
        let bk = self.buckets@[self.bucket_of@[key_code_spec(radix, d)] as int];
        bk.offset + rank_spec(points_below(s.white, 32)) * bk.black_radix + rank_spec(
            compressed_below(s.white, s.black, 32),
        )
    }

    /// The position at index `i`: find its bucket, split the offset within it
    /// into white's rank and black's rank, and unrank both.
    pub closed spec fn decode_spec(&self, i: int) -> Option<State> {
        let n = self.board.n as int;
        let bk = self.buckets@[self.bucket_at(i)];
        let within = i - bk.offset;
        let rw = within / (bk.black_radix as int);
        let rb = within % (bk.black_radix as int);
        let white = mask_of(unranked(rw, n, bk.nw as nat));
        let black = expand_below(white, unranked(rb, n - popcount_below(white, 32), bk.nb as nat), n as nat).0;
        Some(
            State {
                white,
                black,
                w_hand: bk.w_hand,
                b_hand: bk.b_hand,
                turn: if bk.turn == 0 {
                    WHITE
                } else {
                    BLACK
                },
            },
        )
    }

    /// The size of the index space.
    pub closed spec fn count_spec(&self) -> nat {
        self.total as nat
    }

    /// A valid position's counts have a bucket, and its two ranks fit in it.
    proof fn lemma_index_facts(&self, s: State)
        requires
            self.index_ok(),
            self.board.n <= 32,
            valid_state(self.board.n as int, self.board.men as int, s),
        ensures
            ({
                let n = self.board.n as int;
                let radix = self.board.men as int + 1;
                let nw = popcount_below(s.white, 32) as int;
                let nb = popcount_below(s.black, 32) as int;
                let d = (if s.turn == WHITE { 0int } else { 1int }, s.w_hand as int, nw, s.b_hand as int, nb);
                let code = key_code_spec(radix, d);
                let bid = self.bucket_of@[code];
                &&& 0 <= code < self.bucket_of@.len()
                &&& code_digits(code, radix) == d
                &&& admissible(n, self.board.men as int, d)
                &&& (bid as int) < self.buckets@.len()
                &&& digits_of(self.buckets@[bid as int]) == d
                &&& ascending_below(points_below(s.white, 32), n)
                &&& points_below(s.white, 32).len() == nw
                &&& rank_spec(points_below(s.white, 32)) < c_spec(n, nw)
                &&& rank_spec(compressed_below(s.white, s.black, 32)) < c_spec(n - nw, nb)
                &&& ascending_below(compressed_below(s.white, s.black, 32), n - nw)
                &&& compressed_below(s.white, s.black, 32).len() == nb
                &&& 0 <= nw <= n
            }),
    {
        let n = self.board.n as int;
        let men = self.board.men as int;
        let radix = men + 1;
        let nw = popcount_below(s.white, 32) as int;
        let nb = popcount_below(s.black, 32) as int;
        let d = (if s.turn == WHITE { 0int } else { 1int }, s.w_hand as int, nw, s.b_hand as int, nb);
        lemma_code_bound(radix, d);
        lemma_code_digits(radix, d);
        let pts = points_below(s.white, 32);
        crate::index::lemma_points_below_bits(s.white, 32);
        assert(ascending_below(pts, n)) by {
            assert forall|x: int| 0 <= x < pts.len() implies (#[trigger] pts[x] as int) < n by {
                assert(pts.contains(pts[x]));
                assert(bit(s.white, pts[x] as int));
            }
        }
        crate::index::lemma_ascending_len(pts, n);
        crate::index::lemma_rank_below(pts, n);
        crate::index::lemma_points_same_past(s.white, n as nat, 32);
        crate::index::lemma_compressed_shape(s.white, s.black, n as nat);
        crate::index::lemma_compressed_same_past(s.white, s.black, n as nat, 32);
        crate::index::lemma_points_same_past(s.black, n as nat, 32);
        let comp = compressed_below(s.white, s.black, 32);
        assert(ascending_below(comp, n - nw));
        crate::index::lemma_ascending_len(comp, n - nw);
        crate::index::lemma_rank_below(comp, n - nw);
        let code = key_code_spec(radix, d);
        assert(self.bucket_of@[code] == u32::MAX || ((self.bucket_of@[code] as int) < self.buckets@.len()
            && digits_of(self.buckets@[self.bucket_of@[code] as int]) == code_digits(code, radix)));
    }
}

impl GenericMorris {
    /// Whether `s` is a position of this board: a side to move, no more men
    /// than a side has, every man on a point of the board, and no point held
    /// by both sides.
    pub fn is_valid(&self, s: &State) -> (r: bool)
        ensures
            r == self.valid(*s),
    {
        let n = self.board.n;
        let men = self.board.men as usize;
        if !(s.turn == WHITE || s.turn == BLACK) {
            return false;
        }
        if popcount(s.white) + s.w_hand as usize > men || popcount(s.black) + s.b_hand as usize > men {
            return false;
        }
        let mut p: u32 = 0;
        while p < 32
            invariant
                p <= 32,
                n == self.board_view().n,
                forall|q: int|
                    #![trigger bit(s.white, q)]
                    #![trigger bit(s.black, q)]
                    0 <= q < p ==> (q >= n ==> !bit(s.white, q) && !bit(s.black, q)) && !(bit(s.white, q) && bit(
                        s.black,
                        q,
                    )),
            decreases 32 - p,
        {
            let w = (s.white >> p) & 1 == 1;
            let b = (s.black >> p) & 1 == 1;
            assert(w == bit(s.white, p as int));
            assert(b == bit(s.black, p as int));
            if (w && b) || (p as usize >= n && (w || b)) {
                return false;
            }
            p += 1;
        }
        assert(within32(s.white, n as int) && within32(s.black, n as int));
        assert(disjoint32(s.white, s.black));
        true
    }

    /// A valid position's index lies within the bucket of its counts.
    proof fn lemma_index_in_bucket(&self, s: State)
        requires
            self.index_ok(),
            self.board.n <= 32,
            valid_state(self.board.n as int, self.board.men as int, s),
        ensures
            ({
                let bid = self.bucket_of@[key_code_spec(self.board.men as int + 1, counts_of(s))] as int;
                &&& 0 <= bid < self.buckets@.len()
                &&& digits_of(self.buckets@[bid]) == counts_of(s)
                &&& self.buckets@[bid].offset <= self.index_spec(s) < end_of(
                    self.board.n as int,
                    self.buckets@[bid],
                )
            }),
    {
        self.lemma_index_facts(s);
        let n = self.board.n as int;
        let nw = popcount_below(s.white, 32) as int;
        let nb = popcount_below(s.black, 32) as int;
        let d = counts_of(s);
        let bid = self.bucket_of@[key_code_spec(self.board.men as int + 1, d)] as int;
        let bk = self.buckets@[bid];
        let rw = rank_spec(points_below(s.white, 32));
        let rb = rank_spec(compressed_below(s.white, s.black, 32));
        let c = c_spec(n, nw);
        assert(bk.black_radix == c_spec(n - nw, nb));
        assert(rw * bk.black_radix + rb < c * bk.black_radix) by (nonlinear_arith)
            requires
                0 <= rw < c,
                0 <= rb < bk.black_radix,
        ;
        assert(0 <= rw * bk.black_radix) by (nonlinear_arith)
            requires
                0 <= rw,
                0 <= bk.black_radix,
        ;
    }

    /// Indices follow the count order: of two positions, the one whose counts
    /// (side to move, White's men in hand, White's men on the board, Black's
    /// men in hand, Black's men on the board), read as the digits of a number
    /// in that order, come first has the smaller index.
    pub proof fn lemma_index_follows_counts(&self, s: State, t: State)
        requires
            self.index_ok(),
            self.board_view().n <= 32,
            valid_state(self.board_view().n as int, self.board_view().men as int, s),
            valid_state(self.board_view().n as int, self.board_view().men as int, t),
            key_code_spec(self.board_view().men as int + 1, counts_of(s)) < key_code_spec(
                self.board_view().men as int + 1,
                counts_of(t),
            ),
        ensures
            self.index_spec(s) < self.index_spec(t),
    {
        let radix = self.board.men as int + 1;
        let bs = self.buckets@;
        let n = self.board.n as int;
        self.lemma_index_in_bucket(s);
        self.lemma_index_in_bucket(t);
        let js = self.bucket_of@[key_code_spec(radix, counts_of(s))] as int;
        let jt = self.bucket_of@[key_code_spec(radix, counts_of(t))] as int;
        assert(js < jt) by {
            if js > jt {
                assert(key_code_spec(radix, digits_of(bs[jt])) < key_code_spec(radix, digits_of(bs[js])));
            }
        }
        assert(bucket_size(n, bs[js].nw as int, bs[js].nb as int) > 0);
        lemma_bucket_order(n, bs, js, jt);
    }

    /// Every index below the total lies in some bucket.
    proof fn lemma_bucket_exists(&self, i: int)
        requires
            self.index_ok(),
            0 <= i < self.total,
        ensures
            exists|k: int|
                #![trigger self.buckets@[k]]
                0 <= k < self.buckets@.len() && self.buckets@[k].offset <= i < end_of(
                    self.board.n as int,
                    self.buckets@[k],
                ),
    {
        let bs = self.buckets@;
        self.lemma_bucket_upto(i, bs.len() - 1);
    }

    proof fn lemma_bucket_upto(&self, i: int, m: int)
        requires
            self.index_ok(),
            0 <= m < self.buckets@.len(),
            0 <= i < end_of(self.board.n as int, self.buckets@[m]),
        ensures
            exists|k: int|
                #![trigger self.buckets@[k]]
                0 <= k < self.buckets@.len() && self.buckets@[k].offset <= i < end_of(
                    self.board.n as int,
                    self.buckets@[k],
                ),
        decreases m,
    {
        let bs = self.buckets@;
        let n = self.board.n as int;
        if m == 0 {
            assert(bs[0].offset <= i < end_of(n, bs[0]));
        } else if i < bs[m].offset {
            let k = m - 1;
            assert(bs[k + 1].offset == end_of(n, bs[k]));
            self.lemma_bucket_upto(i, k);
        } else {
            assert(bs[m].offset <= i < end_of(n, bs[m]));
        }
    }

    /// The index maps the valid positions onto `0..total`: every index below
    /// the total decodes to a valid position whose index it is.
    pub proof fn lemma_index_onto(&self, i: int)
        requires
            self.index_ok(),
            self.board_view().n < 32,
            0 <= i < self.count_spec(),
        ensures
            self.decode_spec(i) is Some,
            valid_state(self.board_view().n as int, self.board_view().men as int, self.decode_spec(i)->0),
            self.index_spec(self.decode_spec(i)->0) == i,
    {
        let n = self.board.n as int;
        let bs = self.buckets@;
        self.lemma_bucket_exists(i);
        let lo = self.bucket_at(i);
        let bk = bs[lo];
        assert(bs[lo].offset <= i < end_of(n, bs[lo]));
        assert(digits_of(bs[lo]).0 < 2);
        let c1 = c_spec(n, bk.nw as int);
        let c2 = c_spec(n - bk.nw, bk.nb as int);
        assert(bucket_size(n, bk.nw as int, bk.nb as int) > 0);
        assert(c2 > 0) by (nonlinear_arith)
            requires
                c1 * c2 > 0,
                c1 >= 0,
                c2 >= 0,
        ;
        let br = bk.black_radix as int;
        let within = i - bk.offset;
        let rw = within / br;
        let rb = within % br;
        vstd::arithmetic::div_mod::lemma_fundamental_div_mod(within, br);
        vstd::arithmetic::div_mod::lemma_mod_pos_bound(within, br);
        vstd::arithmetic::div_mod::lemma_div_pos_is_pos(within, br);
        assert(rw < c1) by (nonlinear_arith)
            requires
                within < c1 * br,
                rw == within / br,
                br > 0,
                within >= 0,
        ;
        let nw = bk.nw as int;
        let wp = unranked(rw, n, nw as nat);
        crate::index::lemma_unranked_exists(rw, n, nw as nat);
        crate::index::lemma_unrank_correct(wp, rw, n);
        let white = mask_of(wp);
        assert(ascending_below(wp, 32));
        crate::index::lemma_points_of_mask(wp);
        let comp = unranked(rb, n - popcount_below(white, 32), bk.nb as nat);
        crate::index::lemma_unranked_exists(rb, n - nw, bk.nb as nat);
        crate::index::lemma_unrank_correct(comp, rb, n - nw);
        let black = expand_below(white, comp, n as nat).0;
        let r = State {
            white,
            black,
            w_hand: bk.w_hand,
            b_hand: bk.b_hand,
            turn: if bk.turn == 0 {
                WHITE
            } else {
                BLACK
            },
        };
        assert(self.decode_spec(i) == Some(r));
        assert forall|q: int| n <= q < 32 implies !#[trigger] bit(white, q) by {
            crate::index::lemma_mask_of_bits(wp, q);
            if wp.contains(q as u8) {
                let j = choose|j: int| 0 <= j < wp.len() && wp[j] == q as u8;
                assert((wp[j] as int) < n);
            }
        }
        crate::index::lemma_points_same_past(white, n as nat, 32);
        crate::index::lemma_expand_shape(white, comp, n as nat);
        let radix = self.board.men as int + 1;
        let d = digits_of(bk);
        assert(d == (if r.turn == WHITE { 0int } else { 1int }, r.w_hand as int, popcount_below(r.white, 32)
            as int, r.b_hand as int, popcount_below(r.black, 32) as int));
        assert(self.bucket_of@[key_code_spec(radix, d)] == lo);
        assert(rank_spec(points_below(r.white, 32)) == rw);
        assert(rank_spec(compressed_below(r.white, r.black, 32)) == rb);
        assert(bk.offset + rw * br + rb == i) by (nonlinear_arith)
            requires
                within == i - bk.offset,
                within == br * (within / br) + within % br,
                rw == within / br,
                rb == within % br,
        ;
    }

    /// A valid position's index lies in `0..total`, and decoding it gives the
    /// position back.
    pub proof fn lemma_index_round_trip(&self, s: State)
        requires
            self.index_ok(),
            self.board_view().n <= 32,
            valid_state(self.board_view().n as int, self.board_view().men as int, s),
        ensures
            0 <= self.index_spec(s) < self.count_spec(),
            self.decode_spec(self.index_spec(s)) == Some(s),
    {
        self.lemma_index_facts(s);
        let n = self.board.n as int;
        let radix = self.board.men as int + 1;
        let nw = popcount_below(s.white, 32) as int;
        let nb = popcount_below(s.black, 32) as int;
        let d = (if s.turn == WHITE { 0int } else { 1int }, s.w_hand as int, nw, s.b_hand as int, nb);
        let code = key_code_spec(radix, d);
        let bid = self.bucket_of@[code] as int;
        let bs = self.buckets@;
        let bk = bs[bid];
        self.lemma_ends_within(bid);
        let pts = points_below(s.white, 32);
        let comp = compressed_below(s.white, s.black, 32);
        let rw = rank_spec(pts);
        let rb = rank_spec(comp);
        let c = c_spec(n, nw);
        assert(bk.black_radix == c_spec(n - nw, nb));
        assert(rw * bk.black_radix + rb < c * bk.black_radix) by (nonlinear_arith)
            requires
                0 <= rw < c,
                0 <= rb < bk.black_radix,
        ;
        assert(0 <= rw * bk.black_radix) by (nonlinear_arith)
            requires
                0 <= rw,
                0 <= bk.black_radix,
        ;
        let r = bk.offset + rw * bk.black_radix + rb;
        assert(r == self.index_spec(s));
        let k = self.bucket_at(r);
        assert(bs[bid].offset <= r < end_of(n, bs[bid]));
        if k != bid {
            assert(bucket_size(n, bs[k].nw as int, bs[k].nb as int) > 0);
            if k < bid {
                lemma_bucket_order(n, bs, k, bid);
            } else {
                lemma_bucket_order(n, bs, bid, k);
            }
        }
        lemma_digit_split((rw * bk.black_radix + rb) as int, bk.black_radix as int, rw as int, rb as int);
        crate::index::lemma_rank_then_unrank(pts, n);
        crate::index::lemma_mask_of_points(s.white);
        crate::index::lemma_rank_then_unrank(comp, n - nw);
        crate::index::lemma_expand_compressed(s.white, s.black, n as nat);
    }
}

impl Game for GenericMorris {
    type State = State;

    open spec fn wf(&self) -> bool {
        self.board_ok() && self.index_ok()
    }

    open spec fn state_count(&self) -> nat {
        self.count_spec()
    }

    open spec fn valid(&self, s: State) -> bool {
        valid_state(self.board_view().n as int, self.board_view().men as int, s)
    }

    open spec fn index_of(&self, s: State) -> int {
        self.index_spec(s)
    }

    open spec fn decode(&self, i: int) -> Option<State> {
        self.decode_spec(i)
    }

    open spec fn start_state(&self) -> State {
        self.initial()
    }

    open spec fn moves(&self, s: State) -> Seq<State> {
        self.next_states(s)
    }

    open spec fn outcome(&self, s: State) -> Option<Outcome> {
        self.result_of(s)
    }

    fn num_states(&self) -> (r: u64) {
        self.total
    }

    fn index(&self, s: &State) -> (r: u64)
        ensures
            self.decode_spec(r as int) == Some(*s),
    {
        proof {
            self.lemma_index_facts(*s);
        }
        let nw = popcount(s.white) as u8;
        let nb = popcount(s.black) as u8;
        let turn: u8 = if s.turn == WHITE {
            0
        } else {
            1
        };
        let radix = self.board.men as usize + 1;
        let code = key_code(radix, turn, s.w_hand, nw, s.b_hand, nb);
        let bid = self.bucket_of[code];
        let bk = self.buckets[bid as usize];
        proof {
            self.lemma_ends_within(bid as int);
            crate::index::lemma_compressed_shape(s.white, s.black, 32);
        }
        let pts = mask_to_points(s.white);
        proof {
            lemma_c_fits(self.board.n as int, nw as int);
        }
        let rw = rank_subset(&self.binom, pts.as_slice());
        let rb = rank_black_in_empties(&self.binom, s.white, s.black);
        proof {
            let c = c_spec(self.board.n as int, nw as int);
            assert(rw * bk.black_radix + rb < c * bk.black_radix) by (nonlinear_arith)
                requires
                    rw < c,
                    rb < bk.black_radix,
            ;
        }
        let r = bk.offset + rw * bk.black_radix + rb;
        proof {
            self.lemma_index_round_trip(*s);
        }
        r
    }

    fn from_index(&self, i: u64) -> (r: Option<State>)
        ensures
            r matches Some(s) ==> self.index_spec(s) == i,
    {
        let ghost n = self.board.n as int;
        let ghost bs = self.buckets@;
        // Largest bucket offset <= i (buckets are in ascending-offset order).
        let mut lo: usize = 0;
        let mut hi: usize = self.buckets.len();
        proof {
            assert(bs.len() > 0);
        }
        while hi - lo > 1
            invariant
                self.index_ok(),
                bs == self.buckets@,
                n == self.board.n,
                lo < hi <= bs.len(),
                bs[lo as int].offset <= i,
                hi < bs.len() ==> bs[hi as int].offset > i,
                i < self.total,
            decreases hi - lo,
        {
            let mid = lo + (hi - lo) / 2;
            if self.buckets[mid].offset <= i {
                lo = mid;
            } else {
                hi = mid;
            }
        }
        let bk = self.buckets[lo];
        proof {
            assert(i < end_of(n, bk)) by {
                if lo + 1 < bs.len() {
                    assert(bs[lo + 1].offset == end_of(n, bs[lo as int]));
                }
            }
            // The bucket holding `i` is unique.
            let k = self.bucket_at(i as int);
            assert(0 <= lo < bs.len() && bs[lo as int].offset <= i < end_of(n, bs[lo as int]));
            if k != lo {
                assert(bucket_size(n, bs[k].nw as int, bs[k].nb as int) > 0);
                assert(bucket_size(n, bs[lo as int].nw as int, bs[lo as int].nb as int) > 0);
                if k < lo {
                    lemma_bucket_order(n, bs, k, lo as int);
                } else {
                    lemma_bucket_order(n, bs, lo as int, k);
                }
            }
            assert(digits_of(bs[lo as int]).0 < 2);
            let c1 = c_spec(n, bk.nw as int);
            let c2 = c_spec(n - bk.nw, bk.nb as int);
            assert(bucket_size(n, bk.nw as int, bk.nb as int) > 0);
            assert(c2 > 0) by (nonlinear_arith)
                requires
                    c1 * c2 > 0,
                    c1 >= 0,
                    c2 >= 0,
            ;
        }
        let within = i - bk.offset;
        let rw = within / bk.black_radix;
        let rb = within % bk.black_radix;
        let n_pts = self.board.n;
        proof {
            let c = c_spec(n, bk.nw as int);
            assert(rw < c) by (nonlinear_arith)
                requires
                    within < c * bk.black_radix,
                    rw == within / bk.black_radix,
                    bk.black_radix > 0,
                    within >= 0,
            ;
        }
        let white_pts = unrank_subset(&self.binom, rw, n_pts, bk.nw as usize);
        let mut white: u32 = 0;
        let mut k: usize = 0;
        while k < white_pts.len()
            invariant
                k <= white_pts@.len(),
                ascending_below(white_pts@, n),
                n < 32,
                white == mask_of(white_pts@.subrange(0, k as int)),
            decreases white_pts@.len() - k,
        {
            proof {
                assert(white_pts@.subrange(0, k as int + 1).drop_last() =~= white_pts@.subrange(0, k as int));
            }
            white = white | (1u32 << (white_pts[k] as u32));
            k += 1;
        }
        proof {
            assert(white_pts@.subrange(0, k as int) =~= white_pts@);
            crate::index::lemma_points_of_mask(white_pts@);
        }
        let black = unrank_black_in_empties(&self.binom, white, rb, n_pts, bk.nb as usize);
        let turn = if bk.turn == 0 {
            WHITE
        } else {
            BLACK
        };
        let r = State { white, black, w_hand: bk.w_hand, b_hand: bk.b_hand, turn };
        proof {
            // The decoded position is valid.
            let wp = white_pts@;
            assert forall|q: int| n <= q < 32 implies !#[trigger] bit(white, q) by {
                crate::index::lemma_mask_of_bits(wp, q);
                if wp.contains(q as u8) {
                    let j = choose|j: int| 0 <= j < wp.len() && wp[j] == q as u8;
                    assert((wp[j] as int) < n);
                }
            }
            let nw = bk.nw as int;
            let comp = unranked(rb as int, n - popcount_below(white, 32), bk.nb as nat);
            crate::index::lemma_unrank_correct(comp, rb as int, n - nw);
            crate::index::lemma_points_same_past(white, n as nat, 32);
            crate::index::lemma_expand_shape(white, comp, n as nat);
            // Indexing the decoded position gives the index back.
            let radix = self.board.men as int + 1;
            let d = digits_of(bk);
            assert(d == (if r.turn == WHITE { 0int } else { 1int }, r.w_hand as int, popcount_below(r.white, 32)
                as int, r.b_hand as int, popcount_below(r.black, 32) as int));
            assert(self.bucket_of@[key_code_spec(radix, d)] == lo);
            vstd::arithmetic::div_mod::lemma_fundamental_div_mod(within as int, bk.black_radix as int);
            assert(rank_spec(points_below(r.white, 32)) == rw);
            assert(rank_spec(compressed_below(r.white, r.black, 32)) == rb);
            let br = bk.black_radix as int;
            let w = within as int;
            assert(bk.offset + rw * br + rb == i) by (nonlinear_arith)
                requires
                    w == i - bk.offset,
                    w == br * (w / br) + w % br,
                    rw == w / br,
                    rb == w % br,
            ;
        }
        Some(r)
    }

    fn start(&self) -> (r: State) {
        let r = State { white: 0, black: 0, w_hand: self.board.men, b_hand: self.board.men, turn: WHITE };
        proof {
            assert forall|q: int| 0 <= q < 32 implies !#[trigger] bit(0u32, q) by {
                crate::index::lemma_bit_zero(q);
            }
            assert(points_below(0u32, 32).len() == 0) by {
                crate::index::lemma_points_below_bits(0u32, 32);
                if points_below(0u32, 32).len() > 0 {
                    let x = points_below(0u32, 32)[0];
                    assert(points_below(0u32, 32).contains(x));
                    assert((x as int) < 32);
                    assert(!bit(0u32, x as int));
                }
            }
        }
        r
    }

    fn successors(&self, s: &State) -> (r: Vec<State>) {
        proof {
            lemma_legal_moves_valid(
                self.board.n as int,
                self.board.adj@,
                self.board.mills@,
                self.board.flying,
                self.board.men as int,
                *s,
            );
        }
        RulesGame::successors(self, s)
    }

    fn terminal(&self, s: &State) -> (r: Option<Outcome>) {
        RulesGame::terminal(self, s)
    }
}

/// The dense index and the rules agree on every position's value: solving
/// the indexed game gives a valid position, at its index, the value that
/// solving the game by its rules gives the position itself.
pub proof fn lemma_index_value_is_rules_value(g: &GenericMorris, s: State)
    requires
        g.wf(),
        g.valid(s),
    ensures
        crate::solved_value(g, g.index_of(s)) == state_value(g, s),
{
    let b = g.board_view();
    let f = |x: State| g.index_of(x);
    let dom = |x: State| g.valid(x);
    let ta = result_fn(g);
    let sa = next_fn(g);
    let tb = crate::term_fn(g);
    let sb = crate::moves_fn(g);
    assert forall|a: State| #[trigger] dom(a) implies tb(f(a)) == ta(a) by {
        g.lemma_index_round_trip(a);
    }
    assert forall|a: State| #[trigger] dom(a) && ta(a) is None implies sb(f(a)) == sa(a).map_values(f)
        && forall|m: int| 0 <= m < sa(a).len() ==> dom(#[trigger] sa(a)[m]) by {
        g.lemma_index_round_trip(a);
        assert(sb(f(a)) =~= sa(a).map_values(f));
        lemma_legal_moves_valid(b.n as int, b.adj@, b.mills@, b.flying, b.men as int, a);
    }
    lemma_graph_map_value(ta, sa, tb, sb, f, dom, s);
}

/// The empty mask has no points.
proof fn lemma_no_points(k: nat)
    requires
        k <= 32,
    ensures
        popcount_below(0u32, k) == 0,
    decreases k,
{
    if k > 0 {
        lemma_no_points((k - 1) as nat);
        crate::index::lemma_bit_zero(k - 1);
    }
}

/// Every position reachable from the start is a valid position of the board.
pub proof fn lemma_reachable_valid(g: &GenericMorris, s: State, d: nat)
    requires
        g.board_ok(),
        reachable_within(g, s, d),
    ensures
        g.valid(s),
    decreases d,
{
    let b = g.board_view();
    if d == 0 {
        lemma_no_points(32);
        assert forall|p: int| 0 <= p < 32 implies !#[trigger] bit(0u32, p) by {
            crate::index::lemma_bit_zero(p);
        }
    } else if reachable_within(g, s, (d - 1) as nat) {
        lemma_reachable_valid(g, s, (d - 1) as nat);
    } else {
        let p = choose|p: State|
            #![trigger g.next_states(p)]
            reachable_within(g, p, (d - 1) as nat) && g.result_of(p) is None && g.next_states(p).contains(s);
        lemma_reachable_valid(g, p, (d - 1) as nat);
        lemma_legal_moves_valid(b.n as int, b.adj@, b.mills@, b.flying, b.men as int, p);
        let m = choose|m: int| 0 <= m < g.next_states(p).len() && g.next_states(p)[m] == s;
        assert(valid_state(b.n as int, b.men as int, g.next_states(p)[m]));
    }
}

/// Every reachable position is a valid position of the board.
pub proof fn lemma_reachable_is_valid(g: &GenericMorris, s: State)
    requires
        g.board_ok(),
        reachable(g, s),
    ensures
        g.valid(s),
{
    let d = choose|d: nat| reachable_within(g, s, d);
    lemma_reachable_valid(g, s, d);
}

} // verus!
