//! The combinatorial number system: a dense bijection between integers and
//! `k`-subsets of `{0, 1, ..., n-1}`. This is the craft part of giving a capture
//! game a dense perfect-hash index — it lets us address "the i-th way to place
//! `k` men on `n` points" with a flat array instead of a hash map.
//!
//! A subset `{x_0 < x_1 < ... < x_{k-1}}` maps to
//! `rank = sum_i C(x_i, i+1)`, the standard combinadic.

use vstd::prelude::*;

verus! {

/// Binomial coefficients `C(n, k)` are precomputed for `n, k < MAX_N`.
/// Morris boards are 16 (six men's) and 24 (nine men's) points, and
/// `k <= men <= 9`, so a 33x33 table covers every lookup.
pub const MAX_N: usize = 33;

/// `C(n, k)` by Pascal's rule.
pub open spec fn binom(n: nat, k: nat) -> nat
    decreases n,
{
    if k == 0 {
        1
    } else if n == 0 {
        0
    } else {
        binom((n - 1) as nat, (k - 1) as nat) + binom((n - 1) as nat, k)
    }
}

/// What the table answers: `C(n, k)`, or 0 when `k > n` or `n` is past the table.
pub open spec fn c_spec(n: int, k: int) -> nat {
    if k > n || n >= MAX_N || n < 0 || k < 0 {
        0
    } else {
        binom(n as nat, k as nat)
    }
}

/// 2^k.
pub open spec fn two_to(k: nat) -> nat
    decreases k,
{
    if k == 0 {
        1
    } else {
        2 * two_to((k - 1) as nat)
    }
}

/// The rank of a point list: `sum_i C(points[i], i + 1)` (as the table answers it).
pub open spec fn rank_spec(points: Seq<u8>) -> nat
    decreases points.len(),
{
    if points.len() == 0 {
        0
    } else {
        rank_spec(points.drop_last()) + c_spec(points.last() as int, points.len() as int)
    }
}

/// `sum_{j >= i} C(out[j], j + 1)`: what the entries from `i` on contribute to the rank.
pub open spec fn suffix_rank(out: Seq<u8>, i: int) -> nat
    decreases out.len() - i,
{
    if i < 0 || i >= out.len() {
        0
    } else {
        c_spec(out[i] as int, i + 1) + suffix_rank(out, i + 1)
    }
}

/// The greedy choice at slot `j` (1-based): the largest `c` below `upper` with
/// `C(c, j) <= rem`, or 0 when there is nothing below `upper`.
pub open spec fn greedy_pick(c: int, upper: int, rem: int, j: int) -> bool {
    if upper <= 0 {
        c == 0
    } else {
        &&& 0 <= c < upper
        &&& c_spec(c, j) <= rem
        &&& forall|c2: int| c < c2 < upper ==> rem < #[trigger] c_spec(c2, j)
    }
}

/// The bound that slot `i` of a `k`-element unranking is chosen under.
pub open spec fn slot_upper(out: Seq<u8>, n: int, i: int) -> int {
    if i + 1 >= out.len() {
        n
    } else {
        out[i + 1] as int
    }
}

/// `out` is what greedy unranking of `rank` over `{0..n-1}` produces: each slot,
/// from the top down, takes the greedy pick under the slot above.
pub open spec fn greedy_unranked(out: Seq<u8>, rank: int, n: int) -> bool {
    forall|i: int|
        0 <= i < out.len() ==> #[trigger] greedy_pick(
            out[i] as int,
            slot_upper(out, n, i),
            rank - suffix_rank(out, i + 1),
            i + 1,
        )
}

/// Bit `p` of `m`.
pub open spec fn bit(m: u32, p: int) -> bool {
    (m >> (p as u32)) & 1u32 == 1u32
}

/// The set bits of `m` below `k`, ascending.
pub open spec fn points_below(m: u32, k: nat) -> Seq<u8>
    decreases k,
{
    if k == 0 {
        Seq::empty()
    } else {
        let prev = points_below(m, (k - 1) as nat);
        if bit(m, k - 1) {
            prev.push((k - 1) as u8)
        } else {
            prev
        }
    }
}

/// The number of set bits of `m` below `k`.
pub open spec fn popcount_below(m: u32, k: nat) -> nat {
    points_below(m, k).len()
}

/// Black's men in the compressed coordinates of the points that `white` leaves
/// empty, for the points below `k`: a point's coordinate is the number of empty
/// points below it.
pub open spec fn compressed_below(white: u32, black: u32, k: nat) -> Seq<u8>
    decreases k,
{
    if k == 0 {
        Seq::empty()
    } else {
        let prev = compressed_below(white, black, (k - 1) as nat);
        if bit(black, k - 1) {
            prev.push((k - 1 - popcount_below(white, (k - 1) as nat)) as u8)
        } else {
            prev
        }
    }
}

/// Scanning the points below `k`, place a black man on each empty point whose
/// empty-coordinate is the next entry of `comp`: the mask so far, and how many
/// entries of `comp` were used.
pub open spec fn expand_below(white: u32, comp: Seq<u8>, k: nat) -> (u32, int)
    decreases k,
{
    if k == 0 {
        (0u32, 0int)
    } else {
        let (m, next) = expand_below(white, comp, (k - 1) as nat);
        let p = k - 1;
        if bit(white, p) {
            (m, next)
        } else if next < comp.len() && comp[next] as int == p - popcount_below(white, (k - 1) as nat) {
            (m | (1u32 << (p as u32)), next + 1)
        } else {
            (m, next)
        }
    }
}

/// `C(n, k)` for `n, k < MAX_N`, built once via Pascal's rule.
pub struct Binom {
    table: Vec<Vec<u64>>,
}

impl Binom {
    #[verifier::type_invariant]
    spec fn inv(self) -> bool {
        &&& self.table@.len() == MAX_N
        &&& forall|a: int|
            0 <= a < MAX_N ==> (#[trigger] self.table@[a])@.len() == MAX_N && forall|b: int|
                0 <= b < MAX_N ==> #[trigger] self.table@[a]@[b] == binom(a as nat, b as nat)
    }

    /// The table's entry for `C(n, k)`.
    pub closed spec fn entry(&self, n: int, k: int) -> nat {
        self.table@[n]@[k] as nat
    }

    /// Build the table: every entry `C(n, k)` with `n, k < MAX_N` holds the
    /// binomial coefficient.
    pub fn new() -> (r: Self)
        ensures
            forall|n: int, k: int| 0 <= n < MAX_N && 0 <= k < MAX_N ==> #[trigger] r.entry(n, k) == binom(n as nat, k as nat),
    {
        let mut table: Vec<Vec<u64>> = Vec::new();
        let mut n: usize = 0;
        while n < MAX_N
            invariant
                n <= MAX_N,
                table@.len() == n,
                forall|a: int|
                    0 <= a < n ==> (#[trigger] table@[a])@.len() == MAX_N && forall|b: int|
                        0 <= b < MAX_N ==> #[trigger] table@[a]@[b] == binom(a as nat, b as nat),
            decreases MAX_N - n,
        {
            let mut row: Vec<u64> = Vec::new();
            let mut k: usize = 0;
            while k < MAX_N
                invariant
                    n < MAX_N,
                    k <= MAX_N,
                    row@.len() == k,
                    table@.len() == n,
                    forall|a: int|
                        0 <= a < n ==> (#[trigger] table@[a])@.len() == MAX_N && forall|b: int|
                            0 <= b < MAX_N ==> #[trigger] table@[a]@[b] == binom(a as nat, b as nat),
                    forall|b: int| 0 <= b < k ==> #[trigger] row@[b] == binom(n as nat, b as nat),
                decreases MAX_N - k,
            {
                let v: u64 = if k == 0 {
                    1
                } else if k <= n {
                    proof {
                        lemma_binom_bound((n - 1) as nat, (k - 1) as nat);
                        lemma_binom_bound((n - 1) as nat, k as nat);
                        lemma_two_to_mono((n - 1) as nat, 31);
                        lemma_two_to_31();
                    }
                    table[n - 1][k - 1] + table[n - 1][k]
                } else {
                    proof {
                        lemma_binom_zero(n as nat, k as nat);
                    }
                    0
                };
                row.push(v);
                k += 1;
            }
            table.push(row);
            n += 1;
        }
        Binom { table }
    }

    /// `C(n, k)`, or 0 when `k > n` (the natural combinatorial value) or `n`
    /// lies past the table.
    pub fn c(&self, n: usize, k: usize) -> (r: u64)
        ensures
            r == c_spec(n as int, k as int),
    {
        proof {
            use_type_invariant(self);
        }
        if k > n || n >= MAX_N {
            0
        } else {
            self.table[n][k]
        }
    }
}

impl Default for Binom {
    fn default() -> (r: Self)
        ensures
            forall|n: int, k: int| 0 <= n < MAX_N && 0 <= k < MAX_N ==> #[trigger] r.entry(n, k) == binom(n as nat, k as nat),
    {
        Self::new()
    }
}

pub proof fn lemma_binom_zero(n: nat, k: nat)
    requires
        k > n,
    ensures
        binom(n, k) == 0,
    decreases n,
{
    if n > 0 {
        lemma_binom_zero((n - 1) as nat, (k - 1) as nat);
        lemma_binom_zero((n - 1) as nat, k);
    }
}

pub proof fn lemma_binom_bound(n: nat, k: nat)
    ensures
        binom(n, k) <= two_to(n),
    decreases n,
{
    if k > 0 && n > 0 {
        lemma_binom_bound((n - 1) as nat, (k - 1) as nat);
        lemma_binom_bound((n - 1) as nat, k);
    } else if k > 0 {
    } else {
        lemma_two_to_pos(n);
    }
}

pub proof fn lemma_two_to_pos(n: nat)
    ensures
        two_to(n) >= 1,
    decreases n,
{
    if n > 0 {
        lemma_two_to_pos((n - 1) as nat);
    }
}

pub proof fn lemma_two_to_mono(a: nat, b: nat)
    requires
        a <= b,
    ensures
        two_to(a) <= two_to(b),
    decreases b,
{
    if a < b {
        lemma_two_to_mono(a, (b - 1) as nat);
        lemma_two_to_pos((b - 1) as nat);
    }
}

pub proof fn lemma_two_to_31()
    ensures
        two_to(31) == 2147483648,
        two_to(32) == 4294967296,
{
    reveal_with_fuel(two_to, 33);
}

/// Every table answer is at most 2^32.
pub proof fn lemma_c_spec_bound(n: int, k: int)
    ensures
        c_spec(n, k) <= 4294967296,
{
    if !(k > n || n >= MAX_N || n < 0 || k < 0) {
        lemma_binom_bound(n as nat, k as nat);
        lemma_two_to_mono(n as nat, 32);
        lemma_two_to_31();
    }
}

pub proof fn lemma_rank_prefix(points: Seq<u8>, i: int)
    requires
        0 <= i <= points.len(),
    ensures
        rank_spec(points.subrange(0, i)) <= rank_spec(points),
    decreases points.len() - i,
{
    if i < points.len() {
        lemma_rank_prefix(points, i + 1);
        assert(points.subrange(0, i + 1).drop_last() =~= points.subrange(0, i));
    } else {
        assert(points.subrange(0, i) =~= points);
    }
}

pub proof fn lemma_rank_bound(points: Seq<u8>)
    ensures
        rank_spec(points) <= points.len() * 4294967296,
    decreases points.len(),
{
    if points.len() > 0 {
        lemma_rank_bound(points.drop_last());
        lemma_c_spec_bound(points.last() as int, points.len() as int);
    }
}

/// Rank a `k`-subset (given as strictly ascending point indices) into
/// `[0, C(n, k))`. `n` is implicit — it only bounds the values, not the formula.
pub fn rank_subset(binom: &Binom, points: &[u8]) -> (r: u64)
    requires
        rank_spec(points@) <= u64::MAX,
    ensures
        r == rank_spec(points@),
{
    let mut rank: u64 = 0;
    let mut i: usize = 0;
    while i < points.len()
        invariant
            i <= points@.len(),
            rank == rank_spec(points@.subrange(0, i as int)),
            rank_spec(points@) <= u64::MAX,
        decreases points@.len() - i,
    {
        proof {
            assert(points@.subrange(0, i as int + 1).drop_last() =~= points@.subrange(0, i as int));
            lemma_rank_prefix(points@, i as int + 1);
        }
        rank = rank + binom.c(points[i] as usize, i + 1);
        i += 1;
    }
    assert(points@.subrange(0, i as int) =~= points@);
    rank
}

proof fn lemma_suffix_rank_step(out: Seq<u8>, out2: Seq<u8>, i: int)
    requires
        0 <= i < out.len(),
        out2.len() == out.len(),
        forall|j: int| i < j < out.len() ==> out2[j] == out[j],
    ensures
        suffix_rank(out2, i + 1) == suffix_rank(out, i + 1),
    decreases out.len() - i,
{
    if i + 1 < out.len() {
        lemma_suffix_rank_step(out, out2, i + 1);
    }
}

/// Inverse of [`rank_subset`]: the `rank`-th `k`-subset of `{0, ..., n-1}`,
/// returned as ascending point indices. Greedy from the largest element down.
pub fn unrank_subset(binom: &Binom, rank: u64, n: usize, k: usize) -> (out: Vec<u8>)
    requires
        n <= 256,
    ensures
        out@.len() == k,
        greedy_unranked(out@, rank as int, n as int),
        out@ == unranked(rank as int, n as int, k as nat),
        rank < c_spec(n as int, k as int) && n <= 32 ==> rank_spec(out@) == rank && ascending_below(
            out@,
            n as int,
        ),
{
    let mut out: Vec<u8> = Vec::new();
    let mut z: usize = 0;
    while z < k
        invariant
            z <= k,
            out@.len() == z,
        decreases k - z,
    {
        out.push(0);
        z += 1;
    }
    // Fill positions from the top (largest element first).
    let mut rem = rank;
    let mut upper = n;  // candidate values are strictly below `upper`
    let mut i = k;
    while i > 0
        invariant
            i <= k,
            out@.len() == k,
            upper <= n,
            n <= 256,
            upper == slot_upper(out@, n as int, i as int - 1),
            rem == rank - suffix_rank(out@, i as int),
            forall|j: int|
                i <= j < k ==> #[trigger] greedy_pick(
                    out@[j] as int,
                    slot_upper(out@, n as int, j),
                    rank - suffix_rank(out@, j + 1),
                    j + 1,
                ),
        decreases i,
    {
        i -= 1;
        // Largest c < upper with C(c, i+1) <= rank.
        let mut c = upper;
        while c > 0
            invariant_except_break
                forall|c2: int| c <= c2 < upper ==> rem < #[trigger] c_spec(c2, i as int + 1),
            invariant
                c <= upper,
                i < k,
                forall|c2: int| c < c2 < upper ==> rem < #[trigger] c_spec(c2, i as int + 1),
            ensures
                c <= upper,
                forall|c2: int| c < c2 < upper ==> rem < #[trigger] c_spec(c2, i as int + 1),
                upper > 0 ==> c < upper && c_spec(c as int, i as int + 1) <= rem,
                upper == 0 ==> c == 0,
            decreases c,
        {
            c -= 1;
            if binom.c(c, i + 1) <= rem {
                break;
            }
        }
        proof {
            if upper > 0 && c == 0 {
                assert(c_spec(0, i as int + 1) == 0);
            }
        }
        let ghost before = out@;
        let pick = binom.c(c, i + 1);
        out.set(i, c as u8);
        proof {
            lemma_suffix_rank_step(before, out@, i as int);
            assert(suffix_rank(out@, i as int) == c_spec(c as int, i as int + 1) + suffix_rank(out@, i as int + 1));
            assert forall|j: int|
                i <= j < k implies #[trigger] greedy_pick(
                    out@[j] as int,
                    slot_upper(out@, n as int, j),
                    rank - suffix_rank(out@, j + 1),
                    j + 1,
                ) by {
                if j > i {
                    lemma_suffix_rank_step(before, out@, j);
                    assert(out@[j] == before[j]);
                    assert(slot_upper(out@, n as int, j) == slot_upper(before, n as int, j));
                } else {
                    assert(slot_upper(out@, n as int, j) == slot_upper(before, n as int, j));
                }
            }
        }
        rem = rem - pick;
        upper = c;
    }
    proof {
        assert forall|j: int|
            0 <= j < out@.len() implies #[trigger] greedy_pick(
                out@[j] as int,
                slot_upper(out@, n as int, j),
                rank as int - suffix_rank(out@, j + 1),
                j + 1,
            ) by {}
        lemma_greedy_unique(out@, unranked(rank as int, n as int, k as nat), rank as int, n as int);
        if rank < c_spec(n as int, k as int) && n <= 32 {
            lemma_unrank_correct(out@, rank as int, n as int);
        }
    }
    out
}

/// Convert a bitmask over `n` points into ascending point indices.
pub fn mask_to_points(mask: u32) -> (pts: Vec<u8>)
    ensures
        pts@ == points_below(mask, 32),
{
    let mut pts: Vec<u8> = Vec::new();
    let mut p: u32 = 0;
    while p < 32
        invariant
            p <= 32,
            pts@ == points_below(mask, p as nat),
        decreases 32 - p,
    {
        if (mask >> p) & 1 == 1 {
            pts.push(p as u8);
        }
        p += 1;
    }
    pts
}

pub proof fn lemma_points_below_len(m: u32, k: nat)
    ensures
        points_below(m, k).len() <= k,
        forall|j: int| 0 <= j < points_below(m, k).len() ==> (#[trigger] points_below(m, k)[j]) < k,
    decreases k,
{
    if k > 0 {
        lemma_points_below_len(m, (k - 1) as nat);
    }
}

pub proof fn lemma_compressed_len(white: u32, black: u32, k: nat)
    ensures
        compressed_below(white, black, k).len() <= k,
        forall|j: int|
            0 <= j < compressed_below(white, black, k).len() ==> (#[trigger] compressed_below(
                white,
                black,
                k,
            )[j]) < k,
    decreases k,
{
    if k > 0 {
        lemma_compressed_len(white, black, (k - 1) as nat);
        lemma_points_below_len(white, (k - 1) as nat);
    }
}

/// Rank `black` within the points left empty by `white`. Black men only ever sit
/// on points not occupied by white, so they are ranked in the *compressed*
/// coordinate space of the `n - popcount(white)` empty points — this is what
/// makes the two-colour index dense (no wasted slots for overlap).
pub fn rank_black_in_empties(binom: &Binom, white: u32, black: u32) -> (r: u64)
    ensures
        r == rank_spec(compressed_below(white, black, 32)),
{
    // Compressed coordinate of an absolute point = number of empty points below it.
    let mut compressed: Vec<u8> = Vec::new();
    let mut white_below: u32 = 0;
    let mut p: u32 = 0;
    while p < 32
        invariant
            p <= 32,
            compressed@ == compressed_below(white, black, p as nat),
            white_below == popcount_below(white, p as nat),
            white_below <= p,
        decreases 32 - p,
    {
        proof {
            lemma_points_below_len(white, p as nat);
        }
        if (black >> p) & 1 == 1 {
            // empties below p = p minus (white men below p)
            compressed.push((p - white_below) as u8);
        }
        if (white >> p) & 1 == 1 {
            white_below += 1;
        }
        p += 1;
    }
    proof {
        lemma_compressed_len(white, black, 32);
        lemma_rank_bound(compressed@);
    }
    rank_subset(binom, compressed.as_slice())
}

/// Inverse of [`rank_black_in_empties`]: given `white` and a black rank, recover
/// the absolute `black` bitmask. `n` is the board size, `nb` the number of black men.
pub fn unrank_black_in_empties(binom: &Binom, white: u32, rank: u64, n: usize, nb: usize) -> (black: u32)
    requires
        n <= 32,
        popcount_below(white, 32) <= n,
    ensures
        black == expand_below(white, unranked(rank as int, n - popcount_below(white, 32), nb as nat), n as nat).0,
        unranked(rank as int, n - popcount_below(white, 32), nb as nat).len() == nb,
        greedy_unranked(unranked(rank as int, n - popcount_below(white, 32), nb as nat), rank as int, n
            - popcount_below(white, 32)),
{
    let empties_count = n - popcount(white);
    let compressed = unrank_subset(binom, rank, empties_count, nb);
    // Map each compressed coordinate back to its absolute point: the c-th empty point.
    let mut black: u32 = 0;
    let mut empty_idx: u32 = 0;  // running index among empty points
    let mut next: usize = 0;  // next compressed coordinate to place
    let mut p: u32 = 0;
    while p < n as u32
        invariant
            n <= 32,
            p <= n,
            (black, next as int) == expand_below(white, compressed@, p as nat),
            empty_idx == p - popcount_below(white, p as nat),
            popcount_below(white, p as nat) <= p,
            next <= compressed@.len(),
        decreases n - p,
    {
        proof {
            lemma_points_below_len(white, p as nat + 1);
        }
        if (white >> p) & 1 == 1 {
            p += 1;
            continue;  // occupied by white, not an empty slot
        }
        if next < compressed.len() && compressed[next] as u32 == empty_idx {
            black |= 1 << p;
            next += 1;
        }
        empty_idx += 1;
        p += 1;
    }
    black
}

/// The number of set bits of `m`.
pub fn popcount(m: u32) -> (r: usize)
    ensures
        r == popcount_below(m, 32),
        r <= 32,
{
    let pts = mask_to_points(m);
    proof {
        lemma_points_below_len(m, 32);
    }
    pts.len()
}

/// `s` is strictly ascending with every entry below `m`.
pub open spec fn ascending_below(s: Seq<u8>, m: int) -> bool {
    &&& forall|i: int, j: int| 0 <= i < j < s.len() ==> s[i] < s[j]
    &&& forall|i: int| 0 <= i < s.len() ==> (#[trigger] s[i] as int) < m
}

/// The subset that greedy unranking of `rank` into `k` points below `n`
/// produces.
pub open spec fn unranked(rank: int, n: int, k: nat) -> Seq<u8> {
    choose|out: Seq<u8>| out.len() == k && greedy_unranked(out, rank, n)
}

/// The largest `c` below `upper` with `C(c, j) <= rem`, or 0 when there is none.
pub open spec fn top_pick(upper: int, rem: int, j: int) -> int
    decreases upper,
{
    if upper <= 0 {
        0
    } else if c_spec(upper - 1, j) <= rem {
        upper - 1
    } else {
        top_pick(upper - 1, rem, j)
    }
}

proof fn lemma_top_pick(upper: int, rem: int, j: int)
    requires
        rem >= 0,
        j >= 1,
    ensures
        greedy_pick(top_pick(upper, rem, j), upper, rem, j),
    decreases upper,
{
    if upper > 0 && c_spec(upper - 1, j) > rem {
        lemma_top_pick(upper - 1, rem, j);
        if upper - 1 <= 0 {
            assert(c_spec(0, j) == 0);
        }
    }
}

/// Greedy unranking spelled out: the top slot takes the greedy pick under
/// `n`, and the slots below unrank what is left under it.
pub open spec fn greedy_out(rank: int, n: int, k: nat) -> Seq<u8>
    decreases k,
{
    if k == 0 {
        Seq::empty()
    } else {
        let c = top_pick(n, rank, k as int);
        greedy_out(rank - c_spec(c, k as int), c, (k - 1) as nat).push(c as u8)
    }
}

proof fn lemma_suffix_push(p: Seq<u8>, c: u8, i: int)
    requires
        0 <= i <= p.len(),
    ensures
        suffix_rank(p.push(c), i) == suffix_rank(p, i) + c_spec(c as int, p.len() as int + 1),
    decreases p.len() - i,
{
    let out = p.push(c);
    if i < p.len() {
        lemma_suffix_push(p, c, i + 1);
        assert(out[i] == p[i]);
    } else {
        assert(out[i] == c);
        assert(suffix_rank(out, i + 1) == 0);
    }
}

proof fn lemma_greedy_out(rank: int, n: int, k: nat)
    requires
        rank >= 0,
        0 <= n <= 256,
    ensures
        greedy_out(rank, n, k).len() == k,
        greedy_unranked(greedy_out(rank, n, k), rank, n),
    decreases k,
{
    if k > 0 {
        let c = top_pick(n, rank, k as int);
        lemma_top_pick(n, rank, k as int);
        let rest = rank - c_spec(c, k as int);
        if n <= 0 {
            assert(c == 0);
            assert(c_spec(0, k as int) == 0);
        }
        assert(0 <= c <= 255);
        lemma_greedy_out(rest, c, (k - 1) as nat);
        let p = greedy_out(rest, c, (k - 1) as nat);
        let out = p.push(c as u8);
        assert(out == greedy_out(rank, n, k));
        assert forall|i: int| 0 <= i < out.len() implies #[trigger] greedy_pick(
            out[i] as int,
            slot_upper(out, n, i),
            rank - suffix_rank(out, i + 1),
            i + 1,
        ) by {
            if i < k - 1 {
                lemma_suffix_push(p, c as u8, i + 1);
                assert(out[i] == p[i]);
                assert(slot_upper(out, n, i) == slot_upper(p, c, i));
                assert(greedy_pick(p[i] as int, slot_upper(p, c, i), rest - suffix_rank(p, i + 1), i + 1));
            } else {
                assert(suffix_rank(p, k as int) == 0);
            }
        }
    }
}

/// Greedy unranking always has an answer: `unranked` is `k` greedy picks.
pub proof fn lemma_unranked_exists(rank: int, n: int, k: nat)
    requires
        rank >= 0,
        0 <= n <= 256,
    ensures
        unranked(rank, n, k).len() == k,
        greedy_unranked(unranked(rank, n, k), rank, n),
{
    lemma_greedy_out(rank, n, k);
}

pub proof fn lemma_binom_pos(n: nat, k: nat)
    requires
        k <= n,
    ensures
        binom(n, k) >= 1,
    decreases n,
{
    if k > 0 {
        lemma_binom_pos((n - 1) as nat, (k - 1) as nat);
    }
}

pub proof fn lemma_binom_mono(a: nat, b: nat, k: nat)
    requires
        a <= b,
    ensures
        binom(a, k) <= binom(b, k),
    decreases b,
{
    if a < b {
        lemma_binom_mono(a, (b - 1) as nat, k);
    }
}

/// Pascal's rule as the table answers it.
proof fn lemma_c_pascal(c: int, j: int)
    requires
        0 <= c < 32,
        j >= 1,
    ensures
        c_spec(c + 1, j) == c_spec(c, j - 1) + c_spec(c, j),
{
    if j - 1 > c {
        lemma_binom_zero(c as nat, (j - 1) as nat);
        lemma_binom_zero((c + 1) as nat, j as nat);
    } else if j > c {
        lemma_binom_zero(c as nat, j as nat);
    }
}

proof fn lemma_c_mono(a: int, b: int, j: int)
    requires
        0 <= a <= b < 33,
        j >= 0,
    ensures
        c_spec(a, j) <= c_spec(b, j),
{
    lemma_binom_mono(a as nat, b as nat, j as nat);
    if j > a {
        lemma_binom_zero(a as nat, j as nat);
    }
}

/// The rank of an ascending subset of `{0..m-1}` lies below `C(m, k)`.
pub proof fn lemma_rank_below(s: Seq<u8>, m: int)
    requires
        ascending_below(s, m),
        0 <= m <= 32,
    ensures
        rank_spec(s) < c_spec(m, s.len() as int),
    decreases s.len(),
{
    if s.len() > 0 {
        let k = s.len() as int;
        let last = s.last() as int;
        let p = s.drop_last();
        assert(ascending_below(p, last)) by {
            assert forall|i: int| 0 <= i < p.len() implies (#[trigger] p[i] as int) < last by {
                assert(s[i] < s[k - 1]);
            }
        }
        lemma_rank_below(p, last);
        lemma_c_pascal(last, k);
        lemma_c_mono(last + 1, m, k);
    }
}

/// The rank through slot `i` plus what the later slots contribute is the rank.
proof fn lemma_rank_split(s: Seq<u8>, i: int)
    requires
        0 <= i <= s.len(),
    ensures
        rank_spec(s.subrange(0, i)) + suffix_rank(s, i) == rank_spec(s),
    decreases s.len() - i,
{
    if i == s.len() {
        assert(s.subrange(0, i) =~= s);
    } else {
        lemma_rank_split(s, i + 1);
        assert(s.subrange(0, i + 1).drop_last() =~= s.subrange(0, i));
    }
}

/// The greedy pick is unique.
proof fn lemma_greedy_pick_unique(c1: int, c2: int, upper: int, rem: int, j: int)
    requires
        greedy_pick(c1, upper, rem, j),
        greedy_pick(c2, upper, rem, j),
    ensures
        c1 == c2,
{
    if upper > 0 && c1 != c2 {
        if c1 < c2 {
            assert(rem < c_spec(c2, j));
        } else {
            assert(rem < c_spec(c1, j));
        }
    }
}

proof fn lemma_suffix_agree(a: Seq<u8>, b: Seq<u8>, i: int)
    requires
        a.len() == b.len(),
        0 <= i,
        forall|j: int| i <= j < a.len() ==> a[j] == b[j],
    ensures
        suffix_rank(a, i) == suffix_rank(b, i),
    decreases a.len() - i,
{
    if i < a.len() {
        lemma_suffix_agree(a, b, i + 1);
    }
}

/// Slots `i..` of two greedy unrankings of one rank agree.
proof fn lemma_greedy_agree_from(a: Seq<u8>, b: Seq<u8>, rank: int, n: int, i: int)
    requires
        greedy_unranked(a, rank, n),
        greedy_unranked(b, rank, n),
        a.len() == b.len(),
        0 <= i <= a.len(),
    ensures
        forall|j: int| i <= j < a.len() ==> a[j] == b[j],
    decreases a.len() - i,
{
    if i < a.len() {
        lemma_greedy_agree_from(a, b, rank, n, i + 1);
        lemma_suffix_agree(a, b, i + 1);
        assert(slot_upper(a, n, i) == slot_upper(b, n, i));
        assert(greedy_pick(a[i] as int, slot_upper(a, n, i), rank - suffix_rank(a, i + 1), i + 1));
        assert(greedy_pick(b[i] as int, slot_upper(b, n, i), rank - suffix_rank(b, i + 1), i + 1));
        lemma_greedy_pick_unique(a[i] as int, b[i] as int, slot_upper(a, n, i), rank - suffix_rank(a, i + 1), i + 1);
    }
}

/// Greedy unranking has one outcome.
pub proof fn lemma_greedy_unique(a: Seq<u8>, b: Seq<u8>, rank: int, n: int)
    requires
        greedy_unranked(a, rank, n),
        greedy_unranked(b, rank, n),
        a.len() == b.len(),
    ensures
        a == b,
{
    lemma_greedy_agree_from(a, b, rank, n, 0);
    assert(a =~= b);
}

/// The bound above slot `i - 1` of `out`: the next entry, or `n` at the top.
pub open spec fn bound_at(out: Seq<u8>, n: int, i: int) -> int {
    if i >= out.len() {
        n
    } else {
        out[i] as int
    }
}

/// From the top slot down to slot `i`: what is left to place fits under the
/// slot above, and each slot lies under the next.
proof fn lemma_unrank_from(out: Seq<u8>, rank: int, n: int, i: int)
    requires
        greedy_unranked(out, rank, n),
        0 <= rank < c_spec(n, out.len() as int),
        0 <= n <= 32,
        0 <= i <= out.len(),
    ensures
        0 <= rank - suffix_rank(out, i) < c_spec(bound_at(out, n, i), i),
        forall|j: int| #![trigger out[j]] i <= j < out.len() ==> (out[j] as int) < bound_at(out, n, j + 1),
    decreases out.len() - i,
{
    let k = out.len() as int;
    if i < k {
        lemma_unrank_from(out, rank, n, i + 1);
        let upper = slot_upper(out, n, i);
        assert(upper == bound_at(out, n, i + 1));
        let rem = rank - suffix_rank(out, i + 1);
        assert(greedy_pick(out[i] as int, upper, rem, i + 1));
        if upper <= 0 {
            assert(c_spec(upper, i + 1) == 0);
        }
        let c = out[i] as int;
        assert(suffix_rank(out, i) == c_spec(c, i + 1) + suffix_rank(out, i + 1));
        lemma_c_pascal(c, i + 1);
        if c + 1 < upper {
            assert(rem < c_spec(c + 1, i + 1));
        }
    }
}

proof fn lemma_bound_chain(out: Seq<u8>, n: int, a: int, b: int)
    requires
        0 <= a < b <= out.len(),
        forall|j: int| #![trigger out[j]] 0 <= j < out.len() ==> (out[j] as int) < bound_at(out, n, j + 1),
    ensures
        (out[a] as int) < bound_at(out, n, b),
    decreases b - a,
{
    if a + 1 < b {
        lemma_bound_chain(out, n, a, b - 1);
        assert((out[b - 1] as int) < bound_at(out, n, b - 1 + 1));
    } else {
        assert((out[a] as int) < bound_at(out, n, a + 1));
    }
}

/// Unranking a rank below `C(n, k)` gives an ascending subset of `{0..n-1}`
/// whose rank is that rank.
pub proof fn lemma_unrank_correct(out: Seq<u8>, rank: int, n: int)
    requires
        greedy_unranked(out, rank, n),
        0 <= rank < c_spec(n, out.len() as int),
        0 <= n <= 32,
    ensures
        rank_spec(out) == rank,
        ascending_below(out, n),
{
    lemma_unrank_from(out, rank, n, 0);
    assert(c_spec(bound_at(out, n, 0), 0) == 1);
    lemma_rank_split(out, 0);
    assert(out.subrange(0, 0) =~= Seq::<u8>::empty());
    assert forall|a: int, b: int| 0 <= a < b < out.len() implies out[a] < out[b] by {
        lemma_bound_chain(out, n, a, b);
    }
    assert forall|a: int| 0 <= a < out.len() implies (#[trigger] out[a] as int) < n by {
        lemma_bound_chain(out, n, a, out.len() as int);
    }
}

/// Ranking then unranking gives back an ascending subset of `{0..n-1}`, and
/// its rank lies below `C(n, k)`.
pub proof fn lemma_rank_then_unrank(pts: Seq<u8>, n: int)
    requires
        ascending_below(pts, n),
        0 <= n <= 32,
    ensures
        unranked(rank_spec(pts) as int, n, pts.len()) == pts,
        rank_spec(pts) < c_spec(n, pts.len() as int),
{
    lemma_ranked_is_greedy(pts, n);
    let out = unranked(rank_spec(pts) as int, n, pts.len());
    lemma_greedy_unique(out, pts, rank_spec(pts) as int, n);
    lemma_rank_below(pts, n);
}

/// An ascending subset is what greedy unranking of its own rank produces.
pub proof fn lemma_ranked_is_greedy(pts: Seq<u8>, n: int)
    requires
        ascending_below(pts, n),
        0 <= n <= 32,
    ensures
        greedy_unranked(pts, rank_spec(pts) as int, n),
{
    let rank = rank_spec(pts) as int;
    assert forall|i: int| 0 <= i < pts.len() implies #[trigger] greedy_pick(
        pts[i] as int,
        slot_upper(pts, n, i),
        rank - suffix_rank(pts, i + 1),
        i + 1,
    ) by {
        let c = pts[i] as int;
        let upper = slot_upper(pts, n, i);
        lemma_rank_split(pts, i + 1);
        let pre = pts.subrange(0, i);
        assert(pts.subrange(0, i + 1).drop_last() =~= pre);
        assert(rank - suffix_rank(pts, i + 1) == rank_spec(pre) + c_spec(c, i + 1));
        assert(ascending_below(pre, c)) by {
            assert forall|x: int| 0 <= x < pre.len() implies (#[trigger] pre[x] as int) < c by {
                assert(pts[x] < pts[i]);
            }
        }
        lemma_rank_below(pre, c);
        lemma_c_pascal(c, i + 1);
        if i + 1 < pts.len() {
            assert(pts[i] < pts[i + 1]);
        }
        assert forall|c2: int| c < c2 < upper implies rank - suffix_rank(pts, i + 1) < #[trigger] c_spec(c2, i + 1) by {
            lemma_c_mono(c + 1, c2, i + 1);
        }
    }
}

/// The points of `pts` as a mask.
pub open spec fn mask_of(pts: Seq<u8>) -> u32
    decreases pts.len(),
{
    if pts.len() == 0 {
        0
    } else {
        mask_of(pts.drop_last()) | (1u32 << (pts.last() as u32))
    }
}

/// The bits of `m` lie below `n`.
pub open spec fn within32(m: u32, n: int) -> bool {
    forall|p: int| n <= p < 32 ==> !#[trigger] bit(m, p)
}

pub proof fn lemma_bit_or_one(m: u32, p: int, q: int)
    requires
        0 <= p < 32,
        0 <= q < 32,
    ensures
        bit(m | (1u32 << (p as u32)), q) == (bit(m, q) || q == p),
{
    let pp = p as u32;
    let qq = q as u32;
    assert((((m | (1u32 << pp)) >> qq) & 1u32 == 1u32) == (((m >> qq) & 1u32 == 1u32) || qq == pp)) by (bit_vector)
        requires
            pp < 32,
            qq < 32,
    ;
}

pub proof fn lemma_bit_zero(q: int)
    requires
        0 <= q < 32,
    ensures
        !bit(0u32, q),
{
    let qq = q as u32;
    assert((0u32 >> qq) & 1u32 != 1u32) by (bit_vector);
}

proof fn lemma_bits_ext_raw(a: u32, b: u32)
    requires
        ((a >> 0u32) & 1u32 == (b >> 0u32) & 1u32) && ((a >> 1u32) & 1u32 == (b >> 1u32) & 1u32) && ((a >> 2u32) & 1u32 == (b >> 2u32) & 1u32) && ((a >> 3u32) & 1u32 == (b >> 3u32) & 1u32) && ((a >> 4u32) & 1u32 == (b >> 4u32) & 1u32) && ((a >> 5u32) & 1u32 == (b >> 5u32) & 1u32) && ((a >> 6u32) & 1u32 == (b >> 6u32) & 1u32) && ((a >> 7u32) & 1u32 == (b >> 7u32) & 1u32) && ((a >> 8u32) & 1u32 == (b >> 8u32) & 1u32) && ((a >> 9u32) & 1u32 == (b >> 9u32) & 1u32) && ((a >> 10u32) & 1u32 == (b >> 10u32) & 1u32) && ((a >> 11u32) & 1u32 == (b >> 11u32) & 1u32) && ((a >> 12u32) & 1u32 == (b >> 12u32) & 1u32) && ((a >> 13u32) & 1u32 == (b >> 13u32) & 1u32) && ((a >> 14u32) & 1u32 == (b >> 14u32) & 1u32) && ((a >> 15u32) & 1u32 == (b >> 15u32) & 1u32) && ((a >> 16u32) & 1u32 == (b >> 16u32) & 1u32) && ((a >> 17u32) & 1u32 == (b >> 17u32) & 1u32) && ((a >> 18u32) & 1u32 == (b >> 18u32) & 1u32) && ((a >> 19u32) & 1u32 == (b >> 19u32) & 1u32) && ((a >> 20u32) & 1u32 == (b >> 20u32) & 1u32) && ((a >> 21u32) & 1u32 == (b >> 21u32) & 1u32) && ((a >> 22u32) & 1u32 == (b >> 22u32) & 1u32) && ((a >> 23u32) & 1u32 == (b >> 23u32) & 1u32) && ((a >> 24u32) & 1u32 == (b >> 24u32) & 1u32) && ((a >> 25u32) & 1u32 == (b >> 25u32) & 1u32) && ((a >> 26u32) & 1u32 == (b >> 26u32) & 1u32) && ((a >> 27u32) & 1u32 == (b >> 27u32) & 1u32) && ((a >> 28u32) & 1u32 == (b >> 28u32) & 1u32) && ((a >> 29u32) & 1u32 == (b >> 29u32) & 1u32) && ((a >> 30u32) & 1u32 == (b >> 30u32) & 1u32) && ((a >> 31u32) & 1u32 == (b >> 31u32) & 1u32),
    ensures
        a == b,
{
    assert(a == b) by (bit_vector)
        requires
            ((a >> 0u32) & 1u32 == (b >> 0u32) & 1u32) && ((a >> 1u32) & 1u32 == (b >> 1u32) & 1u32) && ((a >> 2u32) & 1u32 == (b >> 2u32) & 1u32) && ((a >> 3u32) & 1u32 == (b >> 3u32) & 1u32) && ((a >> 4u32) & 1u32 == (b >> 4u32) & 1u32) && ((a >> 5u32) & 1u32 == (b >> 5u32) & 1u32) && ((a >> 6u32) & 1u32 == (b >> 6u32) & 1u32) && ((a >> 7u32) & 1u32 == (b >> 7u32) & 1u32) && ((a >> 8u32) & 1u32 == (b >> 8u32) & 1u32) && ((a >> 9u32) & 1u32 == (b >> 9u32) & 1u32) && ((a >> 10u32) & 1u32 == (b >> 10u32) & 1u32) && ((a >> 11u32) & 1u32 == (b >> 11u32) & 1u32) && ((a >> 12u32) & 1u32 == (b >> 12u32) & 1u32) && ((a >> 13u32) & 1u32 == (b >> 13u32) & 1u32) && ((a >> 14u32) & 1u32 == (b >> 14u32) & 1u32) && ((a >> 15u32) & 1u32 == (b >> 15u32) & 1u32) && ((a >> 16u32) & 1u32 == (b >> 16u32) & 1u32) && ((a >> 17u32) & 1u32 == (b >> 17u32) & 1u32) && ((a >> 18u32) & 1u32 == (b >> 18u32) & 1u32) && ((a >> 19u32) & 1u32 == (b >> 19u32) & 1u32) && ((a >> 20u32) & 1u32 == (b >> 20u32) & 1u32) && ((a >> 21u32) & 1u32 == (b >> 21u32) & 1u32) && ((a >> 22u32) & 1u32 == (b >> 22u32) & 1u32) && ((a >> 23u32) & 1u32 == (b >> 23u32) & 1u32) && ((a >> 24u32) & 1u32 == (b >> 24u32) & 1u32) && ((a >> 25u32) & 1u32 == (b >> 25u32) & 1u32) && ((a >> 26u32) & 1u32 == (b >> 26u32) & 1u32) && ((a >> 27u32) & 1u32 == (b >> 27u32) & 1u32) && ((a >> 28u32) & 1u32 == (b >> 28u32) & 1u32) && ((a >> 29u32) & 1u32 == (b >> 29u32) & 1u32) && ((a >> 30u32) & 1u32 == (b >> 30u32) & 1u32) && ((a >> 31u32) & 1u32 == (b >> 31u32) & 1u32),
    ;
}

/// Masks with the same 32 bits are equal.
pub proof fn lemma_bits_ext(a: u32, b: u32)
    requires
        forall|q: int| 0 <= q < 32 ==> #[trigger] bit(a, q) == bit(b, q),
    ensures
        a == b,
{
    assert forall|q: u32| q < 32 implies (a >> q) & 1u32 == (b >> q) & 1u32 by {
        assert(bit(a, q as int) == bit(b, q as int));
        assert(((a >> q) & 1u32 == 1u32 || (a >> q) & 1u32 == 0u32) && ((b >> q) & 1u32 == 1u32 || (b >> q)
            & 1u32 == 0u32)) by (bit_vector);
    }
    lemma_bits_ext_raw(a, b);
}

/// `s` is strictly ascending.
pub open spec fn strictly_ascending(s: Seq<u8>) -> bool {
    forall|i: int, j: int| 0 <= i < j < s.len() ==> s[i] < s[j]
}

/// Two strictly ascending sequences with the same entries are equal.
pub proof fn lemma_ascending_ext(a: Seq<u8>, b: Seq<u8>)
    requires
        strictly_ascending(a),
        strictly_ascending(b),
        forall|x: u8| a.contains(x) <==> b.contains(x),
    ensures
        a == b,
    decreases a.len(),
{
    if a.len() == 0 {
        if b.len() > 0 {
            assert(b.contains(b[0]));
        }
        assert(a =~= b);
    } else if b.len() == 0 {
        assert(a.contains(a[0]));
    } else {
        let la = a.last();
        let lb = b.last();
        assert(a.contains(la));
        assert(b.contains(lb));
        let ia = choose|i: int| 0 <= i < a.len() && a[i] == lb;
        let ib = choose|i: int| 0 <= i < b.len() && b[i] == la;
        if ia < a.len() - 1 {
            assert(a[ia] < la);
        }
        if ib < b.len() - 1 {
            assert(b[ib] < lb);
        }
        assert(la == lb);
        let a2 = a.drop_last();
        let b2 = b.drop_last();
        assert forall|x: u8| a2.contains(x) <==> b2.contains(x) by {
            if a2.contains(x) {
                let i = choose|i: int| 0 <= i < a2.len() && a2[i] == x;
                assert(a[i] < la);
                assert(b.contains(x));
                let j = choose|j: int| 0 <= j < b.len() && b[j] == x;
                assert(j != b.len() - 1);
                assert(b2[j] == x);
            }
            if b2.contains(x) {
                let i = choose|i: int| 0 <= i < b2.len() && b2[i] == x;
                assert(b[i] < lb);
                assert(a.contains(x));
                let j = choose|j: int| 0 <= j < a.len() && a[j] == x;
                assert(j != a.len() - 1);
                assert(a2[j] == x);
            }
        }
        lemma_ascending_ext(a2, b2);
        assert(a =~= a2.push(la));
        assert(b =~= b2.push(lb));
    }
}

/// The bits of `mask_of(pts)` are the points of `pts`.
pub proof fn lemma_mask_of_bits(pts: Seq<u8>, q: int)
    requires
        forall|i: int| 0 <= i < pts.len() ==> (#[trigger] pts[i]) < 32,
        0 <= q < 32,
    ensures
        bit(mask_of(pts), q) == pts.contains(q as u8),
    decreases pts.len(),
{
    if pts.len() == 0 {
        lemma_bit_zero(q);
    } else {
        let p = pts.drop_last();
        lemma_mask_of_bits(p, q);
        lemma_bit_or_one(mask_of(p), pts.last() as int, q);
        if p.contains(q as u8) {
            let i = choose|i: int| 0 <= i < p.len() && p[i] == q as u8;
            assert(pts[i] == q as u8);
        }
        if pts.contains(q as u8) {
            let i = choose|i: int| 0 <= i < pts.len() && pts[i] == q as u8;
            if i < pts.len() - 1 {
                assert(p[i] == q as u8);
            }
        }
    }
}

/// The points of `m` below `k`: ascending, below `k`, exactly the set bits.
pub proof fn lemma_points_below_bits(m: u32, k: nat)
    requires
        k <= 32,
    ensures
        ascending_below(points_below(m, k), k as int),
        forall|q: int| 0 <= q < 32 ==> (points_below(m, k).contains(q as u8) <==> (q < k && #[trigger] bit(m, q))),
    decreases k,
{
    if k > 0 {
        lemma_points_below_bits(m, (k - 1) as nat);
        let prev = points_below(m, (k - 1) as nat);
        let cur = points_below(m, k);
        assert forall|q: int| 0 <= q < 32 implies (cur.contains(q as u8) <==> (q < k && #[trigger] bit(m, q))) by {
            if bit(m, k - 1) {
                assert(cur == prev.push((k - 1) as u8));
                if cur.contains(q as u8) {
                    let i = choose|i: int| 0 <= i < cur.len() && cur[i] == q as u8;
                    if i < prev.len() {
                        assert(prev[i] == q as u8);
                    }
                }
                if q < k && bit(m, q) {
                    if q == k - 1 {
                        assert(cur[cur.len() - 1] == q as u8);
                    } else {
                        assert(prev.contains(q as u8));
                        let i = choose|i: int| 0 <= i < prev.len() && prev[i] == q as u8;
                        assert(cur[i] == q as u8);
                    }
                }
            }
        }
    }
}

/// A mask is the mask of its own points.
pub proof fn lemma_mask_of_points(m: u32)
    ensures
        mask_of(points_below(m, 32)) == m,
{
    let pts = points_below(m, 32);
    lemma_points_below_bits(m, 32);
    assert forall|q: int| 0 <= q < 32 implies #[trigger] bit(mask_of(pts), q) == bit(m, q) by {
        lemma_mask_of_bits(pts, q);
    }
    lemma_bits_ext(mask_of(pts), m);
}

/// An ascending list of points is the point list of its own mask.
pub proof fn lemma_points_of_mask(pts: Seq<u8>)
    requires
        ascending_below(pts, 32),
    ensures
        points_below(mask_of(pts), 32) == pts,
        popcount_below(mask_of(pts), 32) == pts.len(),
{
    let m = mask_of(pts);
    lemma_points_below_bits(m, 32);
    let pb = points_below(m, 32);
    assert forall|x: u8| pb.contains(x) <==> pts.contains(x) by {
        if pb.contains(x) {
            let i = choose|i: int| 0 <= i < pb.len() && pb[i] == x;
            assert((x as int) < 32);
            lemma_mask_of_bits(pts, x as int);
        }
        if pts.contains(x) {
            let i = choose|i: int| 0 <= i < pts.len() && pts[i] == x;
            assert((x as int) < 32);
            lemma_mask_of_bits(pts, x as int);
        }
    }
    lemma_ascending_ext(pb, pts);
}

/// `white` and `black` share no point.
pub open spec fn disjoint32(white: u32, black: u32) -> bool {
    forall|p: int| 0 <= p < 32 ==> !(#[trigger] bit(white, p) && bit(black, p))
}

/// The empty points below `k` (those `white` leaves free).
pub open spec fn empties_below(white: u32, k: int) -> int {
    k - popcount_below(white, k as nat)
}

pub proof fn lemma_popcount_step(m: u32, k: nat)
    requires
        k > 0,
    ensures
        popcount_below(m, k) == popcount_below(m, (k - 1) as nat) + (if bit(m, k - 1) { 1int } else { 0int }),
{
}

proof fn lemma_empties_mono(white: u32, a: nat, b: nat)
    requires
        a <= b,
    ensures
        empties_below(white, a as int) <= empties_below(white, b as int),
    decreases b,
{
    if a < b {
        lemma_empties_mono(white, a, (b - 1) as nat);
        lemma_popcount_step(white, b);
    }
}

/// Black's compressed coordinates below `k` are ascending, lie below the
/// number of empty points below `k`, and there is one per black man.
pub proof fn lemma_compressed_shape(white: u32, black: u32, k: nat)
    requires
        disjoint32(white, black),
        k <= 32,
    ensures
        strictly_ascending(compressed_below(white, black, k)),
        forall|j: int|
            0 <= j < compressed_below(white, black, k).len() ==> (#[trigger] compressed_below(white, black, k)[j]
                as int) < empties_below(white, k as int),
        compressed_below(white, black, k).len() == popcount_below(black, k),
    decreases k,
{
    if k > 0 {
        lemma_compressed_shape(white, black, (k - 1) as nat);
        lemma_popcount_step(white, k);
        lemma_popcount_step(black, k);
        lemma_points_below_len(white, (k - 1) as nat);
        let prev = compressed_below(white, black, (k - 1) as nat);
        if bit(black, k - 1) {
            assert(!bit(white, k - 1));
            let e = (k - 1 - popcount_below(white, (k - 1) as nat));
            assert(compressed_below(white, black, k) == prev.push(e as u8));
        }
    }
}

/// Later coordinates sit at or above the empties below `k`; earlier ones
/// are kept as a prefix.
proof fn lemma_compressed_tail(white: u32, black: u32, k: nat, big: nat)
    requires
        disjoint32(white, black),
        k <= big <= 32,
    ensures
        compressed_below(white, black, k).len() <= compressed_below(white, black, big).len(),
        compressed_below(white, black, big).subrange(0, compressed_below(white, black, k).len() as int)
            == compressed_below(white, black, k),
        forall|j: int|
            compressed_below(white, black, k).len() <= j < compressed_below(white, black, big).len() ==> (
            #[trigger] compressed_below(white, black, big)[j] as int) >= empties_below(white, k as int),
    decreases big,
{
    let small = compressed_below(white, black, k);
    if big == k {
        assert(small.subrange(0, small.len() as int) =~= small);
    } else {
        lemma_compressed_tail(white, black, k, (big - 1) as nat);
        let prev = compressed_below(white, black, (big - 1) as nat);
        let cur = compressed_below(white, black, big);
        lemma_points_below_len(white, (big - 1) as nat);
        lemma_empties_mono(white, k, (big - 1) as nat);
        if bit(black, big - 1) {
            let e = (big - 1 - popcount_below(white, (big - 1) as nat));
            assert(cur == prev.push(e as u8));
            assert(cur.subrange(0, small.len() as int) =~= prev.subrange(0, small.len() as int));
        }
    }
}

/// Compressed coordinates only depend on black's points below `k`.
proof fn lemma_compressed_agree(white: u32, a: u32, b: u32, k: nat)
    requires
        forall|q: int| 0 <= q < k ==> #[trigger] bit(a, q) == bit(b, q),
    ensures
        compressed_below(white, a, k) == compressed_below(white, b, k),
    decreases k,
{
    if k > 0 {
        lemma_compressed_agree(white, a, b, (k - 1) as nat);
        assert(bit(a, k - 1) == bit(b, k - 1));
    }
}

/// The point list only depends on the points below `k`.
proof fn lemma_points_agree(a: u32, b: u32, k: nat)
    requires
        forall|q: int| 0 <= q < k ==> #[trigger] bit(a, q) == bit(b, q),
    ensures
        points_below(a, k) == points_below(b, k),
    decreases k,
{
    if k > 0 {
        lemma_points_agree(a, b, (k - 1) as nat);
        assert(bit(a, k - 1) == bit(b, k - 1));
    }
}

/// Placing black back from its own compressed coordinates recovers black's
/// points below `k`.
proof fn lemma_expand_compressed_upto(white: u32, black: u32, n: nat, k: nat)
    requires
        disjoint32(white, black),
        k <= n <= 32,
        within32(black, n as int),
    ensures
        expand_below(white, compressed_below(white, black, n), k).1 == compressed_below(white, black, k).len(),
        forall|q: int|
            0 <= q < 32 ==> #[trigger] bit(expand_below(white, compressed_below(white, black, n), k).0, q) == (q
                < k && bit(black, q)),
    decreases k,
{
    let comp = compressed_below(white, black, n);
    if k == 0 {
        assert forall|q: int| 0 <= q < 32 implies #[trigger] bit(expand_below(white, comp, k).0, q) == (q < k && bit(black, q)) by {
            lemma_bit_zero(q);
        }
    } else {
        lemma_expand_compressed_upto(white, black, n, (k - 1) as nat);
        let p = k - 1;
        let (m, next) = expand_below(white, comp, (k - 1) as nat);
        let prev = compressed_below(white, black, (k - 1) as nat);
        lemma_compressed_tail(white, black, (k - 1) as nat, n);
        lemma_compressed_tail(white, black, k, n);
        lemma_points_below_len(white, (k - 1) as nat);
        lemma_popcount_step(white, k);
        if bit(white, p) {
            assert(!bit(black, p));
        } else if bit(black, p) {
            let e = (p - popcount_below(white, (k - 1) as nat));
            assert(compressed_below(white, black, k) == prev.push(e as u8));
            assert(comp[next] == compressed_below(white, black, k)[next]);
            assert forall|q: int| 0 <= q < 32 implies #[trigger] bit(m | (1u32 << (p as u32)), q) == (q < k && bit(black, q)) by {
                lemma_bit_or_one(m, p, q);
            }
        } else {
            if next < comp.len() {
                assert(comp[next] as int >= empties_below(white, k as int));
            }
        }
    }
}

/// Placing black back from its own compressed coordinates recovers it.
pub proof fn lemma_expand_compressed(white: u32, black: u32, n: nat)
    requires
        disjoint32(white, black),
        n <= 32,
        within32(black, n as int),
    ensures
        expand_below(white, compressed_below(white, black, 32), n).0 == black,
{
    lemma_expand_compressed_upto(white, black, n, n);
    let m = expand_below(white, compressed_below(white, black, n), n).0;
    assert forall|q: int| 0 <= q < 32 implies #[trigger] bit(m, q) == bit(black, q) by {}
    lemma_bits_ext(m, black);
    lemma_compressed_same_past(white, black, n, 32);
}

/// Past the last black man the coordinates stop growing.
pub proof fn lemma_compressed_same_past(white: u32, black: u32, n: nat, k: nat)
    requires
        n <= k <= 32,
        within32(black, n as int),
    ensures
        compressed_below(white, black, k) == compressed_below(white, black, n),
    decreases k,
{
    if k > n {
        lemma_compressed_same_past(white, black, n, (k - 1) as nat);
        assert(!bit(black, k - 1));
    }
}

/// What placing an ascending list of coordinates among the empty points
/// below `k` gives: men only on empty points below `k`, the entries used so
/// far, and those entries as its compressed coordinates.
proof fn lemma_expand_shape_upto(white: u32, comp: Seq<u8>, n: nat, k: nat)
    requires
        strictly_ascending(comp),
        forall|j: int| 0 <= j < comp.len() ==> (#[trigger] comp[j] as int) < empties_below(white, n as int),
        k <= n <= 32,
    ensures
        ({
            let (m, next) = expand_below(white, comp, k);
            &&& 0 <= next <= comp.len()
            &&& forall|j: int| 0 <= j < next ==> (#[trigger] comp[j] as int) < empties_below(white, k as int)
            &&& forall|j: int| next <= j < comp.len() ==> (#[trigger] comp[j] as int) >= empties_below(white, k as int)
            &&& within32(m, k as int)
            &&& disjoint32(white, m)
            &&& compressed_below(white, m, k) == comp.subrange(0, next)
        }),
    decreases k,
{
    if k == 0 {
        assert forall|p: int| 0 <= p < 32 implies !#[trigger] bit(0u32, p) by {
            lemma_bit_zero(p);
        }
        assert(comp.subrange(0, 0) =~= Seq::<u8>::empty());
    } else {
        lemma_expand_shape_upto(white, comp, n, (k - 1) as nat);
        let p = k - 1;
        let (m, next) = expand_below(white, comp, (k - 1) as nat);
        lemma_points_below_len(white, (k - 1) as nat);
        lemma_popcount_step(white, k);
        let e = p - popcount_below(white, (k - 1) as nat);
        if bit(white, p) {
            assert(!bit(m, p));
            assert(compressed_below(white, m, k) == compressed_below(white, m, (k - 1) as nat));
        } else if next < comp.len() && comp[next] as int == e {
            let m2 = m | (1u32 << (p as u32));
            assert forall|q: int| 0 <= q < 32 implies #[trigger] bit(m2, q) == (bit(m, q) || q == p) by {
                lemma_bit_or_one(m, p, q);
            }
            assert forall|q: int| 0 <= q < (k - 1) as nat implies #[trigger] bit(m2, q) == bit(m, q) by {}
            lemma_compressed_agree(white, m2, m, (k - 1) as nat);
            assert(compressed_below(white, m2, k) == compressed_below(white, m, (k - 1) as nat).push(e as u8));
            assert(comp.subrange(0, next + 1) =~= comp.subrange(0, next).push(comp[next]));
            assert forall|j: int| next + 1 <= j < comp.len() implies (#[trigger] comp[j] as int) >= empties_below(white, k as int) by {
                assert(comp[next] < comp[j]);
            }
        } else {
            assert(!bit(m, p));
            assert(compressed_below(white, m, k) == compressed_below(white, m, (k - 1) as nat));
        }
    }
}

/// Placing an ascending list of coordinates among the empty points uses
/// every entry, lands only on empty points below `n`, and compresses back to
/// the list.
pub proof fn lemma_expand_shape(white: u32, comp: Seq<u8>, n: nat)
    requires
        strictly_ascending(comp),
        forall|j: int| 0 <= j < comp.len() ==> (#[trigger] comp[j] as int) < empties_below(white, n as int),
        n <= 32,
    ensures
        expand_below(white, comp, n).1 == comp.len(),
        within32(expand_below(white, comp, n).0, n as int),
        disjoint32(white, expand_below(white, comp, n).0),
        compressed_below(white, expand_below(white, comp, n).0, 32) == comp,
        popcount_below(expand_below(white, comp, n).0, 32) == comp.len(),
{
    lemma_expand_shape_upto(white, comp, n, n);
    let (m, next) = expand_below(white, comp, n);
    if next < comp.len() {
        assert(comp[next] as int >= empties_below(white, n as int));
    }
    assert(comp.subrange(0, next) =~= comp);
    lemma_compressed_same_past(white, m, n, 32);
    lemma_compressed_shape(white, m, 32);
}

/// Past `n` a mask within `n` bits has no more points.
pub proof fn lemma_points_same_past(m: u32, n: nat, k: nat)
    requires
        n <= k <= 32,
        within32(m, n as int),
    ensures
        points_below(m, k) == points_below(m, n),
        popcount_below(m, k) == popcount_below(m, n),
    decreases k,
{
    if k > n {
        lemma_points_same_past(m, n, (k - 1) as nat);
        assert(!bit(m, k - 1));
    }
}

/// A strictly ascending list below `m` has at most `m` entries.
pub proof fn lemma_ascending_len(s: Seq<u8>, m: int)
    requires
        ascending_below(s, m),
        m >= 0,
    ensures
        s.len() <= m,
    decreases s.len(),
{
    if s.len() > 0 {
        let last = s.last() as int;
        let p = s.drop_last();
        assert(ascending_below(p, last)) by {
            assert forall|i: int| 0 <= i < p.len() implies (#[trigger] p[i] as int) < last by {
                assert(s[i] < s[s.len() - 1]);
            }
        }
        lemma_ascending_len(p, last);
        assert((s[s.len() - 1] as int) < m);
    }
}

pub proof fn lemma_bit_and(a: u32, b: u32, q: int)
    requires
        0 <= q < 32,
    ensures
        bit(a & b, q) == (bit(a, q) && bit(b, q)),
{
    let qq = q as u32;
    assert((((a & b) >> qq) & 1u32 == 1u32) == (((a >> qq) & 1u32 == 1u32) && ((b >> qq) & 1u32 == 1u32))) by (bit_vector)
        requires
            qq < 32,
    ;
}

pub proof fn lemma_bit_or(a: u32, b: u32, q: int)
    requires
        0 <= q < 32,
    ensures
        bit(a | b, q) == (bit(a, q) || bit(b, q)),
{
    let qq = q as u32;
    assert((((a | b) >> qq) & 1u32 == 1u32) == (((a >> qq) & 1u32 == 1u32) || ((b >> qq) & 1u32 == 1u32))) by (bit_vector)
        requires
            qq < 32,
    ;
}

pub proof fn lemma_bit_not(a: u32, q: int)
    requires
        0 <= q < 32,
    ensures
        bit(!a, q) == !bit(a, q),
{
    let qq = q as u32;
    assert(((!a >> qq) & 1u32 == 1u32) == !((a >> qq) & 1u32 == 1u32)) by (bit_vector)
        requires
            qq < 32,
    ;
}

pub proof fn lemma_bit_one(p: int, q: int)
    requires
        0 <= p < 32,
        0 <= q < 32,
    ensures
        bit(1u32 << (p as u32), q) == (p == q),
{
    let pp = p as u32;
    let qq = q as u32;
    assert((((1u32 << pp) >> qq) & 1u32 == 1u32) == (pp == qq)) by (bit_vector)
        requires
            pp < 32,
            qq < 32,
    ;
}

/// The low `n` bits.
pub proof fn lemma_bit_low(n: int, q: int)
    requires
        0 <= n < 32,
        0 <= q < 32,
    ensures
        bit(((1u32 << (n as u32)) - 1) as u32, q) == (q < n),
{
    let nn = n as u32;
    let qq = q as u32;
    assert(((((1u32 << nn) - 1) as u32 >> qq) & 1u32 == 1u32) == (qq < nn)) by (bit_vector)
        requires
            nn < 32,
            qq < 32,
    ;
}

/// A subset has no more points.
pub proof fn lemma_pop_subset(a: u32, b: u32, k: nat)
    requires
        forall|q: int| 0 <= q < 32 && #[trigger] bit(a, q) ==> bit(b, q),
        k <= 32,
    ensures
        popcount_below(a, k) <= popcount_below(b, k),
    decreases k,
{
    if k > 0 {
        lemma_pop_subset(a, b, (k - 1) as nat);
        lemma_popcount_step(a, k);
        lemma_popcount_step(b, k);
    }
}

/// One more point: the count goes up by one.
pub proof fn lemma_pop_one_more(a: u32, b: u32, p: int, k: nat)
    requires
        0 <= p < 32,
        k <= 32,
        !bit(a, p),
        bit(b, p),
        forall|q: int| 0 <= q < 32 && q != p ==> #[trigger] bit(a, q) == bit(b, q),
    ensures
        popcount_below(b, k) == popcount_below(a, k) + (if p < k { 1int } else { 0int }),
    decreases k,
{
    if k > 0 {
        lemma_pop_one_more(a, b, p, (k - 1) as nat);
        lemma_popcount_step(a, k);
        lemma_popcount_step(b, k);
    }
}

} // verus!
