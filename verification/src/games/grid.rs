//! The 3x3 grid shared by tic-tac-toe and three men's morris: cells holding
//! 0 (empty), 1 or 2, the eight lines, and the base-3 encoding of a grid.

use vstd::prelude::*;
use crate::retrograde::{occurrences, lemma_occurrences_push};

verus! {

/// 3^k.
pub open spec fn pow3(k: nat) -> nat
    decreases k,
{
    if k == 0 {
        1
    } else {
        3 * pow3((k - 1) as nat)
    }
}

/// The cells read as a base-3 number, first cell most significant.
pub open spec fn base3(s: Seq<u8>) -> int
    decreases s.len(),
{
    if s.len() == 0 {
        0
    } else {
        base3(s.drop_last()) * 3 + s.last()
    }
}

/// The last `k` base-3 digits of `i`, most significant first.
pub open spec fn digits(i: int, k: nat) -> Seq<u8>
    decreases k,
{
    if k == 0 {
        Seq::empty()
    } else {
        digits(i / 3, (k - 1) as nat).push((i % 3) as u8)
    }
}

/// The grid whose cells are `s`.
pub open spec fn grid_of(s: Seq<u8>) -> [u8; 9] {
    choose|a: [u8; 9]| a@ == s
}

/// Every cell holds 0, 1 or 2.
pub open spec fn cells_ok(s: Seq<u8>) -> bool {
    forall|c: int| 0 <= c < s.len() ==> #[trigger] s[c] < 3
}

/// The three cells of line `k` (rows, columns, diagonals).
pub open spec fn line_spec(k: int) -> (int, int, int) {
    if k == 0 {
        (0, 1, 2)
    } else if k == 1 {
        (3, 4, 5)
    } else if k == 2 {
        (6, 7, 8)
    } else if k == 3 {
        (0, 3, 6)
    } else if k == 4 {
        (1, 4, 7)
    } else if k == 5 {
        (2, 5, 8)
    } else if k == 6 {
        (0, 4, 8)
    } else {
        (2, 4, 6)
    }
}

/// `player` holds all three cells of line `k`.
pub open spec fn holds_line(cells: Seq<u8>, player: u8, k: int) -> bool {
    let (a, b, c) = line_spec(k);
    cells[a] == player && cells[b] == player && cells[c] == player
}

/// `player` holds a complete line.
pub open spec fn has_line_spec(cells: Seq<u8>, player: u8) -> bool {
    exists|k: int| 0 <= k < 8 && #[trigger] holds_line(cells, player, k)
}

pub proof fn lemma_pow3_mono(a: nat, b: nat)
    requires
        a <= b,
    ensures
        pow3(a) <= pow3(b),
    decreases b,
{
    if a < b {
        lemma_pow3_mono(a, (b - 1) as nat);
    }
}

pub proof fn lemma_grid_of(a: [u8; 9])
    ensures
        grid_of(a@) == a,
{
    let g = grid_of(a@);
    assert(g@ == a@);
    assert(g =~= a) by {
        assert forall|i: int| 0 <= i < 9 implies g[i] == a[i] by {
            assert(g@[i] == a@[i]);
        }
    }
}

pub proof fn lemma_base3_bound(s: Seq<u8>)
    requires
        cells_ok(s),
    ensures
        0 <= base3(s) < pow3(s.len()),
    decreases s.len(),
{
    if s.len() > 0 {
        assert(cells_ok(s.drop_last())) by {
            assert forall|c: int| 0 <= c < s.drop_last().len() implies #[trigger] s.drop_last()[c] < 3 by {
                assert(s.drop_last()[c] == s[c]);
            }
        }
        lemma_base3_bound(s.drop_last());
        assert(s[s.len() - 1] < 3);
    }
}

pub proof fn lemma_digits_ok(i: int, k: nat)
    requires
        i >= 0,
    ensures
        digits(i, k).len() == k,
        cells_ok(digits(i, k)),
    decreases k,
{
    if k > 0 {
        lemma_digits_ok(i / 3, (k - 1) as nat);
        let d = digits(i, k);
        assert forall|c: int| 0 <= c < d.len() implies #[trigger] d[c] < 3 by {
            if c < k - 1 {
                assert(d[c] == digits(i / 3, (k - 1) as nat)[c]);
            }
        }
    }
}

/// The base-3 value of the grid.
pub fn encode(cells: &[u8; 9]) -> (r: u64)
    requires
        cells_ok(cells@),
    ensures
        r == base3(cells@),
        r < 19683,
{
    let mut acc: u64 = 0;
    let mut k: usize = 0;
    while k < 9
        invariant
            k <= 9,
            cells_ok(cells@),
            acc == base3(cells@.subrange(0, k as int)),
            acc < pow3(k as nat),
        decreases 9 - k,
    {
        proof {
            assert(cells@.subrange(0, k as int + 1).drop_last() =~= cells@.subrange(0, k as int));
            assert(cells@[k as int] < 3);
            assert(pow3(k as nat + 1) == 3 * pow3(k as nat));
            lemma_pow3_mono(k as nat, 8);
            reveal_with_fuel(pow3, 9);
            assert(pow3(8) == 6561);
        }
        acc = acc * 3 + cells[k] as u64;
        k += 1;
    }
    assert(cells@.subrange(0, 9) =~= cells@);
    proof {
        reveal_with_fuel(pow3, 10);
    }
    acc
}

/// The grid whose base-3 value is `i` (only the last nine digits count).
pub fn decode(i: u64) -> (r: [u8; 9])
    ensures
        r@ == digits(i as int, 9),
        cells_ok(r@),
{
    let mut cells: [u8; 9] = [0u8; 9];
    let mut rest = i;
    let mut c: usize = 9;
    while c > 0
        invariant
            c <= 9,
            digits(i as int, 9) == digits(rest as int, c as nat) + cells@.subrange(c as int, 9),
            cells@.len() == 9,
        decreases c,
    {
        let ghost before = cells@;
        c -= 1;
        cells[c] = (rest % 3) as u8;
        proof {
            assert(digits(rest as int, c as nat + 1) == digits(rest as int / 3, c as nat).push(
                (rest as int % 3) as u8,
            ));
            assert(cells@.subrange(c as int, 9) =~= seq![(rest % 3) as u8] + before.subrange(
                c as int + 1,
                9,
            ));
            assert(digits(rest as int / 3, c as nat) + cells@.subrange(c as int, 9) =~= digits(
                rest as int / 3,
                c as nat,
            ).push((rest as int % 3) as u8) + before.subrange(c as int + 1, 9));
        }
        rest = rest / 3;
    }
    assert(digits(rest as int, 0) =~= Seq::<u8>::empty());
    assert(cells@.subrange(0, 9) =~= cells@);
    proof {
        lemma_digits_ok(i as int, 9);
    }
    cells
}

/// The cells of line `k`.
pub fn line(k: usize) -> (r: (usize, usize, usize))
    requires
        k < 8,
    ensures
        r.0 == line_spec(k as int).0,
        r.1 == line_spec(k as int).1,
        r.2 == line_spec(k as int).2,
        r.0 < 9 && r.1 < 9 && r.2 < 9,
{
    match k {
        0 => (0, 1, 2),
        1 => (3, 4, 5),
        2 => (6, 7, 8),
        3 => (0, 3, 6),
        4 => (1, 4, 7),
        5 => (2, 5, 8),
        6 => (0, 4, 8),
        _ => (2, 4, 6),
    }
}

/// Does `player` hold a complete line?
pub fn has_line(cells: &[u8; 9], player: u8) -> (r: bool)
    ensures
        r == has_line_spec(cells@, player),
{
    let mut k: usize = 0;
    while k < 8
        invariant
            k <= 8,
            forall|j: int| 0 <= j < k ==> !#[trigger] holds_line(cells@, player, j),
        decreases 8 - k,
    {
        let (a, b, c) = line(k);
        if cells[a] == player && cells[b] == player && cells[c] == player {
            assert(holds_line(cells@, player, k as int));
            return true;
        }
        k += 1;
    }
    false
}

/// How many cells hold `v`.
pub fn count_cells(cells: &[u8; 9], v: u8) -> (r: u8)
    ensures
        r == occurrences(cells@, v),
        r <= 9,
{
    let mut n: u8 = 0;
    let mut k: usize = 0;
    while k < 9
        invariant
            k <= 9,
            n == occurrences(cells@.subrange(0, k as int), v),
            n <= k,
        decreases 9 - k,
    {
        proof {
            assert(cells@.subrange(0, k as int + 1) =~= cells@.subrange(0, k as int).push(cells@[k as int]));
            lemma_occurrences_push(cells@.subrange(0, k as int), cells@[k as int], v);
        }
        if cells[k] == v {
            n += 1;
        }
        k += 1;
    }
    assert(cells@.subrange(0, 9) =~= cells@);
    n
}

/// Reading a grid's base-3 number back digit by digit gives the grid.
pub proof fn lemma_digits_of_base3(s: Seq<u8>)
    requires
        cells_ok(s),
    ensures
        digits(base3(s), s.len()) == s,
    decreases s.len(),
{
    if s.len() > 0 {
        let init = s.drop_last();
        assert(cells_ok(init)) by {
            assert forall|c: int| 0 <= c < init.len() implies #[trigger] init[c] < 3 by {
                assert(init[c] == s[c]);
            }
        }
        lemma_digits_of_base3(init);
        lemma_base3_bound(init);
        assert(s.last() < 3);
        vstd::arithmetic::div_mod::lemma_fundamental_div_mod_converse(base3(s), 3, base3(init), s.last() as int);
        assert(digits(base3(s), s.len()) =~= init.push(s.last()));
        assert(init.push(s.last()) =~= s);
    }
}

/// The base-3 number of the last `k` digits of `i` is `i`, for `i < 3^k`.
pub proof fn lemma_base3_of_digits(i: int, k: nat)
    requires
        0 <= i < pow3(k),
    ensures
        base3(digits(i, k)) == i,
    decreases k,
{
    if k > 0 {
        vstd::arithmetic::div_mod::lemma_fundamental_div_mod(i, 3);
        assert(i / 3 < pow3((k - 1) as nat)) by (nonlinear_arith)
            requires
                i == 3 * (i / 3) + i % 3,
                0 <= i % 3,
                i < 3 * pow3((k - 1) as nat),
        ;
        lemma_base3_of_digits(i / 3, (k - 1) as nat);
        let d = digits(i, k);
        assert(d.drop_last() =~= digits(i / 3, (k - 1) as nat));
    }
}

/// Nine cells make a grid.
pub proof fn lemma_grid_of_seq(d: Seq<u8>)
    requires
        d.len() == 9,
    ensures
        grid_of(d)@ == d,
{
    let a: [u8; 9] = [d[0], d[1], d[2], d[3], d[4], d[5], d[6], d[7], d[8]];
    assert(a@ =~= d);
}

/// `player` holds all of row `r`.
pub open spec fn holds_row(cells: Seq<u8>, player: u8, r: int) -> bool {
    cells[3 * r] == player && cells[3 * r + 1] == player && cells[3 * r + 2] == player
}

/// `player` holds all of column `c`.
pub open spec fn holds_column(cells: Seq<u8>, player: u8, c: int) -> bool {
    cells[c] == player && cells[c + 3] == player && cells[c + 6] == player
}

/// The lines of the grid are its three rows, its three columns and its two
/// diagonals: a player holds a line exactly when it holds one of them whole.
pub proof fn lemma_lines_are_rows_columns_diagonals(cells: Seq<u8>, player: u8)
    ensures
        has_line_spec(cells, player) <==> ((exists|r: int| 0 <= r < 3 && #[trigger] holds_row(cells, player, r))
            || (exists|c: int| 0 <= c < 3 && #[trigger] holds_column(cells, player, c)) || (cells[0] == player
            && cells[4] == player && cells[8] == player) || (cells[2] == player && cells[4] == player && cells[6]
            == player)),
{
    if has_line_spec(cells, player) {
        let k = choose|k: int| 0 <= k < 8 && #[trigger] holds_line(cells, player, k);
        if k < 3 {
            assert(holds_row(cells, player, k));
        } else if k < 6 {
            assert(holds_column(cells, player, k - 3));
        }
    }
    if exists|r: int| 0 <= r < 3 && #[trigger] holds_row(cells, player, r) {
        let r = choose|r: int| 0 <= r < 3 && #[trigger] holds_row(cells, player, r);
        assert(holds_line(cells, player, r));
    }
    if exists|c: int| 0 <= c < 3 && #[trigger] holds_column(cells, player, c) {
        let c = choose|c: int| 0 <= c < 3 && #[trigger] holds_column(cells, player, c);
        assert(holds_line(cells, player, c + 3));
    }
    if cells[0] == player && cells[4] == player && cells[8] == player {
        assert(holds_line(cells, player, 6));
    }
    if cells[2] == player && cells[4] == player && cells[6] == player {
        assert(holds_line(cells, player, 7));
    }
}

} // verus!
