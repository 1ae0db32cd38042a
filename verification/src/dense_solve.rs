//! A memory-frugal strong solver for densely-indexed games. Where
//! [`crate::solve`] materialises every reverse edge and
//! [`crate::reachable::solve_reachable`] holds a hash map of every state, this
//! keeps only a flat value array — one entry per index — and reaches the
//! fixpoint by repeated forward relaxation.
//!
//! It is the least-fixpoint of the same monotone operator the other solvers use,
//! so it returns identical values; it trades reverse-edge memory for re-scanning
//! unresolved states each round.

use vstd::prelude::*;
use crate::{Game, Outcome, index_term, moves_fn, solved_value, term_fn};
use crate::retrograde::{
    closed, closed_at, eventually_wins, label_of, lemma_closed_is_value, lemma_common_win_bound,
    loses_within, moves_in_range, occurrences, outcome_of, shaped, sound, wins_within, Label,
};

verus! {

pub const UNKNOWN: u8 = 0;

pub const WIN: u8 = 1;

pub const LOSS: u8 = 2;

pub const DRAW: u8 = 3;

/// The label a value byte stands for during the sweep.
pub open spec fn code_label(v: u8) -> Label {
    if v == WIN {
        Label::Win
    } else if v == LOSS {
        Label::Loss
    } else if v == DRAW {
        Label::Draw
    } else {
        Label::Unknown
    }
}

pub open spec fn labels(values: Seq<u8>) -> Seq<Label> {
    values.map_values(|v: u8| code_label(v))
}

/// The value byte of an outcome.
pub open spec fn code_of(o: Outcome) -> u8 {
    match o {
        Outcome::Win => WIN,
        Outcome::Loss => LOSS,
        Outcome::Draw => DRAW,
    }
}

/// The outcome a value byte stands for (anything but a win or a loss is a draw).
pub open spec fn outcome_of_code(v: u8) -> Outcome {
    if v == WIN {
        Outcome::Win
    } else if v == LOSS {
        Outcome::Loss
    } else {
        Outcome::Draw
    }
}

/// How many of the indices `0..k` are terminal with outcome `o`.
pub open spec fn terminal_count<G: Game>(g: &G, k: nat, o: Outcome) -> nat
    decreases k,
{
    if k == 0 {
        0
    } else {
        terminal_count(g, (k - 1) as nat, o) + (if g.decode(k - 1) is Some && index_term(g, k - 1)
            == Some(o) {
            1nat
        } else {
            0nat
        })
    }
}

/// Byte `b` of the 2-bit packing of `values`: entries `4b .. 4b+3`, two bits
/// each, little-endian (entries past the end count as 0).
pub open spec fn packed_byte(values: Seq<u8>, b: int) -> int {
    let v = |j: int| if 0 <= 4 * b + j < values.len() { values[4 * b + j] as int } else { 0int };
    v(0) + 4 * v(1) + 16 * v(2) + 64 * v(3)
}

/// How many of the indices `0..n` satisfy `p`.
pub open spec fn count_below(n: nat, p: spec_fn(int) -> bool) -> nat
    decreases n,
{
    if n == 0 {
        0
    } else {
        count_below((n - 1) as nat, p) + (if p(n - 1) {
            1nat
        } else {
            0nat
        })
    }
}

/// The indices below `n` that decode to a position with no terminal outcome:
/// those the relaxation rounds have to decide.
pub open spec fn open_count<G: Game>(g: &G, n: nat) -> nat {
    count_below(n, |i: int| index_term(g, i) is None)
}

/// The undecided count before round `k` (0-based) of a solve that started with
/// `start` undecided indices and reported `log`.
pub open spec fn remaining_before(start: nat, log: Seq<(u32, usize)>, k: int) -> int {
    if k == 0 {
        start as int
    } else {
        log[k - 1].1 as int
    }
}

/// The solved value of every index, plus a little instrumentation.
pub struct DenseSolution {
    /// One byte per index: [`WIN`], [`LOSS`], or [`DRAW`] (never `UNKNOWN`).
    pub values: Vec<u8>,
    pub rounds: u32,
    pub terminal_wins: u64,
    pub terminal_losses: u64,
    /// The arguments of every progress report, in the order they were made.
    pub reports: Ghost<Seq<(u32, usize)>>,
}

impl DenseSolution {
    pub fn value_at(&self, index: u64) -> (r: Outcome)
        requires
            index < self.values@.len(),
        ensures
            r == outcome_of_code(self.values@[index as int]),
    {
        assert(index < self.values.len());
        match self.values[index as usize] {
            WIN => Outcome::Win,
            LOSS => Outcome::Loss,
            _ => Outcome::Draw,
        }
    }

    pub fn count(&self, outcome: Outcome) -> (r: u64)
        ensures
            r == occurrences(self.values@, code_of(outcome)),
    {
        let want = match outcome {
            Outcome::Win => WIN,
            Outcome::Loss => LOSS,
            Outcome::Draw => DRAW,
        };
        let mut c: u64 = 0;
        let mut i: usize = 0;
        while i < self.values.len()
            invariant
                i <= self.values@.len(),
                want == code_of(outcome),
                c == occurrences(self.values@.subrange(0, i as int), want),
                c <= i,
            decreases self.values@.len() - i,
        {
            proof {
                assert(self.values@.subrange(0, i as int + 1) =~= self.values@.subrange(0, i as int).push(
                    self.values@[i as int],
                ));
                crate::retrograde::lemma_occurrences_push(
                    self.values@.subrange(0, i as int),
                    self.values@[i as int],
                    want,
                );
            }
            if self.values[i] == want {
                c += 1;
            }
            i += 1;
        }
        assert(self.values@.subrange(0, i as int) =~= self.values@);
        c
    }

    /// Pack the values to two bits each (00 unused, 01 win, 10 loss, 11 draw),
    /// little-endian within each byte. This is the on-disk tablebase payload.
    pub fn pack_2bit(&self) -> (out: Vec<u8>)
        requires
            forall|i: int| 0 <= i < self.values@.len() ==> #[trigger] self.values@[i] <= 3,
        ensures
            out@.len() == (self.values@.len() + 3) / 4,
            forall|b: int| 0 <= b < out@.len() ==> #[trigger] out@[b] as int == packed_byte(self.values@, b),
            forall|i: int| 0 <= i < self.values@.len() ==> #[trigger] unpacked_2bit(out@, i) == self.values@[i],
    {
        let len = self.values.len();
        let nbytes = len / 4 + if len % 4 != 0 {
            1
        } else {
            0
        };
        let mut out: Vec<u8> = Vec::new();
        let mut z: usize = 0;
        while z < nbytes
            invariant
                z <= nbytes,
                out@.len() == z,
                forall|b: int| 0 <= b < z ==> #[trigger] out@[b] == 0,
            decreases nbytes - z,
        {
            out.push(0);
            z += 1;
        }
        let mut i: usize = 0;
        while i < len
            invariant
                len == self.values@.len(),
                i <= len,
                out@.len() == nbytes,
                nbytes == (len + 3) / 4,
                forall|j: int| 0 <= j < len ==> #[trigger] self.values@[j] <= 3,
                forall|b: int|
                    0 <= b < nbytes ==> #[trigger] out@[b] as int == packed_prefix(self.values@, b, i as int),
            decreases len - i,
        {
            let v = self.values[i];
            let b = i / 4;
            let sh = i % 4 * 2;
            let cur = out[b];
            proof {
                lemma_packed_step(self.values@, b as int, i as int, cur, v);
            }
            out.set(b, cur | (v << sh));
            proof {
                assert forall|b2: int|
                    0 <= b2 < nbytes implies #[trigger] out@[b2] as int == packed_prefix(self.values@, b2, i as int + 1) by {
                    if b2 != b {
                        lemma_packed_other(self.values@, b2, i as int);
                    }
                }
            }
            i += 1;
        }
        proof {
            assert forall|b: int| 0 <= b < out@.len() implies #[trigger] out@[b] as int == packed_byte(
                self.values@,
                b,
            ) by {
                lemma_packed_full(self.values@, b);
            }
            lemma_unpack_2bit(self.values@, out@);
        }
        out
    }
}

/// Entry `i` read back from a 2-bit packing: bits `2(i % 4)` and up of byte `i / 4`.
pub open spec fn unpacked_2bit(packed: Seq<u8>, i: int) -> u8 {
    (packed[i / 4] >> ((i % 4 * 2) as u8)) & 3u8
}

/// Reading a 2-bit packing back gives every value that was packed.
pub proof fn lemma_unpack_2bit(values: Seq<u8>, packed: Seq<u8>)
    requires
        forall|i: int| 0 <= i < values.len() ==> #[trigger] values[i] <= 3,
        packed.len() == (values.len() + 3) / 4,
        forall|b: int| 0 <= b < packed.len() ==> #[trigger] packed[b] as int == packed_byte(values, b),
    ensures
        forall|i: int| 0 <= i < values.len() ==> #[trigger] unpacked_2bit(packed, i) == values[i],
{
    assert forall|i: int| 0 <= i < values.len() implies #[trigger] unpacked_2bit(packed, i) == values[i] by {
        let b = i / 4;
        let r = i % 4;
        assert(0 <= b < packed.len());
        let x = packed[b];
        let w0 = if 4 * b < values.len() { values[4 * b] } else { 0u8 };
        let w1 = if 4 * b + 1 < values.len() { values[4 * b + 1] } else { 0u8 };
        let w2 = if 4 * b + 2 < values.len() { values[4 * b + 2] } else { 0u8 };
        let w3 = if 4 * b + 3 < values.len() { values[4 * b + 3] } else { 0u8 };
        assert(w0 <= 3 && w1 <= 3 && w2 <= 3 && w3 <= 3);
        assert(x as int == w0 + 4 * w1 + 16 * w2 + 64 * w3);
        if r == 0 {
            assert(values[i] == w0);
            assert((x >> 0u8) & 3u8 == w0) by (bit_vector)
                requires x as int == w0 + 4 * w1 + 16 * w2 + 64 * w3, w0 <= 3u8, w1 <= 3u8, w2 <= 3u8, w3 <= 3u8;
        } else if r == 1 {
            assert(values[i] == w1);
            assert((x >> 2u8) & 3u8 == w1) by (bit_vector)
                requires x as int == w0 + 4 * w1 + 16 * w2 + 64 * w3, w0 <= 3u8, w1 <= 3u8, w2 <= 3u8, w3 <= 3u8;
        } else if r == 2 {
            assert(values[i] == w2);
            assert((x >> 4u8) & 3u8 == w2) by (bit_vector)
                requires x as int == w0 + 4 * w1 + 16 * w2 + 64 * w3, w0 <= 3u8, w1 <= 3u8, w2 <= 3u8, w3 <= 3u8;
        } else {
            assert(values[i] == w3);
            assert((x >> 6u8) & 3u8 == w3) by (bit_vector)
                requires x as int == w0 + 4 * w1 + 16 * w2 + 64 * w3, w0 <= 3u8, w1 <= 3u8, w2 <= 3u8, w3 <= 3u8;
        }
    }
}

/// Byte `b` of the packing with only the entries below `i` filled in.
pub open spec fn packed_prefix(values: Seq<u8>, b: int, i: int) -> int {
    let v = |j: int| if 0 <= 4 * b + j < values.len() && 4 * b + j < i { values[4 * b + j] as int } else { 0int };
    v(0) + 4 * v(1) + 16 * v(2) + 64 * v(3)
}

proof fn lemma_packed_full(values: Seq<u8>, b: int)
    ensures
        packed_prefix(values, b, values.len() as int) == packed_byte(values, b),
{
}

proof fn lemma_packed_other(values: Seq<u8>, b: int, i: int)
    requires
        b != i / 4,
        i >= 0,
    ensures
        packed_prefix(values, b, i + 1) == packed_prefix(values, b, i),
{
}

proof fn lemma_packed_step(values: Seq<u8>, b: int, i: int, cur: u8, v: u8)
    requires
        0 <= i < values.len(),
        b == i / 4,
        cur as int == packed_prefix(values, b, i),
        v == values[i],
        v <= 3,
        forall|j: int| 0 <= j < values.len() ==> #[trigger] values[j] <= 3,
    ensures
        (cur | (v << ((i % 4 * 2) as u8))) as int == packed_prefix(values, b, i + 1),
{
    let sh = (i % 4 * 2) as u8;
    let r = i % 4;
    assert(0 <= r < 4);
    let v0 = if 0 <= 4 * b < values.len() && 4 * b < i { values[4 * b] } else { 0u8 };
    let v1 = if 0 <= 4 * b + 1 < values.len() && 4 * b + 1 < i { values[4 * b + 1] } else { 0u8 };
    let v2 = if 0 <= 4 * b + 2 < values.len() && 4 * b + 2 < i { values[4 * b + 2] } else { 0u8 };
    assert(v0 <= 3 && v1 <= 3 && v2 <= 3);
    if r == 0 {
        assert(cur == 0);
        assert((cur | (v << 0u8)) == v) by (bit_vector)
            requires cur == 0u8;
    } else if r == 1 {
        assert(cur as int == v0 as int);
        assert((cur | (v << 2u8)) as int == cur as int + 4 * v as int) by (bit_vector)
            requires cur <= 3u8, v <= 3u8;
    } else if r == 2 {
        assert(cur as int == v0 + 4 * v1);
        assert((cur | (v << 4u8)) as int == cur as int + 16 * v as int) by (bit_vector)
            requires cur <= 15u8, v <= 3u8;
    } else {
        assert(cur as int == v0 + 4 * v1 + 16 * v2);
        assert((cur | (v << 6u8)) as int == cur as int + 64 * v as int) by (bit_vector)
            requires cur <= 63u8, v <= 3u8;
    }
}

/// The relaxation state before a round: values, the undecided indices in
/// ascending order, and the indices whose moves have been seen in range.
pub open spec fn relax_inv<G: Game>(g: &G, n: int, values: Seq<u8>, unknown: Seq<u32>, seen: Set<int>) -> bool {
    let term = term_fn(g);
    let succ = moves_fn(g);
    &&& values.len() == n
    &&& n <= u32::MAX
    &&& forall|i: int| 0 <= i < n ==> #[trigger] values[i] <= 3
    &&& shaped(term, n, labels(values))
    &&& sound(term, succ, n, labels(values))
    &&& forall|x: int, y: int| 0 <= x < y < unknown.len() ==> #[trigger] unknown[x] < #[trigger] unknown[y]
    &&& forall|x: int| 0 <= x < unknown.len() ==> (#[trigger] unknown[x] as int) < n
    &&& forall|i: int| 0 <= i < n ==> (#[trigger] values[i] == UNKNOWN <==> unknown.contains(i as u32))
    &&& forall|i: int| 0 <= i < n && term(i) is None && values[i] != UNKNOWN ==> #[trigger] seen.contains(i)
    &&& forall|i: int, m: int|
        seen.contains(i) && 0 <= m < succ(i).len() ==> 0 <= #[trigger] succ(i)[m] < n
}

/// Strongly solve a densely-indexed game by forward-relaxation to fixpoint.
///
/// `report` is called once per round with `(round, remaining_unknown)` so a
/// long solve can log progress: `sol.reports` holds those calls. Every round but
/// the last decides at least one index; the last decides none, and what it
/// leaves undecided is drawn. The index space must fit `u32` (≤ ~4.29e9
/// positions).
pub fn solve_dense<G: Game>(game: &G, mut report: impl FnMut(u32, usize)) -> (sol: DenseSolution)
    requires
        game.wf(),
        game.state_count() <= u32::MAX,
        forall|r: u32, u: usize| call_requires(report, (r, u)),
    ensures
        sol.reports@.len() == sol.rounds,
        forall|k: int|
            0 <= k < sol.rounds ==> call_ensures(report, ((#[trigger] sol.reports@[k]).0, sol.reports@[k].1), ()),
        forall|k: int| 0 <= k < sol.rounds ==> (#[trigger] sol.reports@[k]).0 == k + 1,
        forall|k: int|
            0 <= k < sol.rounds - 1 ==> (#[trigger] sol.reports@[k]).1 < remaining_before(
                open_count(game, game.state_count()),
                sol.reports@,
                k,
            ),
        sol.reports@[sol.rounds - 1].1 == remaining_before(
            open_count(game, game.state_count()),
            sol.reports@,
            sol.rounds - 1,
        ),
        sol.reports@[sol.rounds - 1].1 == count_below(
            game.state_count(),
            |i: int| index_term(game, i) is None && sol.values@[i] == DRAW,
        ),
        sol.values@.len() == game.state_count(),
        forall|i: int|
            0 <= i < game.state_count() ==> #[trigger] outcome_of_code(sol.values@[i]) == solved_value(
                game,
                i,
            ) && sol.values@[i] != UNKNOWN && sol.values@[i] <= 3,
        sol.terminal_wins == terminal_count(game, game.state_count(), Outcome::Win),
        sol.terminal_losses == terminal_count(game, game.state_count(), Outcome::Loss),
        sol.rounds >= 1,
{
    let ghost report0 = report;
    let n64 = game.num_states();
    let n = n64 as usize;
    let ghost term = term_fn(game);
    let ghost succ = moves_fn(game);

    let mut values: Vec<u8> = Vec::new();
    let mut unknown: Vec<u32> = Vec::new();
    let mut terminal_wins: u64 = 0;
    let mut terminal_losses: u64 = 0;

    // Pass 0: classify terminals; everything else starts unknown.
    let mut i: usize = 0;
    while i < n
        invariant
            game.wf(),
            n == game.state_count(),
            n <= u32::MAX,
            i <= n,
            values@.len() == i,
            unknown@.len() == open_count(game, i as nat),
            unknown@.len() <= i,
            unknown@.len() == i ==> forall|a: int| 0 <= a < i ==> #[trigger] values@[a] == UNKNOWN,
            terminal_wins == terminal_count(game, i as nat, Outcome::Win),
            terminal_losses == terminal_count(game, i as nat, Outcome::Loss),
            terminal_wins <= i,
            terminal_losses <= i,
            forall|a: int| 0 <= a < i ==> #[trigger] values@[a] <= 3,
            forall|a: int|
                0 <= a < i ==> match term(a) {
                    Some(o) => #[trigger] labels(values@)[a] == label_of(o),
                    None => labels(values@)[a] == Label::Unknown,
                },
            forall|x: int, y: int| 0 <= x < y < unknown@.len() ==> #[trigger] unknown@[x] < #[trigger] unknown@[y],
            forall|x: int| 0 <= x < unknown@.len() ==> (#[trigger] unknown@[x] as int) < i,
            forall|a: int| 0 <= a < i ==> (#[trigger] values@[a] == UNKNOWN <==> unknown@.contains(a as u32)),
            term == term_fn(game),
        decreases n - i,
    {
        let ghost before = unknown@;
        let ghost vbefore = values@;
        match game.from_index(i as u64) {
            None => values.push(DRAW),  // inert slot
            Some(s) => match game.terminal(&s) {
                Some(Outcome::Win) => {
                    values.push(WIN);
                    terminal_wins += 1;
                },
                Some(Outcome::Loss) => {
                    values.push(LOSS);
                    terminal_losses += 1;
                },
                Some(Outcome::Draw) => values.push(DRAW),
                None => {
                    values.push(UNKNOWN);
                    unknown.push(i as u32);
                },
            },
        }
        proof {
            assert(labels(values@)[i as int] == code_label(values@[i as int]));
            assert(match term(i as int) {
                Some(o) => labels(values@)[i as int] == label_of(o),
                None => labels(values@)[i as int] == Label::Unknown,
            });
            assert forall|a: int| 0 <= a < i + 1 implies match term(a) {
                Some(o) => #[trigger] labels(values@)[a] == label_of(o),
                None => labels(values@)[a] == Label::Unknown,
            } by {
                if a < i {
                    assert(values@[a] == vbefore[a]);
                    assert(labels(values@)[a] == labels(vbefore)[a]);
                }
            }
            assert forall|a: int| 0 <= a < i + 1 implies (#[trigger] values@[a] == UNKNOWN <==> unknown@.contains(a as u32)) by {
                if a < i {
                    if unknown@.contains(a as u32) && !before.contains(a as u32) {
                        let x = choose|x: int| 0 <= x < unknown@.len() && unknown@[x] == a as u32;
                        assert(x == before.len());
                    }
                    if before.contains(a as u32) {
                        let x = choose|x: int| 0 <= x < before.len() && before[x] == a as u32;
                        assert(unknown@[x] == a as u32);
                    }
                } else if values@[a] == UNKNOWN {
                    assert(unknown@[unknown@.len() - 1] == a as u32);
                } else {
                    if unknown@.contains(a as u32) {
                        let x = choose|x: int| 0 <= x < unknown@.len() && unknown@[x] == a as u32;
                        assert((before[x] as int) < i);
                    }
                }
            }
        }
        i += 1;
    }
    let ghost mut seen: Set<int> = Set::empty();
    proof {
        lemma_initial_relax(game, n as int, values@, unknown@);
    }

    // Relax until a full pass changes nothing. A position is a Win if some move
    // reaches a Loss (for the opponent), a Loss if every move reaches a Win.
    let ghost u0: nat = unknown@.len();
    let ghost all_open: bool = u0 == n;
    let ghost mut log: Seq<(u32, usize)> = Seq::empty();
    let mut rounds: u32 = 0;
    loop
        invariant_except_break
            rounds + unknown@.len() <= u0,
            all_open ==> rounds == 0,
            forall|k: int| 0 <= k < rounds ==> (#[trigger] log[k]).1 < remaining_before(u0, log, k),
        invariant
            game.wf(),
            n == game.state_count(),
            relax_inv(game, n as int, values@, unknown@, seen),
            rounds >= 1 ==> forall|i: int| 0 <= i < n && term(i) is None ==> #[trigger] seen.contains(i),
            forall|r: u32, u: usize| call_requires(report, (r, u)),
            term == term_fn(game),
            succ == moves_fn(game),
            u0 == open_count(game, n as nat),
            u0 <= n,
            all_open == (u0 == n),
            all_open ==> forall|i: int| 0 <= i < n ==> #[trigger] values@[i] == UNKNOWN,
            log.len() == rounds,
            forall|k: int| 0 <= k < rounds ==> (#[trigger] log[k]).0 == k + 1,
            forall|k: int| 0 <= k < rounds - 1 ==> (#[trigger] log[k]).1 < remaining_before(u0, log, k),
            unknown@.len() == remaining_before(u0, log, rounds as int),
            forall|k: int| 0 <= k < rounds ==> call_ensures(report, ((#[trigger] log[k]).0, log[k].1), ()),
            report == report0,
        ensures
            relax_inv(game, n as int, values@, unknown@, seen),
            rounds >= 1,
            forall|i: int| 0 <= i < n && term(i) is None ==> #[trigger] seen.contains(i),
            forall|x: int|
                0 <= x < unknown@.len() ==> #[trigger] closed_at(succ, labels(values@), unknown@[x] as int),
            u0 == open_count(game, n as nat),
            log.len() == rounds,
            forall|k: int| 0 <= k < rounds ==> (#[trigger] log[k]).0 == k + 1,
            forall|k: int| 0 <= k < rounds - 1 ==> (#[trigger] log[k]).1 < remaining_before(u0, log, k),
            log[rounds - 1].1 == remaining_before(u0, log, rounds - 1),
            log[rounds - 1].1 == unknown@.len(),
            forall|k: int| 0 <= k < rounds ==> call_ensures(report, ((#[trigger] log[k]).0, log[k].1), ()),
            report == report0,
        decreases unknown@.len() + (if rounds == 0 { 1int } else { 0int }),
    {
        rounds += 1;
        let mut changed = false;
        let mut survivors: Vec<u32> = Vec::new();
        let ghost values0 = values@;
        let mut u: usize = 0;
        proof {
            lemma_round_start(game, n as int, values@, unknown@, seen);
        }
        while u < unknown.len()
            invariant
                game.wf(),
                n == game.state_count(),
                u <= unknown@.len(),
                term == term_fn(game),
                succ == moves_fn(game),
                round_inv(game, n as int, values0, values@, unknown@, u as int, survivors@, changed, seen),
                all_open ==> values@ == values0 && !changed,
                all_open ==> forall|i: int| 0 <= i < n ==> #[trigger] values0[i] == UNKNOWN,
            decreases unknown@.len() - u,
        {
            let i = unknown[u];
            proof {
                lemma_round_node(game, n as int, values0, values@, unknown@, u as int, survivors@, changed, seen);
            }
            let s = game.from_index(i as u64).unwrap();
            let succv = game.successors(&s);
            let mut any_loss = false;
            let mut all_win = true;
            let mut m: usize = 0;
            while m < succv.len()
                invariant
                    game.wf(),
                    n == game.state_count(),
                    values@.len() == n,
                    m <= succv@.len(),
                    succv@ == game.moves(s),
                    forall|k: int| 0 <= k < succv@.len() ==> game.valid(#[trigger] succv@[k]),
                    succ(i as int) == succv@.map_values(|x: G::State| game.index_of(x)),
                    forall|k: int| 0 <= k < m ==> 0 <= #[trigger] succ(i as int)[k] < n,
                    any_loss <==> exists|k: int| 0 <= k < m && #[trigger] values@[succ(i as int)[k]] == LOSS,
                    all_win <==> forall|k: int|
                        0 <= k < m ==> #[trigger] values@[succ(i as int)[k]] == WIN || values@[succ(
                            i as int,
                        )[k]] == LOSS,
                decreases succv@.len() - m,
            {
                let j = game.index(&succv[m]) as usize;
                assert(succ(i as int)[m as int] == j);
                match values[j] {
                    LOSS => any_loss = true,
                    WIN => {},
                    _ => all_win = false,  // UNKNOWN or DRAW: not (yet) a win
                }
                m += 1;
            }
            let ghost before = values@;
            let ghost surv_before = survivors@;
            let ghost changed_before = changed;
            if any_loss {
                proof {
                    assert(!all_open) by {
                        if all_open {
                            let k = choose|k: int|
                                0 <= k < m && #[trigger] values@[succ(i as int)[k]] == LOSS;
                            assert(values0[succ(i as int)[k]] == UNKNOWN);
                        }
                    }
                    lemma_mark_win(game, n as int, values@, i as int);
                }
                values.set(i as usize, WIN);
                changed = true;
            } else if all_win && succv.len() != 0 {
                proof {
                    assert(!all_open) by {
                        if all_open {
                            assert(values@[succ(i as int)[0]] == WIN || values@[succ(i as int)[0]] == LOSS);
                            assert(values0[succ(i as int)[0]] == UNKNOWN);
                        }
                    }
                    assert forall|k: int| 0 <= k < succ(i as int).len() implies #[trigger] values@[succ(
                        i as int,
                    )[k]] == WIN by {
                        if values@[succ(i as int)[k]] == LOSS {
                            assert(exists|k2: int|
                                0 <= k2 < m && #[trigger] values@[succ(i as int)[k2]] == LOSS);
                        }
                    }
                    lemma_mark_loss(game, n as int, values@, i as int);
                }
                values.set(i as usize, LOSS);
                changed = true;
            } else {
                survivors.push(i);
            }
            proof {
                lemma_round_step(
                    game,
                    n as int,
                    values0,
                    before,
                    values@,
                    unknown@,
                    u as int,
                    surv_before,
                    survivors@,
                    changed_before,
                    changed,
                    seen,
                );
                seen = seen.insert(i as int);
            }
            u += 1;
        }
        let ghost old_unknown = unknown@;
        let ghost old_log = log;
        proof {
            lemma_round_done(game, n as int, values0, values@, unknown@, survivors@, changed, seen);
        }
        unknown = survivors;
        report(rounds, unknown.len());
        proof {
            log = log.push((rounds, unknown.len()));
            assert(log[rounds - 1].1 == unknown@.len());
            assert forall|k: int| 0 <= k < rounds - 1 implies remaining_before(u0, log, k)
                == remaining_before(u0, log.drop_last(), k) by {
                assert(log.drop_last() =~= old_log);
            }
        }
        if !changed {
            break;
        }
    }

    // Anything still unresolved is drawn (a cycle that never forced a decision).
    proof {
        lemma_relax_value(game, n as int, values@, unknown@, seen);
    }
    let ghost settled = values@;
    let mut k: usize = 0;
    while k < unknown.len()
        invariant
            k <= unknown@.len(),
            values@.len() == n,
            forall|x: int| 0 <= x < unknown@.len() ==> (#[trigger] unknown@[x] as int) < n,
            forall|i: int| 0 <= i < n ==> (#[trigger] settled[i] == UNKNOWN <==> unknown@.contains(i as u32)),
            forall|i: int|
                0 <= i < n ==> #[trigger] values@[i] == if settled[i] == UNKNOWN && exists|x: int|
                    0 <= x < k && unknown@[x] as int == i {
                    DRAW
                } else {
                    settled[i]
                },
        decreases unknown@.len() - k,
    {
        let idx = unknown[k] as usize;
        values.set(idx, DRAW);
        k += 1;
    }
    proof {
        assert forall|i: int|
            0 <= i < n implies #[trigger] outcome_of_code(values@[i]) == solved_value(game, i) && values@[i]
            != UNKNOWN && values@[i] <= 3 by {
            assert(outcome_of(labels(settled)[i]) == solved_value(game, i));
            if settled[i] == UNKNOWN {
                let x = choose|x: int| 0 <= x < unknown@.len() && unknown@[x] == i as u32;
                assert(values@[i] == DRAW);
            }
        }
        let p1 = |i: int| settled[i] == UNKNOWN;
        let p2 = |i: int| index_term(game, i) is None && values@[i] == DRAW;
        lemma_listed_count(unknown@, n as int, p1);
        assert forall|i: int| 0 <= i < n implies #[trigger] p1(i) == p2(i) by {
            assert(labels(settled)[i] == code_label(settled[i]));
            if settled[i] == UNKNOWN {
                let x = choose|x: int| 0 <= x < unknown@.len() && unknown@[x] == i as u32;
                assert(values@[i] == DRAW);
            }
        }
        lemma_count_below_ext(n as nat, p1, p2);
    }
    let sol = DenseSolution { values, rounds, terminal_wins, terminal_losses, reports: Ghost(log) };
    proof {
        let p2 = |i: int| index_term(game, i) is None && values@[i] == DRAW;
        let p3 = |i: int| index_term(game, i) is None && sol.values@[i] == DRAW;
        assert(p2 =~= p3);
    }
    sol
}

/// A strictly increasing list of indices below `n` that holds exactly the
/// indices satisfying `p` has one entry per such index.
proof fn lemma_listed_count(s: Seq<u32>, n: int, p: spec_fn(int) -> bool)
    requires
        0 <= n <= u32::MAX,
        forall|x: int, y: int| 0 <= x < y < s.len() ==> #[trigger] s[x] < #[trigger] s[y],
        forall|x: int| 0 <= x < s.len() ==> (#[trigger] s[x] as int) < n,
        forall|i: int| 0 <= i < n ==> (#[trigger] p(i) <==> s.contains(i as u32)),
    ensures
        s.len() == count_below(n as nat, p),
    decreases n,
{
    if n == 0 {
        if s.len() > 0 {
            assert((s[0] as int) < 0);
        }
    } else {
        let m = n - 1;
        if p(m) {
            assert(s.contains(m as u32));
            let x = choose|x: int| 0 <= x < s.len() && s[x] == m as u32;
            if x < s.len() - 1 {
                assert(s[x] < s[s.len() - 1]);
            }
            let t = s.drop_last();
            assert forall|y: int| 0 <= y < t.len() implies (#[trigger] t[y] as int) < m by {
                assert(t[y] == s[y]);
                assert(s[y] < s[x]);
            }
            assert forall|y: int, z: int| 0 <= y < z < t.len() implies #[trigger] t[y] < #[trigger] t[z] by {
                assert(t[y] == s[y] && t[z] == s[z]);
            }
            assert forall|i: int| 0 <= i < m implies (#[trigger] p(i) <==> t.contains(i as u32)) by {
                if s.contains(i as u32) {
                    let y = choose|y: int| 0 <= y < s.len() && s[y] == i as u32;
                    assert(y != x);
                    assert(t[y] == s[y]);
                }
                if t.contains(i as u32) {
                    let y = choose|y: int| 0 <= y < t.len() && t[y] == i as u32;
                    assert(s[y] == t[y]);
                }
            }
            lemma_listed_count(t, m, p);
        } else {
            assert forall|y: int| 0 <= y < s.len() implies (#[trigger] s[y] as int) < m by {
                if s[y] as int == m {
                    assert(s.contains(m as u32));
                }
            }
            lemma_listed_count(s, m, p);
        }
    }
}

/// Predicates that agree below `n` count alike below `n`.
proof fn lemma_count_below_ext(n: nat, p: spec_fn(int) -> bool, q: spec_fn(int) -> bool)
    requires
        forall|i: int| 0 <= i < n ==> #[trigger] p(i) == q(i),
    ensures
        count_below(n, p) == count_below(n, q),
    decreases n,
{
    if n > 0 {
        lemma_count_below_ext((n - 1) as nat, p, q);
    }
}

/// The state of a relaxation round after the first `u` of the round's
/// undecided `nodes` were examined; `survivors` are those still undecided.
pub open spec fn round_inv<G: Game>(
    g: &G,
    n: int,
    values0: Seq<u8>,
    values: Seq<u8>,
    nodes: Seq<u32>,
    u: int,
    survivors: Seq<u32>,
    changed: bool,
    seen: Set<int>,
) -> bool {
    let term = term_fn(g);
    let succ = moves_fn(g);
    &&& relax_inv(g, n, values0, nodes, seen)
    &&& values.len() == n
    &&& 0 <= u <= nodes.len()
    &&& forall|i: int| 0 <= i < n ==> #[trigger] values[i] <= 3
    &&& shaped(term, n, labels(values))
    &&& sound(term, succ, n, labels(values))
    &&& forall|i: int| 0 <= i < n && !nodes.contains(i as u32) ==> #[trigger] values[i] == values0[i]
    &&& forall|x: int| u <= x < nodes.len() ==> #[trigger] values[nodes[x] as int] == UNKNOWN
    &&& forall|x: int|
        0 <= x < u ==> (#[trigger] values[nodes[x] as int] == UNKNOWN <==> survivors.contains(nodes[x]))
    &&& forall|x: int| 0 <= x < u ==> #[trigger] seen.contains(nodes[x] as int)
    &&& forall|y: int| 0 <= y < survivors.len() ==> exists|x: int| 0 <= x < u && nodes[x] == #[trigger] survivors[y]
    &&& forall|x: int, y: int| 0 <= x < y < survivors.len() ==> #[trigger] survivors[x] < #[trigger] survivors[y]
    &&& forall|y: int| 0 <= y < survivors.len() ==> u < nodes.len() ==> #[trigger] survivors[y] < nodes[u]
    &&& forall|i: int| 0 <= i < n && term(i) is None && values[i] != UNKNOWN ==> #[trigger] seen.contains(i)
    &&& forall|i: int, m: int| seen.contains(i) && 0 <= m < succ(i).len() ==> 0 <= #[trigger] succ(i)[m] < n
    &&& !changed ==> values == values0 && survivors.len() == u
    &&& changed ==> survivors.len() < u
    &&& !changed ==> forall|y: int|
        0 <= y < survivors.len() ==> #[trigger] closed_at(succ, labels(values), survivors[y] as int)
}

proof fn lemma_labels_update(values: Seq<u8>, i: int, v: u8)
    requires
        0 <= i < values.len(),
    ensures
        labels(values.update(i, v)) == labels(values).update(i, code_label(v)),
{
    assert(labels(values.update(i, v)) =~= labels(values).update(i, code_label(v)));
}

proof fn lemma_initial_relax<G: Game>(g: &G, n: int, values: Seq<u8>, unknown: Seq<u32>)
    requires
        values.len() == n,
        n <= u32::MAX,
        forall|a: int| 0 <= a < n ==> #[trigger] values[a] <= 3,
        forall|a: int|
            0 <= a < n ==> match term_fn(g)(a) {
                Some(o) => #[trigger] labels(values)[a] == label_of(o),
                None => labels(values)[a] == Label::Unknown,
            },
        forall|x: int, y: int| 0 <= x < y < unknown.len() ==> #[trigger] unknown[x] < #[trigger] unknown[y],
        forall|x: int| 0 <= x < unknown.len() ==> (#[trigger] unknown[x] as int) < n,
        forall|a: int| 0 <= a < n ==> (#[trigger] values[a] == UNKNOWN <==> unknown.contains(a as u32)),
    ensures
        relax_inv(g, n, values, unknown, Set::empty()),
        unknown.len() <= n,
{
    let term = term_fn(g);
    let succ = moves_fn(g);
    let l = labels(values);
    assert forall|i: int| 0 <= i < n implies match term(i) {
        Some(o) => #[trigger] l[i] == label_of(o),
        None => l[i] != Label::Draw,
    } by {}
    assert forall|i: int| 0 <= i < n implies (#[trigger] l[i] == Label::Win ==> exists|k: nat|
        wins_within(term, succ, i, k)) && (l[i] == Label::Loss ==> exists|k: nat|
        loses_within(term, succ, i, k)) by {
        if l[i] == Label::Win {
            assert(wins_within(term, succ, i, 0));
        }
        if l[i] == Label::Loss {
            assert(loses_within(term, succ, i, 0));
        }
    }
    assert forall|i: int| 0 <= i < n && term(i) is None && values[i] != UNKNOWN implies #[trigger] Set::<int>::empty().contains(i) by {
        assert(l[i] == code_label(values[i]));
    }
    lemma_increasing_len(unknown, n);
}

/// A strictly increasing list of values below `n` has at most `n` entries.
proof fn lemma_increasing_len(s: Seq<u32>, n: int)
    requires
        n >= 0,
        forall|x: int, y: int| 0 <= x < y < s.len() ==> #[trigger] s[x] < #[trigger] s[y],
        forall|x: int| 0 <= x < s.len() ==> (#[trigger] s[x] as int) < n,
    ensures
        s.len() <= n,
    decreases s.len(),
{
    if s.len() > 0 {
        let t = s.drop_last();
        assert forall|x: int| 0 <= x < t.len() implies (#[trigger] t[x] as int) < s[s.len() - 1] by {
            assert(t[x] == s[x]);
        }
        assert forall|x: int, y: int| 0 <= x < y < t.len() implies #[trigger] t[x] < #[trigger] t[y] by {
            assert(t[x] == s[x] && t[y] == s[y]);
        }
        let last = s[s.len() - 1] as int;
        lemma_increasing_len(t, last);
        assert(t.len() <= last);
        assert(last < n);
        assert(s.len() == t.len() + 1);
    }
}

proof fn lemma_round_node<G: Game>(
    g: &G,
    n: int,
    values0: Seq<u8>,
    values: Seq<u8>,
    nodes: Seq<u32>,
    u: int,
    survivors: Seq<u32>,
    changed: bool,
    seen: Set<int>,
)
    requires
        round_inv(g, n, values0, values, nodes, u, survivors, changed, seen),
        u < nodes.len(),
    ensures
        (nodes[u] as int) < n,
        (nodes[u] as int) < g.state_count() || n != g.state_count(),
        values[nodes[u] as int] == UNKNOWN,
        term_fn(g)(nodes[u] as int) is None,
        g.decode(nodes[u] as int) is Some,
{
    let i = nodes[u] as int;
    assert(values[i] == UNKNOWN);
    assert(labels(values)[i] == Label::Unknown);
    if g.decode(i) is None {
        assert(term_fn(g)(i) == Some(Outcome::Draw));
    }
}

proof fn lemma_mark_win<G: Game>(g: &G, n: int, values: Seq<u8>, i: int)
    requires
        values.len() == n,
        0 <= i < n,
        values[i] == UNKNOWN,
        forall|a: int| 0 <= a < n ==> #[trigger] values[a] <= 3,
        shaped(term_fn(g), n, labels(values)),
        sound(term_fn(g), moves_fn(g), n, labels(values)),
        term_fn(g)(i) is None,
        forall|k: int| 0 <= k < moves_fn(g)(i).len() ==> 0 <= #[trigger] moves_fn(g)(i)[k] < n,
        exists|k: int| 0 <= k < moves_fn(g)(i).len() && #[trigger] values[moves_fn(g)(i)[k]] == LOSS,
    ensures
        shaped(term_fn(g), n, labels(values.update(i, WIN))),
        sound(term_fn(g), moves_fn(g), n, labels(values.update(i, WIN))),
{
    let term = term_fn(g);
    let succ = moves_fn(g);
    let k = choose|k: int| 0 <= k < succ(i).len() && #[trigger] values[succ(i)[k]] == LOSS;
    let j = succ(i)[k];
    assert(labels(values)[j] == Label::Loss);
    let b = choose|b: nat| loses_within(term, succ, j, b);
    assert(wins_within(term, succ, i, b + 1));
    assert(labels(values)[i] == Label::Unknown);
    crate::retrograde::lemma_label_update(term, succ, n, labels(values), i, Label::Win);
    lemma_labels_update(values, i, WIN);
}

proof fn lemma_mark_loss<G: Game>(g: &G, n: int, values: Seq<u8>, i: int)
    requires
        values.len() == n,
        0 <= i < n,
        values[i] == UNKNOWN,
        forall|a: int| 0 <= a < n ==> #[trigger] values[a] <= 3,
        shaped(term_fn(g), n, labels(values)),
        sound(term_fn(g), moves_fn(g), n, labels(values)),
        term_fn(g)(i) is None,
        moves_fn(g)(i).len() > 0,
        forall|k: int| 0 <= k < moves_fn(g)(i).len() ==> 0 <= #[trigger] moves_fn(g)(i)[k] < n,
        forall|k: int| 0 <= k < moves_fn(g)(i).len() ==> #[trigger] values[moves_fn(g)(i)[k]] == WIN,
    ensures
        shaped(term_fn(g), n, labels(values.update(i, LOSS))),
        sound(term_fn(g), moves_fn(g), n, labels(values.update(i, LOSS))),
{
    let term = term_fn(g);
    let succ = moves_fn(g);
    let sp = succ(i);
    assert forall|m: int| 0 <= m < sp.len() implies #[trigger] eventually_wins(term, succ, sp[m]) by {
        assert(values[sp[m]] == WIN);
        assert(labels(values)[sp[m]] == Label::Win);
    }
    let b = lemma_common_win_bound(term, succ, sp);
    assert(loses_within(term, succ, i, b + 1));
    assert(labels(values)[i] == Label::Unknown);
    crate::retrograde::lemma_label_update(term, succ, n, labels(values), i, Label::Loss);
    lemma_labels_update(values, i, LOSS);
}

proof fn lemma_round_start<G: Game>(g: &G, n: int, values: Seq<u8>, nodes: Seq<u32>, seen: Set<int>)
    requires
        relax_inv(g, n, values, nodes, seen),
    ensures
        round_inv(g, n, values, values, nodes, 0, Seq::empty(), false, seen),
{
    assert forall|x: int| 0 <= x < nodes.len() implies #[trigger] values[nodes[x] as int] == UNKNOWN by {
        assert(nodes.contains(nodes[x]));
        assert((nodes[x] as int) < n);
        assert((nodes[x] as int) as u32 == nodes[x]);
    }
}

#[verifier::spinoff_prover]
proof fn lemma_round_step<G: Game>(
    g: &G,
    n: int,
    values0: Seq<u8>,
    before: Seq<u8>,
    values: Seq<u8>,
    nodes: Seq<u32>,
    u: int,
    surv_before: Seq<u32>,
    survivors: Seq<u32>,
    changed_before: bool,
    changed: bool,
    seen: Set<int>,
)
    requires
        round_inv(g, n, values0, before, nodes, u, surv_before, changed_before, seen),
        0 <= u < nodes.len(),
        ({
            let i = nodes[u] as int;
            let sp = moves_fn(g)(i);
            &&& forall|k: int| 0 <= k < sp.len() ==> 0 <= #[trigger] sp[k] < n
            &&& term_fn(g)(i) is None
            &&& values.len() == n
            &&& forall|a: int| 0 <= a < n ==> #[trigger] values[a] <= 3
            &&& shaped(term_fn(g), n, labels(values))
            &&& sound(term_fn(g), moves_fn(g), n, labels(values))
            &&& if exists|k: int| 0 <= k < sp.len() && #[trigger] before[sp[k]] == LOSS {
                values == before.update(i, WIN) && changed && survivors == surv_before
            } else if sp.len() > 0 && forall|k: int| 0 <= k < sp.len() ==> #[trigger] before[sp[k]] == WIN {
                values == before.update(i, LOSS) && changed && survivors == surv_before
            } else {
                values == before && changed == changed_before && survivors == surv_before.push(
                    nodes[u],
                )
            }
        }),
    ensures
        round_inv(g, n, values0, values, nodes, u + 1, survivors, changed, seen.insert(nodes[u] as int)),
{
    let term = term_fn(g);
    let succ = moves_fn(g);
    let i = nodes[u] as int;
    let sp = succ(i);
    let seen2 = seen.insert(i);
    assert((i as u32) == nodes[u]);
    // nodes are distinct, so only slot u changed among the nodes
    assert forall|x: int| 0 <= x < nodes.len() && x != u implies nodes[x] != nodes[u] by {
        if x < u {
            assert(nodes[x] < nodes[u]);
        } else {
            assert(nodes[u] < nodes[x]);
        }
    }
    assert forall|j: int| 0 <= j < n && !nodes.contains(j as u32) implies #[trigger] values[j] == values0[j] by {
        if j == i {
            assert(nodes.contains(nodes[u]));
        }
    }
    assert forall|x: int| u + 1 <= x < nodes.len() implies #[trigger] values[nodes[x] as int] == UNKNOWN by {
        assert(nodes[x] != nodes[u]);
        assert((nodes[x] as int) != i);
    }
    assert forall|x: int|
        0 <= x < u + 1 implies (#[trigger] values[nodes[x] as int] == UNKNOWN <==> survivors.contains(nodes[x])) by {
        if x < u {
            assert((nodes[x] as int) != i);
            assert(values[nodes[x] as int] == before[nodes[x] as int]);
            if survivors != surv_before {
                if survivors.contains(nodes[x]) && !surv_before.contains(nodes[x]) {
                    let y = choose|y: int| 0 <= y < survivors.len() && survivors[y] == nodes[x];
                    assert(y == surv_before.len());
                }
                if surv_before.contains(nodes[x]) {
                    let y = choose|y: int| 0 <= y < surv_before.len() && surv_before[y] == nodes[x];
                    assert(survivors[y] == nodes[x]);
                }
            }
        } else {
            if survivors != surv_before {
                assert(survivors[surv_before.len() as int] == nodes[u]);
            } else {
                if surv_before.contains(nodes[u]) {
                    let y = choose|y: int| 0 <= y < surv_before.len() && surv_before[y] == nodes[u];
                    assert(surv_before[y] < nodes[u]);
                }
            }
        }
    }
    assert forall|y: int| 0 <= y < survivors.len() implies exists|x: int|
        0 <= x < u + 1 && nodes[x] == #[trigger] survivors[y] by {
        if y < surv_before.len() {
            assert(survivors[y] == surv_before[y]);
            let x = choose|x: int| 0 <= x < u && nodes[x] == surv_before[y];
        } else {
            assert(survivors[y] == nodes[u]);
        }
    }
    assert forall|x: int, y: int| 0 <= x < y < survivors.len() implies #[trigger] survivors[x] < #[trigger] survivors[y] by {
        if y == surv_before.len() && survivors != surv_before {
            assert(survivors[x] == surv_before[x]);
            assert(surv_before[x] < nodes[u]);
        } else {
            assert(survivors[x] == surv_before[x] && survivors[y] == surv_before[y]);
        }
    }
    assert forall|y: int| 0 <= y < survivors.len() && u + 1 < nodes.len() implies #[trigger] survivors[y] < nodes[u + 1] by {
        if u + 1 < nodes.len() {
            assert(nodes[u] < nodes[u + 1]);
            if y < surv_before.len() {
                assert(survivors[y] == surv_before[y]);
            }
        }
    }
    assert forall|j: int| 0 <= j < n && term(j) is None && values[j] != UNKNOWN implies #[trigger] seen2.contains(j) by {
        if j != i {
            assert(values[j] == before[j]);
        }
    }
    assert forall|j: int, m: int| seen2.contains(j) && 0 <= m < succ(j).len() implies 0 <= #[trigger] succ(j)[m] < n by {
        if j != i {
            assert(seen.contains(j));
        }
    }
    if !changed {
        assert(values == before);
        assert forall|y: int| 0 <= y < survivors.len() implies #[trigger] closed_at(succ, labels(values), survivors[y] as int) by {
            if y < surv_before.len() {
                assert(survivors[y] == surv_before[y]);
            } else {
                assert(survivors[y] == nodes[u]);
                assert(labels(values)[i] == Label::Unknown);
                assert forall|m: int| 0 <= m < sp.len() implies labels(values)[#[trigger] sp[m]] != Label::Loss by {
                    assert(before[sp[m]] != LOSS);
                }
                if sp.len() > 0 {
                    let k = choose|k: int| 0 <= k < sp.len() && !(#[trigger] before[sp[k]] == WIN);
                    assert(labels(values)[sp[k]] != Label::Win);
                }
            }
        }
    }
}

proof fn lemma_round_done<G: Game>(
    g: &G,
    n: int,
    values0: Seq<u8>,
    values: Seq<u8>,
    nodes: Seq<u32>,
    survivors: Seq<u32>,
    changed: bool,
    seen: Set<int>,
)
    requires
        round_inv(g, n, values0, values, nodes, nodes.len() as int, survivors, changed, seen),
    ensures
        relax_inv(g, n, values, survivors, seen),
        forall|i: int| 0 <= i < n && term_fn(g)(i) is None ==> #[trigger] seen.contains(i),
        changed ==> survivors.len() < nodes.len(),
        !changed ==> survivors.len() == nodes.len(),
        !changed ==> forall|x: int|
            0 <= x < survivors.len() ==> #[trigger] closed_at(moves_fn(g), labels(values), survivors[x] as int),
{
    let term = term_fn(g);
    assert forall|x: int| 0 <= x < survivors.len() implies (#[trigger] survivors[x] as int) < n by {
        let y = choose|y: int| 0 <= y < nodes.len() && nodes[y] == survivors[x];
    }
    assert forall|i: int| 0 <= i < n implies (#[trigger] values[i] == UNKNOWN <==> survivors.contains(i as u32)) by {
        if nodes.contains(i as u32) {
            let x = choose|x: int| 0 <= x < nodes.len() && nodes[x] == i as u32;
            assert(nodes[x] as int == i);
        } else {
            assert(values[i] == values0[i]);
            if survivors.contains(i as u32) {
                let y = choose|y: int| 0 <= y < survivors.len() && survivors[y] == i as u32;
                let x = choose|x: int| 0 <= x < nodes.len() && nodes[x] == survivors[y];
                assert(nodes.contains(i as u32));
            }
        }
    }
    assert forall|i: int| 0 <= i < n && term(i) is None implies #[trigger] seen.contains(i) by {
        if values[i] == UNKNOWN {
            assert(survivors.contains(i as u32));
            let y = choose|y: int| 0 <= y < survivors.len() && survivors[y] == i as u32;
            let x = choose|x: int| 0 <= x < nodes.len() && nodes[x] == survivors[y];
            assert(seen.contains(nodes[x] as int));
        }
    }
}

proof fn lemma_relax_value<G: Game>(g: &G, n: int, values: Seq<u8>, unknown: Seq<u32>, seen: Set<int>)
    requires
        relax_inv(g, n, values, unknown, seen),
        forall|i: int| 0 <= i < n && term_fn(g)(i) is None ==> #[trigger] seen.contains(i),
        forall|x: int| 0 <= x < unknown.len() ==> #[trigger] closed_at(moves_fn(g), labels(values), unknown[x] as int),
    ensures
        forall|i: int| 0 <= i < n ==> #[trigger] outcome_of(labels(values)[i]) == solved_value(g, i),
        forall|i: int| 0 <= i < n ==> (#[trigger] values[i] == UNKNOWN <==> unknown.contains(i as u32)),
        forall|i: int| 0 <= i < n ==> #[trigger] outcome_of(labels(values)[i]) == outcome_of_code(values[i]),
{
    let term = term_fn(g);
    let succ = moves_fn(g);
    let l = labels(values);
    assert forall|i: int, m: int| 0 <= i < n && term(i) is None && 0 <= m < succ(i).len() implies 0 <= #[trigger] succ(i)[m] < n by {
        assert(seen.contains(i));
    }
    assert(moves_in_range(term, succ, n));
    assert forall|i: int| 0 <= i < n implies #[trigger] closed_at(succ, l, i) by {
        if l[i] == Label::Unknown {
            assert(values[i] == UNKNOWN);
            assert(unknown.contains(i as u32));
            let x = choose|x: int| 0 <= x < unknown.len() && unknown[x] == i as u32;
            assert(closed_at(succ, l, unknown[x] as int));
        }
    }
    assert(closed(term, succ, n, l));
    lemma_closed_is_value(term, succ, n, l);
    assert forall|i: int| 0 <= i < n implies #[trigger] outcome_of(labels(values)[i]) == outcome_of_code(values[i]) by {}
}

} // verus!
