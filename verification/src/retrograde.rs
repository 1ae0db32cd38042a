//! The game-theoretic value of a position in a finite game graph, and the
//! backward-induction sweep that computes it.
//!
//! A graph is given by two functions over its nodes: `term`, the outcome of a
//! terminal node (from the side to move; `None` for a node where play goes
//! on), and `succ`, the nodes one move away from a non-terminal node. A node
//! wins within `k` moves when some move reaches a node that loses within
//! `k - 1`; it loses within `k` when it has a move and every move reaches a node
//! that wins within `k - 1`. A node that does neither within any bound (a
//! repetition that never forces a decision, or a terminal draw) is a draw.

use vstd::prelude::*;
use crate::Outcome;

verus! {

/// How often `x` occurs in `s`.
pub open spec fn occurrences<A>(s: Seq<A>, x: A) -> nat
    decreases s.len(),
{
    if s.len() == 0 {
        0
    } else {
        occurrences(s.drop_last(), x) + (if s.last() == x { 1nat } else { 0nat })
    }
}

/// How many positions of `s` hold an element of `d`.
pub open spec fn occurrences_in(s: Seq<int>, d: Set<int>) -> nat
    decreases s.len(),
{
    if s.len() == 0 {
        0
    } else {
        occurrences_in(s.drop_last(), d) + (if d.contains(s.last()) { 1nat } else { 0nat })
    }
}

/// The side to move at `x` can force a win within `k` moves.
pub open spec fn wins_within<T>(
    term: spec_fn(T) -> Option<Outcome>,
    succ: spec_fn(T) -> Seq<T>,
    x: T,
    k: nat,
) -> bool
    decreases k,
{
    match term(x) {
        Some(o) => o == Outcome::Win,
        None => if k == 0 {
            false
        } else {
            exists|m: int|
                #![trigger succ(x)[m]]
                0 <= m < succ(x).len() && loses_within(
                    term,
                    succ,
                    succ(x)[m],
                    (k - 1) as nat,
                )
        },
    }
}

/// The side to move at `x` loses within `k` moves whatever it does.
pub open spec fn loses_within<T>(
    term: spec_fn(T) -> Option<Outcome>,
    succ: spec_fn(T) -> Seq<T>,
    x: T,
    k: nat,
) -> bool
    decreases k,
{
    match term(x) {
        Some(o) => o == Outcome::Loss,
        None => if k == 0 {
            false
        } else {
            succ(x).len() > 0 && forall|m: int|
                #![trigger succ(x)[m]]
                0 <= m < succ(x).len() ==> wins_within(
                    term,
                    succ,
                    succ(x)[m],
                    (k - 1) as nat,
                )
        },
    }
}

/// The game-theoretic value of `x`: a win if the side to move can force one, a
/// loss if the opponent can, and otherwise a draw.
pub open spec fn game_value<T>(
    term: spec_fn(T) -> Option<Outcome>,
    succ: spec_fn(T) -> Seq<T>,
    x: T,
) -> Outcome {
    if exists|k: nat| wins_within(term, succ, x, k) {
        Outcome::Win
    } else if exists|k: nat| loses_within(term, succ, x, k) {
        Outcome::Loss
    } else {
        Outcome::Draw
    }
}

/// A bound that suffices for `k` suffices for `k + 1`.
pub proof fn lemma_within_step<T>(
    term: spec_fn(T) -> Option<Outcome>,
    succ: spec_fn(T) -> Seq<T>,
    x: T,
    k: nat,
)
    ensures
        wins_within(term, succ, x, k) ==> wins_within(term, succ, x, k + 1),
        loses_within(term, succ, x, k) ==> loses_within(term, succ, x, k + 1),
    decreases k,
{
    if term(x) is None && k > 0 {
        let s = succ(x);
        assert forall|m: int| 0 <= m < s.len() implies (loses_within(
            term,
            succ,
            s[m],
            (k - 1) as nat,
        ) ==> loses_within(term, succ, s[m], k)) && (wins_within(term, succ, s[m], (k - 1) as nat)
            ==> wins_within(term, succ, s[m], k)) by {
            lemma_within_step(term, succ, s[m], (k - 1) as nat);
        }
        if wins_within(term, succ, x, k) {
            let m = choose|m: int|
                #![trigger succ(x)[m]]
                0 <= m < succ(x).len() && loses_within(term, succ, succ(x)[m], (k - 1) as nat);
            assert(loses_within(term, succ, succ(x)[m], k));
        }
    }
}

/// A bound that suffices for `k1` suffices for any larger `k2`.
pub proof fn lemma_within_mono<T>(
    term: spec_fn(T) -> Option<Outcome>,
    succ: spec_fn(T) -> Seq<T>,
    x: T,
    k1: nat,
    k2: nat,
)
    requires
        k1 <= k2,
    ensures
        wins_within(term, succ, x, k1) ==> wins_within(term, succ, x, k2),
        loses_within(term, succ, x, k1) ==> loses_within(term, succ, x, k2),
    decreases k2 - k1,
{
    if k1 < k2 {
        lemma_within_step(term, succ, x, k1);
        lemma_within_mono(term, succ, x, k1 + 1, k2);
    }
}

/// No position is both won and lost for the side to move.
pub proof fn lemma_win_loss_disjoint<T>(
    term: spec_fn(T) -> Option<Outcome>,
    succ: spec_fn(T) -> Seq<T>,
    x: T,
    k1: nat,
    k2: nat,
)
    ensures
        !(wins_within(term, succ, x, k1) && loses_within(term, succ, x, k2)),
    decreases k1 + k2,
{
    if term(x) is None && wins_within(term, succ, x, k1) && loses_within(term, succ, x, k2) {
        let m = choose|m: int|
            #![trigger succ(x)[m]]
            0 <= m < succ(x).len() && loses_within(term, succ, succ(x)[m], (k1 - 1) as nat);
        assert(wins_within(term, succ, succ(x)[m], (k2 - 1) as nat));
        lemma_win_loss_disjoint(term, succ, succ(x)[m], (k2 - 1) as nat, (k1 - 1) as nat);
    }
}

/// A position won within some bound has the value `Win`.
pub proof fn lemma_value_win<T>(
    term: spec_fn(T) -> Option<Outcome>,
    succ: spec_fn(T) -> Seq<T>,
    x: T,
    k: nat,
)
    requires
        wins_within(term, succ, x, k),
    ensures
        game_value(term, succ, x) == Outcome::Win,
{
}

/// A position lost within some bound has the value `Loss`.
pub proof fn lemma_value_loss<T>(
    term: spec_fn(T) -> Option<Outcome>,
    succ: spec_fn(T) -> Seq<T>,
    x: T,
    k: nat,
)
    requires
        loses_within(term, succ, x, k),
    ensures
        game_value(term, succ, x) == Outcome::Loss,
{
    if exists|k2: nat| wins_within(term, succ, x, k2) {
        let k2 = choose|k2: nat| wins_within(term, succ, x, k2);
        lemma_win_loss_disjoint(term, succ, x, k2, k);
    }
}

/// `w` and `l` are closed under the rules: they hold every terminal win and
/// loss respectively, `w` holds every node where play goes on with a move into
/// `l`, and `l` every such node that has a move and only moves into `w`.
pub open spec fn rule_closed<T>(
    term: spec_fn(T) -> Option<Outcome>,
    succ: spec_fn(T) -> Seq<T>,
    w: spec_fn(T) -> bool,
    l: spec_fn(T) -> bool,
) -> bool {
    &&& forall|y: T| term(y) == Some(Outcome::Win) ==> #[trigger] w(y)
    &&& forall|y: T| term(y) == Some(Outcome::Loss) ==> #[trigger] l(y)
    &&& forall|y: T, m: int| term(y) is None && 0 <= m < succ(y).len() && #[trigger] l(succ(y)[m]) ==> w(y)
    &&& forall|y: T|
        term(y) is None && succ(y).len() > 0 && (forall|m: int| 0 <= m < succ(y).len() ==> #[trigger] w(succ(y)[m]))
            ==> #[trigger] l(y)
}

proof fn lemma_within_closed<T>(
    term: spec_fn(T) -> Option<Outcome>,
    succ: spec_fn(T) -> Seq<T>,
    w: spec_fn(T) -> bool,
    l: spec_fn(T) -> bool,
    x: T,
    k: nat,
)
    requires
        rule_closed(term, succ, w, l),
    ensures
        wins_within(term, succ, x, k) ==> w(x),
        loses_within(term, succ, x, k) ==> l(x),
    decreases k,
{
    if term(x) is None && k > 0 {
        if wins_within(term, succ, x, k) {
            let m = choose|m: int|
                0 <= m < succ(x).len() && loses_within(term, succ, #[trigger] succ(x)[m], (k - 1) as nat);
            lemma_within_closed(term, succ, w, l, succ(x)[m], (k - 1) as nat);
        }
        if loses_within(term, succ, x, k) {
            assert forall|m: int| 0 <= m < succ(x).len() implies #[trigger] w(succ(x)[m]) by {
                lemma_within_closed(term, succ, w, l, succ(x)[m], (k - 1) as nat);
            }
        }
    }
}

/// The won and lost nodes are the least sets closed under the rules: any two
/// sets closed under the rules hold every won and every lost node
/// respectively (every other node, a terminal draw or a repetition that never
/// forces a decision, is a draw).
pub proof fn lemma_value_least<T>(
    term: spec_fn(T) -> Option<Outcome>,
    succ: spec_fn(T) -> Seq<T>,
    w: spec_fn(T) -> bool,
    l: spec_fn(T) -> bool,
    x: T,
)
    requires
        rule_closed(term, succ, w, l),
    ensures
        game_value(term, succ, x) == Outcome::Win ==> w(x),
        game_value(term, succ, x) == Outcome::Loss ==> l(x),
{
    if game_value(term, succ, x) == Outcome::Win {
        let k = choose|k: nat| wins_within(term, succ, x, k);
        lemma_within_closed(term, succ, w, l, x, k);
    }
    if game_value(term, succ, x) == Outcome::Loss {
        let k = choose|k: nat| loses_within(term, succ, x, k);
        lemma_within_closed(term, succ, w, l, x, k);
    }
}

/// Every node of `s` is won within some bound.
pub open spec fn all_eventually_win<T>(
    term: spec_fn(T) -> Option<Outcome>,
    succ: spec_fn(T) -> Seq<T>,
    s: Seq<T>,
) -> bool {
    forall|m: int| 0 <= m < s.len() ==> #[trigger] eventually_wins(term, succ, s[m])
}

/// `x` is won within some bound.
pub open spec fn eventually_wins<T>(
    term: spec_fn(T) -> Option<Outcome>,
    succ: spec_fn(T) -> Seq<T>,
    x: T,
) -> bool {
    exists|k: nat| wins_within(term, succ, x, k)
}

/// If every node of `s` is won within some bound, one bound serves them all.
pub proof fn lemma_common_win_bound<T>(
    term: spec_fn(T) -> Option<Outcome>,
    succ: spec_fn(T) -> Seq<T>,
    s: Seq<T>,
) -> (bound: nat)
    requires
        all_eventually_win(term, succ, s),
    ensures
        forall|m: int| 0 <= m < s.len() ==> wins_within(term, succ, #[trigger] s[m], bound),
    decreases s.len(),
{
    if s.len() == 0 {
        0
    } else {
        let init = s.drop_last();
        assert forall|m: int| 0 <= m < init.len() implies #[trigger] eventually_wins(term, succ, init[m]) by {
            assert(init[m] == s[m]);
            assert(eventually_wins(term, succ, s[m]));
        }
        let k0 = lemma_common_win_bound(term, succ, init);
        let last = s[s.len() - 1];
        assert(eventually_wins(term, succ, last));
        let k1 = choose|k: nat| wins_within(term, succ, last, k);
        let k = if k0 < k1 { k1 } else { k0 };
        assert forall|m: int| 0 <= m < s.len() implies wins_within(term, succ, #[trigger] s[m], k) by {
            if m < s.len() - 1 {
                assert(init[m] == s[m]);
                lemma_within_mono(term, succ, s[m], k0, k);
            } else {
                lemma_within_mono(term, succ, s[m], k1, k);
            }
        }
        k
    }
}

/// The value of a node agrees with the values one move away: a terminal node
/// has its own outcome; a node where play goes on is a win exactly when some
/// move reaches a lost node, and a loss exactly when it has a move and every
/// move reaches a won node (anything else is a draw).
pub proof fn lemma_value_local<T>(
    term: spec_fn(T) -> Option<Outcome>,
    succ: spec_fn(T) -> Seq<T>,
    x: T,
)
    ensures
        term(x) matches Some(o) ==> game_value(term, succ, x) == o,
        term(x) is None ==> (game_value(term, succ, x) == Outcome::Win <==> exists|m: int|
            0 <= m < succ(x).len() && game_value(term, succ, #[trigger] succ(x)[m]) == Outcome::Loss),
        term(x) is None ==> (game_value(term, succ, x) == Outcome::Loss <==> (succ(x).len() > 0
            && forall|m: int|
            0 <= m < succ(x).len() ==> game_value(term, succ, #[trigger] succ(x)[m]) == Outcome::Win)),
{
    match term(x) {
        Some(o) => {
            if o == Outcome::Win {
                assert(wins_within(term, succ, x, 0));
            } else if o == Outcome::Loss {
                lemma_value_loss(term, succ, x, 0);
            } else {
                assert(forall|k: nat| !#[trigger] wins_within(term, succ, x, k));
                assert(forall|k: nat| !#[trigger] loses_within(term, succ, x, k));
            }
        },
        None => {
            let s = succ(x);
            if game_value(term, succ, x) == Outcome::Win {
                let k = choose|k: nat| wins_within(term, succ, x, k);
                let m = choose|m: int|
                    #![trigger succ(x)[m]]
                    0 <= m < succ(x).len() && loses_within(term, succ, succ(x)[m], (k - 1) as nat);
                lemma_value_loss(term, succ, s[m], (k - 1) as nat);
            }
            if exists|m: int| 0 <= m < s.len() && game_value(term, succ, #[trigger] s[m]) == Outcome::Loss {
                let m = choose|m: int| 0 <= m < s.len() && game_value(term, succ, #[trigger] s[m]) == Outcome::Loss;
                let k = choose|k: nat| loses_within(term, succ, s[m], k);
                assert(wins_within(term, succ, x, k + 1));
                lemma_value_win(term, succ, x, k + 1);
            }
            if game_value(term, succ, x) == Outcome::Loss {
                let k = choose|k: nat| loses_within(term, succ, x, k);
                assert forall|m: int| 0 <= m < s.len() implies game_value(term, succ, #[trigger] s[m]) == Outcome::Win by {
                    assert(wins_within(term, succ, s[m], (k - 1) as nat));
                    lemma_value_win(term, succ, s[m], (k - 1) as nat);
                }
            }
            if s.len() > 0 && forall|m: int| 0 <= m < s.len() ==> game_value(term, succ, #[trigger] s[m]) == Outcome::Win {
                assert forall|m: int| 0 <= m < s.len() implies #[trigger] eventually_wins(term, succ, s[m]) by {
                    assert(game_value(term, succ, s[m]) == Outcome::Win);
                }
                let b = lemma_common_win_bound(term, succ, s);
                assert(loses_within(term, succ, x, b + 1));
                lemma_value_loss(term, succ, x, b + 1);
            }
        },
    }
}

/// Relabelling the nodes along a map that preserves terminal outcomes and moves
/// preserves the bounds at which nodes are won and lost.
pub proof fn lemma_graph_map<A, B>(
    ta: spec_fn(A) -> Option<Outcome>,
    sa: spec_fn(A) -> Seq<A>,
    tb: spec_fn(B) -> Option<Outcome>,
    sb: spec_fn(B) -> Seq<B>,
    f: spec_fn(A) -> B,
    dom: spec_fn(A) -> bool,
    x: A,
    k: nat,
)
    requires
        dom(x),
        forall|a: A| #[trigger] dom(a) ==> tb(f(a)) == ta(a),
        forall|a: A|
            #[trigger] dom(a) && ta(a) is None ==> sb(f(a)) == sa(a).map_values(f) && forall|m: int|
                0 <= m < sa(a).len() ==> dom(#[trigger] sa(a)[m]),
    ensures
        wins_within(ta, sa, x, k) == wins_within(tb, sb, f(x), k),
        loses_within(ta, sa, x, k) == loses_within(tb, sb, f(x), k),
    decreases k,
{
    if ta(x) is None && k > 0 {
        let s = sa(x);
        assert(sb(f(x)) == s.map_values(f));
        assert forall|m: int| 0 <= m < s.len() implies (wins_within(ta, sa, s[m], (k - 1) as nat)
            == wins_within(tb, sb, #[trigger] sb(f(x))[m], (k - 1) as nat)) && (loses_within(
            ta,
            sa,
            s[m],
            (k - 1) as nat,
        ) == loses_within(tb, sb, sb(f(x))[m], (k - 1) as nat)) by {
            assert(dom(s[m]));
            assert(sb(f(x))[m] == f(s[m]));
            lemma_graph_map(ta, sa, tb, sb, f, dom, s[m], (k - 1) as nat);
        }
        if wins_within(ta, sa, x, k) {
            let m = choose|m: int|
                #![trigger sa(x)[m]]
                0 <= m < sa(x).len() && loses_within(ta, sa, sa(x)[m], (k - 1) as nat);
            assert(loses_within(tb, sb, sb(f(x))[m], (k - 1) as nat));
        }
        if wins_within(tb, sb, f(x), k) {
            let m = choose|m: int|
                #![trigger sb(f(x))[m]]
                0 <= m < sb(f(x)).len() && loses_within(tb, sb, sb(f(x))[m], (k - 1) as nat);
            assert(loses_within(ta, sa, sa(x)[m], (k - 1) as nat));
        }
        if loses_within(ta, sa, x, k) {
            assert forall|m: int| 0 <= m < sb(f(x)).len() implies wins_within(tb, sb, #[trigger] sb(f(x))[m], (k - 1) as nat) by {
                assert(wins_within(ta, sa, s[m], (k - 1) as nat));
            }
        }
        if loses_within(tb, sb, f(x), k) {
            assert forall|m: int| 0 <= m < s.len() implies wins_within(ta, sa, #[trigger] s[m], (k - 1) as nat) by {
                assert(wins_within(tb, sb, sb(f(x))[m], (k - 1) as nat));
            }
        }
    }
}

/// The same, for the game value.
pub proof fn lemma_graph_map_value<A, B>(
    ta: spec_fn(A) -> Option<Outcome>,
    sa: spec_fn(A) -> Seq<A>,
    tb: spec_fn(B) -> Option<Outcome>,
    sb: spec_fn(B) -> Seq<B>,
    f: spec_fn(A) -> B,
    dom: spec_fn(A) -> bool,
    x: A,
)
    requires
        dom(x),
        forall|a: A| #[trigger] dom(a) ==> tb(f(a)) == ta(a),
        forall|a: A|
            #[trigger] dom(a) && ta(a) is None ==> sb(f(a)) == sa(a).map_values(f) && forall|m: int|
                0 <= m < sa(a).len() ==> dom(#[trigger] sa(a)[m]),
    ensures
        game_value(ta, sa, x) == game_value(tb, sb, f(x)),
{
    let y = f(x);
    assert forall|k: nat| #[trigger] wins_within(ta, sa, x, k) == wins_within(tb, sb, y, k) by {
        lemma_graph_map(ta, sa, tb, sb, f, dom, x, k);
    }
    assert forall|k: nat| #[trigger] wins_within(tb, sb, y, k) == wins_within(ta, sa, x, k) by {
        lemma_graph_map(ta, sa, tb, sb, f, dom, x, k);
    }
    assert forall|k: nat| #[trigger] loses_within(ta, sa, x, k) == loses_within(tb, sb, y, k) by {
        lemma_graph_map(ta, sa, tb, sb, f, dom, x, k);
    }
    assert forall|k: nat| #[trigger] loses_within(tb, sb, y, k) == loses_within(ta, sa, x, k) by {
        lemma_graph_map(ta, sa, tb, sb, f, dom, x, k);
    }
    if exists|k: nat| wins_within(ta, sa, x, k) {
        let k = choose|k: nat| wins_within(ta, sa, x, k);
        assert(wins_within(tb, sb, y, k));
    }
    if exists|k: nat| wins_within(tb, sb, y, k) {
        let k = choose|k: nat| wins_within(tb, sb, y, k);
        assert(wins_within(ta, sa, x, k));
    }
    if exists|k: nat| loses_within(ta, sa, x, k) {
        let k = choose|k: nat| loses_within(ta, sa, x, k);
        assert(loses_within(tb, sb, y, k));
    }
    if exists|k: nat| loses_within(tb, sb, y, k) {
        let k = choose|k: nat| loses_within(tb, sb, y, k);
        assert(loses_within(ta, sa, x, k));
    }
}

// ---------------------------------------------------------------------------
// Counting lemmas.

pub proof fn lemma_occurrences_push<A>(s: Seq<A>, a: A, x: A)
    ensures
        occurrences(s.push(a), x) == occurrences(s, x) + (if a == x { 1nat } else { 0nat }),
{
    assert(s.push(a).drop_last() =~= s);
}

pub proof fn lemma_occurrences_at<A>(s: Seq<A>, q: int)
    requires
        0 <= q < s.len(),
    ensures
        occurrences(s, s[q]) > 0,
    decreases s.len(),
{
    if q < s.len() - 1 {
        assert(s.drop_last()[q] == s[q]);
        lemma_occurrences_at(s.drop_last(), q);
    }
}

pub proof fn lemma_occurrences_pos<A>(s: Seq<A>, x: A)
    requires
        occurrences(s, x) > 0,
    ensures
        exists|q: int| 0 <= q < s.len() && s[q] == x,
    decreases s.len(),
{
    if s.last() == x {
        assert(s[s.len() - 1] == x);
    } else {
        lemma_occurrences_pos(s.drop_last(), x);
        let q = choose|q: int| 0 <= q < s.drop_last().len() && s.drop_last()[q] == x;
        assert(s[q] == x);
    }
}

pub proof fn lemma_occurrences_prefix<A>(s: Seq<A>, q: int, x: A)
    requires
        0 <= q <= s.len(),
    ensures
        occurrences(s.subrange(0, q), x) <= occurrences(s, x),
    decreases s.len() - q,
{
    if q < s.len() {
        lemma_occurrences_prefix(s, q + 1, x);
        assert(s.subrange(0, q + 1) =~= s.subrange(0, q).push(s[q]));
        lemma_occurrences_push(s.subrange(0, q), s[q], x);
    } else {
        assert(s.subrange(0, q) =~= s);
    }
}

pub proof fn lemma_occurrences_in_le(s: Seq<int>, d: Set<int>)
    ensures
        occurrences_in(s, d) <= s.len(),
    decreases s.len(),
{
    if s.len() > 0 {
        lemma_occurrences_in_le(s.drop_last(), d);
    }
}

pub proof fn lemma_occurrences_in_insert(s: Seq<int>, d: Set<int>, t: int)
    requires
        !d.contains(t),
    ensures
        occurrences_in(s, d.insert(t)) == occurrences_in(s, d) + occurrences(s, t),
    decreases s.len(),
{
    if s.len() > 0 {
        lemma_occurrences_in_insert(s.drop_last(), d, t);
    }
}

/// Fewer counted positions than elements: some element lies outside `d`.
pub proof fn lemma_occurrences_in_missing(s: Seq<int>, d: Set<int>)
    requires
        occurrences_in(s, d) < s.len(),
    ensures
        exists|m: int| 0 <= m < s.len() && !d.contains(s[m]),
    decreases s.len(),
{
    if d.contains(s.last()) {
        lemma_occurrences_in_le(s.drop_last(), d);
        lemma_occurrences_in_missing(s.drop_last(), d);
        let m = choose|m: int| 0 <= m < s.drop_last().len() && !d.contains(s.drop_last()[m]);
        assert(s[m] == s.drop_last()[m]);
    } else {
        assert(!d.contains(s[s.len() - 1]));
    }
}

/// All positions counted: every element lies in `d`.
pub proof fn lemma_occurrences_in_full(s: Seq<int>, d: Set<int>)
    requires
        occurrences_in(s, d) >= s.len(),
    ensures
        forall|m: int| 0 <= m < s.len() ==> d.contains(s[m]),
    decreases s.len(),
{
    if s.len() > 0 {
        lemma_occurrences_in_le(s.drop_last(), d);
        lemma_occurrences_in_full(s.drop_last(), d);
        assert forall|m: int| 0 <= m < s.len() implies d.contains(s[m]) by {
            if m < s.len() - 1 {
                assert(s[m] == s.drop_last()[m]);
            }
        }
    }
}

// ---------------------------------------------------------------------------
// Labelings of the nodes `0..n` of a graph over integers.

/// A node's label during the sweep; `Unknown` becomes a draw at the end.
#[derive(Clone, Copy, PartialEq, Eq, Structural)]
pub enum Label {
    Unknown,
    Win,
    Loss,
    Draw,
}

pub open spec fn label_of(o: Outcome) -> Label {
    match o {
        Outcome::Win => Label::Win,
        Outcome::Loss => Label::Loss,
        Outcome::Draw => Label::Draw,
    }
}

pub open spec fn outcome_of(l: Label) -> Outcome {
    match l {
        Label::Win => Outcome::Win,
        Label::Loss => Outcome::Loss,
        _ => Outcome::Draw,
    }
}

/// The label that an outcome gets.
pub fn label_for(o: Outcome) -> (l: Label)
    ensures
        l == label_of(o),
{
    match o {
        Outcome::Win => Label::Win,
        Outcome::Loss => Label::Loss,
        Outcome::Draw => Label::Draw,
    }
}

/// The outcome that a final label stands for.
pub fn outcome_for(l: Label) -> (o: Outcome)
    ensures
        o == outcome_of(l),
{
    match l {
        Label::Win => Outcome::Win,
        Label::Loss => Outcome::Loss,
        _ => Outcome::Draw,
    }
}

/// Every move of every non-terminal node among `0..n` stays among `0..n`.
pub open spec fn moves_in_range(
    term: spec_fn(int) -> Option<Outcome>,
    succ: spec_fn(int) -> Seq<int>,
    n: int,
) -> bool {
    forall|i: int, m: int|
        0 <= i < n && term(i) is None && 0 <= m < succ(i).len() ==> 0 <= #[trigger] succ(i)[m] < n
}

/// Terminal nodes carry their outcome; others are never labelled a draw.
pub open spec fn shaped(term: spec_fn(int) -> Option<Outcome>, n: int, l: Seq<Label>) -> bool {
    &&& l.len() == n
    &&& forall|i: int|
        0 <= i < n ==> match term(i) {
            Some(o) => #[trigger] l[i] == label_of(o),
            None => l[i] != Label::Draw,
        }
}

/// Every decided label is justified by a bound.
pub open spec fn sound(
    term: spec_fn(int) -> Option<Outcome>,
    succ: spec_fn(int) -> Seq<int>,
    n: int,
    l: Seq<Label>,
) -> bool {
    forall|i: int|
        0 <= i < n ==> (#[trigger] l[i] == Label::Win ==> exists|k: nat|
            wins_within(term, succ, i, k)) && (l[i] == Label::Loss ==> exists|k: nat|
            loses_within(term, succ, i, k))
}

/// The undecided node `i` could not be decided from its neighbours' labels.
pub open spec fn closed_at(succ: spec_fn(int) -> Seq<int>, l: Seq<Label>, i: int) -> bool {
    l[i] == Label::Unknown ==> (forall|m: int|
        0 <= m < succ(i).len() ==> l[#[trigger] succ(i)[m]] != Label::Loss) && (succ(i).len() == 0
        || exists|m: int| 0 <= m < succ(i).len() && l[#[trigger] succ(i)[m]] != Label::Win)
}

/// No undecided node could be decided from its neighbours' labels.
pub open spec fn closed(
    term: spec_fn(int) -> Option<Outcome>,
    succ: spec_fn(int) -> Seq<int>,
    n: int,
    l: Seq<Label>,
) -> bool {
    forall|i: int| 0 <= i < n ==> #[trigger] closed_at(succ, l, i)
}

proof fn lemma_closed_complete(
    term: spec_fn(int) -> Option<Outcome>,
    succ: spec_fn(int) -> Seq<int>,
    n: int,
    l: Seq<Label>,
    x: int,
    k: nat,
)
    requires
        moves_in_range(term, succ, n),
        shaped(term, n, l),
        sound(term, succ, n, l),
        closed(term, succ, n, l),
        0 <= x < n,
    ensures
        wins_within(term, succ, x, k) ==> l[x] == Label::Win,
        loses_within(term, succ, x, k) ==> l[x] == Label::Loss,
    decreases k,
{
    if term(x) is None && k > 0 {
        let s = succ(x);
        assert(closed_at(succ, l, x));
        assert forall|m: int| 0 <= m < s.len() implies (wins_within(term, succ, s[m], (k - 1) as nat)
            ==> l[s[m]] == Label::Win) && (loses_within(term, succ, s[m], (k - 1) as nat) ==> l[s[m]]
            == Label::Loss) by {
            assert(0 <= succ(x)[m] < n);
            lemma_closed_complete(term, succ, n, l, s[m], (k - 1) as nat);
        }
        if wins_within(term, succ, x, k) {
            let m = choose|m: int|
                #![trigger succ(x)[m]]
                0 <= m < succ(x).len() && loses_within(term, succ, succ(x)[m], (k - 1) as nat);
            assert(l[s[m]] == Label::Loss);
            if l[x] == Label::Loss {
                let k2 = choose|k2: nat| loses_within(term, succ, x, k2);
                lemma_win_loss_disjoint(term, succ, x, k, k2);
            }
        }
        if loses_within(term, succ, x, k) {
            assert(forall|m: int| 0 <= m < s.len() ==> l[#[trigger] s[m]] == Label::Win);
            if l[x] == Label::Win {
                let k2 = choose|k2: nat| wins_within(term, succ, x, k2);
                lemma_win_loss_disjoint(term, succ, x, k2, k);
            }
        }
    }
}

/// A shaped, sound and closed labeling is the game value.
pub proof fn lemma_closed_is_value(
    term: spec_fn(int) -> Option<Outcome>,
    succ: spec_fn(int) -> Seq<int>,
    n: int,
    l: Seq<Label>,
)
    requires
        moves_in_range(term, succ, n),
        shaped(term, n, l),
        sound(term, succ, n, l),
        closed(term, succ, n, l),
    ensures
        forall|i: int| 0 <= i < n ==> outcome_of(#[trigger] l[i]) == game_value(term, succ, i),
{
    assert forall|i: int| 0 <= i < n implies outcome_of(#[trigger] l[i]) == game_value(
        term,
        succ,
        i,
    ) by {
        if l[i] == Label::Win {
            let k = choose|k: nat| wins_within(term, succ, i, k);
            lemma_value_win(term, succ, i, k);
        } else if l[i] == Label::Loss {
            let k = choose|k: nat| loses_within(term, succ, i, k);
            lemma_value_loss(term, succ, i, k);
        } else {
            if exists|k: nat| wins_within(term, succ, i, k) {
                let k = choose|k: nat| wins_within(term, succ, i, k);
                lemma_closed_complete(term, succ, n, l, i, k);
            }
            if exists|k: nat| loses_within(term, succ, i, k) {
                let k = choose|k: nat| loses_within(term, succ, i, k);
                lemma_closed_complete(term, succ, n, l, i, k);
            }
        }
    }
}

pub proof fn lemma_occurrences_update<A>(s: Seq<A>, i: int, v: A, x: A)
    requires
        0 <= i < s.len(),
        s[i] == x,
        v != x,
    ensures
        occurrences(s.update(i, v), x) + 1 == occurrences(s, x),
    decreases s.len(),
{
    if i == s.len() - 1 {
        assert(s.update(i, v).drop_last() =~= s.drop_last());
    } else {
        assert(s.update(i, v).drop_last() =~= s.drop_last().update(i, v));
        lemma_occurrences_update(s.drop_last(), i, v, x);
    }
}

pub proof fn lemma_occurrences_in_empty(s: Seq<int>)
    ensures
        occurrences_in(s, Set::empty()) == 0,
    decreases s.len(),
{
    if s.len() > 0 {
        lemma_occurrences_in_empty(s.drop_last());
    }
}

// ---------------------------------------------------------------------------
// Propagation.

/// `t` was dequeued before position `head`.
pub open spec fn done_before(queue: Seq<usize>, head: int, t: int) -> bool {
    exists|a: int| 0 <= a < head && #[trigger] queue[a] as int == t
}

pub open spec fn decided(l: Label) -> bool {
    l == Label::Win || l == Label::Loss
}

/// The queue holds each decided node exactly once, and nothing else.
pub open spec fn queue_exact(queue: Seq<usize>, n: int, label: Seq<Label>) -> bool {
    &&& forall|a: int| 0 <= a < queue.len() ==> (#[trigger] queue[a] as int) < n
    &&& forall|a: int, b: int| 0 <= a < b < queue.len() ==> #[trigger] queue[a] != #[trigger] queue[b]
    &&& forall|i: int|
        0 <= i < n ==> (decided(#[trigger] label[i]) <==> exists|a: int|
            0 <= a < queue.len() && queue[a] as int == i)
}

/// `rev[t]` lists each `p` once for every move of `p` that reaches `t`.
pub open spec fn reverse_edges(
    term: spec_fn(int) -> Option<Outcome>,
    succ: spec_fn(int) -> Seq<int>,
    n: int,
    rev: Seq<Seq<usize>>,
) -> bool {
    &&& rev.len() == n
    &&& forall|t: int, p: usize|
        0 <= t < n ==> #[trigger] occurrences(rev[t], p) == (if (p as int) < n && term(p as int) is None {
            occurrences(succ(p as int), t)
        } else {
            0
        })
}

/// What one pass over the nodes builds before propagation: terminal labels,
/// move counts, reverse edges, and the queue of decided nodes.
pub open spec fn seeded(
    term: spec_fn(int) -> Option<Outcome>,
    succ: spec_fn(int) -> Seq<int>,
    n: int,
    label: Seq<Label>,
    unresolved: Seq<usize>,
    rev: Seq<Seq<usize>>,
    queue: Seq<usize>,
) -> bool {
    &&& label.len() == n
    &&& unresolved.len() == n
    &&& moves_in_range(term, succ, n)
    &&& forall|i: int|
        0 <= i < n ==> match term(i) {
            Some(o) => #[trigger] label[i] == label_of(o),
            None => label[i] == Label::Unknown && unresolved[i] == succ(i).len(),
        }
    &&& queue_exact(queue, n, label)
    &&& reverse_edges(term, succ, n, rev)
}

pub open spec fn views_of(rev: Seq<Vec<usize>>) -> Seq<Seq<usize>> {
    rev.map_values(|v: Vec<usize>| v@)
}

#[verifier::opaque]
/// What holds between two dequeued nodes: `head` nodes have had their
/// predecessors settled, and `dw` holds those of them that are wins.
pub open spec fn sweep_inv(
    term: spec_fn(int) -> Option<Outcome>,
    succ: spec_fn(int) -> Seq<int>,
    n: int,
    rev0: Seq<Seq<usize>>,
    label: Seq<Label>,
    unresolved: Seq<usize>,
    queue: Seq<usize>,
    head: int,
    dw: Set<int>,
) -> bool {
    &&& label.len() == n
    &&& unresolved.len() == n
    &&& n <= usize::MAX
    &&& 0 <= head <= queue.len()
    &&& moves_in_range(term, succ, n)
    &&& reverse_edges(term, succ, n, rev0)
    &&& shaped(term, n, label)
    &&& sound(term, succ, n, label)
    &&& queue_exact(queue, n, label)
    &&& forall|x: int|
        dw.contains(x) <==> (0 <= x < n && done_before(queue, head, x) && label[x] == Label::Win)
    &&& forall|p: int|
        0 <= p < n && #[trigger] label[p] == Label::Unknown ==> unresolved[p] + occurrences_in(
            succ(p),
            dw,
        ) == succ(p).len()
    &&& forall|p: int|
        0 <= p < n && #[trigger] label[p] == Label::Unknown && succ(p).len() > 0 ==> unresolved[p] > 0
    &&& forall|p: int, m: int|
        0 <= p < n && label[p] == Label::Unknown && 0 <= m < succ(p).len() && done_before(
            queue,
            head,
            #[trigger] succ(p)[m],
        ) ==> label[succ(p)[m]] != Label::Loss
}

#[verifier::opaque]
/// What holds while the predecessors of the dequeued node `t` (the first `q`
/// of them) are being settled.
pub open spec fn settle_inv(
    term: spec_fn(int) -> Option<Outcome>,
    succ: spec_fn(int) -> Seq<int>,
    n: int,
    rev0: Seq<Seq<usize>>,
    label: Seq<Label>,
    unresolved: Seq<usize>,
    queue: Seq<usize>,
    q0: Seq<usize>,
    head: int,
    dw: Set<int>,
    t: int,
    vt: Label,
    q: int,
    measure: int,
) -> bool {
    &&& label.len() == n
    &&& unresolved.len() == n
    &&& n <= usize::MAX
    &&& 0 <= head < q0.len()
    &&& q0[head] as int == t
    &&& 0 <= t < n
    &&& label[t] == vt
    &&& decided(vt)
    &&& 0 <= q <= rev0[t].len()
    &&& !dw.contains(t)
    &&& q0.len() <= queue.len()
    &&& forall|a: int| 0 <= a < q0.len() ==> #[trigger] queue[a] == q0[a]
    &&& occurrences(label, Label::Unknown) + queue.len() == measure
    &&& moves_in_range(term, succ, n)
    &&& reverse_edges(term, succ, n, rev0)
    &&& shaped(term, n, label)
    &&& sound(term, succ, n, label)
    &&& queue_exact(queue, n, label)
    &&& forall|x: int|
        dw.contains(x) <==> (0 <= x < n && done_before(q0, head, x) && label[x] == Label::Win)
    &&& forall|p: int|
        0 <= p < n && #[trigger] label[p] == Label::Unknown ==> unresolved[p] + occurrences_in(
            succ(p),
            dw,
        ) + (if vt == Label::Win {
            occurrences(rev0[t].subrange(0, q), p as usize)
        } else {
            0
        }) == succ(p).len()
    &&& forall|p: int|
        0 <= p < n && #[trigger] label[p] == Label::Unknown && succ(p).len() > 0 ==> unresolved[p] > 0
    &&& forall|p: int, m: int|
        0 <= p < n && label[p] == Label::Unknown && 0 <= m < succ(p).len() && done_before(
            q0,
            head,
            #[trigger] succ(p)[m],
        ) ==> label[succ(p)[m]] != Label::Loss
    &&& vt == Label::Loss ==> forall|q2: int|
        0 <= q2 < q ==> label[#[trigger] rev0[t][q2] as int] != Label::Unknown
}

proof fn lemma_queue_push(queue: Seq<usize>, n: int, label: Seq<Label>, p: int, l2: Label)
    requires
        queue_exact(queue, n, label),
        label.len() == n,
        n <= usize::MAX,
        0 <= p < n,
        label[p] == Label::Unknown,
        decided(l2),
    ensures
        queue_exact(queue.push(p as usize), n, label.update(p, l2)),
{
    let q2 = queue.push(p as usize);
    let l = label.update(p, l2);
    assert forall|a: int| 0 <= a < queue.len() implies #[trigger] queue[a] != p as usize by {
        if queue[a] == p as usize {
            assert(decided(label[p]));
        }
    }
    assert forall|a: int, b: int| 0 <= a < b < q2.len() implies #[trigger] q2[a] != #[trigger] q2[b] by {
        if b == queue.len() {
            assert(queue[a] != p as usize);
        }
    }
    assert forall|i: int| 0 <= i < n implies (decided(#[trigger] l[i]) <==> exists|a: int|
        0 <= a < q2.len() && q2[a] as int == i) by {
        if i != p {
            if decided(l[i]) {
                let a = choose|a: int| 0 <= a < queue.len() && queue[a] as int == i;
                assert(q2[a] == queue[a]);
            }
            if exists|a: int| 0 <= a < q2.len() && q2[a] as int == i {
                let a = choose|a: int| 0 <= a < q2.len() && q2[a] as int == i;
                if a == queue.len() {
                    assert(q2[a] as int == p);
                }
                assert(queue[a] as int == i);
            }
        } else {
            assert(q2[queue.len() as int] as int == p);
        }
    }
}

pub proof fn lemma_label_update(
    term: spec_fn(int) -> Option<Outcome>,
    succ: spec_fn(int) -> Seq<int>,
    n: int,
    label: Seq<Label>,
    p: int,
    l2: Label,
)
    requires
        shaped(term, n, label),
        sound(term, succ, n, label),
        0 <= p < n,
        label[p] == Label::Unknown,
        l2 == Label::Win ==> exists|k: nat| wins_within(term, succ, p, k),
        l2 == Label::Loss ==> exists|k: nat| loses_within(term, succ, p, k),
        decided(l2),
    ensures
        shaped(term, n, label.update(p, l2)),
        sound(term, succ, n, label.update(p, l2)),
        occurrences(label.update(p, l2), Label::Unknown) + 1 == occurrences(label, Label::Unknown),
{
    assert(term(p) is None);
    lemma_occurrences_update(label, p, l2, Label::Unknown);
    let l = label.update(p, l2);
    assert forall|i: int| 0 <= i < n implies match term(i) {
        Some(o) => #[trigger] l[i] == label_of(o),
        None => l[i] != Label::Draw,
    } by {
        if i != p {
            assert(l[i] == label[i]);
        }
    }
    assert forall|i: int| 0 <= i < n implies (#[trigger] l[i] == Label::Win ==> exists|k: nat|
        wins_within(term, succ, i, k)) && (l[i] == Label::Loss ==> exists|k: nat|
        loses_within(term, succ, i, k)) by {
        if i != p {
            assert(l[i] == label[i]);
        }
    }
}

#[verifier::spinoff_prover]
/// Settle one predecessor `p` (the `q`-th) of the dequeued node `t`.
fn settle_one(
    label: &mut Vec<Label>,
    unresolved: &mut Vec<usize>,
    queue: &mut Vec<usize>,
    p: usize,
    vt: Label,
    Ghost(term): Ghost<spec_fn(int) -> Option<Outcome>>,
    Ghost(succ): Ghost<spec_fn(int) -> Seq<int>>,
    Ghost(n): Ghost<int>,
    Ghost(rev0): Ghost<Seq<Seq<usize>>>,
    Ghost(q0): Ghost<Seq<usize>>,
    Ghost(head): Ghost<int>,
    Ghost(dw): Ghost<Set<int>>,
    Ghost(t): Ghost<int>,
    Ghost(q): Ghost<int>,
    Ghost(measure): Ghost<int>,
)
    requires
        settle_inv(
            term,
            succ,
            n,
            rev0,
            old(label)@,
            old(unresolved)@,
            old(queue)@,
            q0,
            head,
            dw,
            t,
            vt,
            q,
            measure,
        ),
        q < rev0[t].len(),
        rev0[t][q] == p,
    ensures
        settle_inv(
            term,
            succ,
            n,
            rev0,
            final(label)@,
            final(unresolved)@,
            final(queue)@,
            q0,
            head,
            dw,
            t,
            vt,
            q + 1,
            measure,
        ),
{
    reveal(settle_inv);
    let ghost preds = rev0[t];
    let ghost pi = p as int;
    proof {
        lemma_occurrences_at(preds, q);
        assert(occurrences(rev0[t], p) > 0);
    }
    assert(pi < n && term(pi) is None);
    let ghost sp = succ(pi);
    proof {
        if label@[pi] == Label::Unknown && done_before(q0, head, pi) {
            let a = choose|a: int| 0 <= a < head && #[trigger] q0[a] as int == pi;
            assert(queue@[a] == q0[a]);
            assert(decided(label@[pi]));
        }
    }
    proof {
        assert(preds.subrange(0, q + 1) =~= preds.subrange(0, q).push(p));
        lemma_occurrences_push(preds.subrange(0, q), p, p);
        assert forall|p2: usize| p2 != p implies occurrences(preds.subrange(0, q + 1), p2)
            == occurrences(preds.subrange(0, q), p2) by {
            lemma_occurrences_push(preds.subrange(0, q), p, p2);
        }
        assert(occurrences(preds, p) == occurrences(sp, t));
    }
    let ghost label_before = label@;
    if label[p] == Label::Unknown {
        match vt {
            Label::Loss => {
                proof {
                    assert(occurrences(sp, t) > 0);
                    lemma_occurrences_pos(sp, t);
                    let m = choose|m: int| 0 <= m < sp.len() && sp[m] == t;
                    let k = choose|k: nat| loses_within(term, succ, t, k);
                    assert(loses_within(term, succ, succ(pi)[m], k));
                    assert(wins_within(term, succ, pi, k + 1));
                    lemma_label_update(term, succ, n, label@, pi, Label::Win);
                    lemma_queue_push(queue@, n, label@, pi, Label::Win);
                }
                label[p] = Label::Win;
                queue.push(p);
            },
            Label::Win => {
                proof {
                    lemma_occurrences_prefix(preds, q + 1, p);
                    lemma_occurrences_in_insert(sp, dw, t);
                    lemma_occurrences_in_le(sp, dw.insert(t));
                    assert(unresolved@[pi] >= 1);
                }
                unresolved[p] = unresolved[p] - 1;
                if unresolved[p] == 0 {
                    proof {
                        lemma_occurrences_in_full(sp, dw.insert(t));
                        assert forall|m: int| 0 <= m < sp.len() implies #[trigger] eventually_wins(
                            term,
                            succ,
                            sp[m],
                        ) by {
                            assert(dw.insert(t).contains(sp[m]));
                            assert(0 <= sp[m] < n);
                            assert(label@[sp[m]] == Label::Win);
                        }
                        let k = lemma_common_win_bound(term, succ, sp);
                        assert(loses_within(term, succ, pi, k + 1));
                        lemma_label_update(term, succ, n, label@, pi, Label::Loss);
                        lemma_queue_push(queue@, n, label@, pi, Label::Loss);
                    }
                    label[p] = Label::Loss;
                    queue.push(p);
                }
            },
            _ => {},
        }
    }
    proof {
        if vt == Label::Loss {
            assert(label@ == label_before || label@ == label_before.update(pi, Label::Win));
            assert forall|q2: int| 0 <= q2 < q + 1 implies label@[#[trigger] rev0[t][q2] as int]
                != Label::Unknown by {
                let x = rev0[t][q2] as int;
                lemma_occurrences_at(rev0[t], q2);
                assert(occurrences(rev0[t], rev0[t][q2]) > 0);
                assert(0 <= x < n);
                if q2 < q {
                    assert(label_before[x] != Label::Unknown);
                }
            }
        }
    }
}
/// The dequeued node `t` is settled: advance past it.
#[verifier::spinoff_prover]
proof fn lemma_advance(
    term: spec_fn(int) -> Option<Outcome>,
    succ: spec_fn(int) -> Seq<int>,
    n: int,
    rev0: Seq<Seq<usize>>,
    label: Seq<Label>,
    unresolved: Seq<usize>,
    queue: Seq<usize>,
    q0: Seq<usize>,
    head: int,
    dw: Set<int>,
    t: int,
    vt: Label,
    measure: int,
)
    requires
        settle_inv(
            term,
            succ,
            n,
            rev0,
            label,
            unresolved,
            queue,
            q0,
            head,
            dw,
            t,
            vt,
            rev0[t].len() as int,
            measure,
        ),
    ensures
        sweep_inv(
            term,
            succ,
            n,
            rev0,
            label,
            unresolved,
            queue,
            head + 1,
            if vt == Label::Win {
                dw.insert(t)
            } else {
                dw
            },
        ),
        forall|x: int| done_before(queue, head + 1, x) <==> (done_before(q0, head, x) || x == t),
        occurrences(label, Label::Unknown) + queue.len() == measure,
        head + 1 <= queue.len(),
        label.len() == n,
{
    reveal(settle_inv);
    reveal(sweep_inv);
    let preds = rev0[t];
    assert(preds.subrange(0, preds.len() as int) =~= preds);
    assert forall|x: int| done_before(queue, head + 1, x) <==> (done_before(q0, head, x) || x == t) by {
        if done_before(queue, head + 1, x) {
            let a = choose|a: int| 0 <= a < head + 1 && #[trigger] queue[a] as int == x;
            if a < head {
                assert(q0[a] as int == x);
            }
        }
        if done_before(q0, head, x) {
            let a = choose|a: int| 0 <= a < head && #[trigger] q0[a] as int == x;
            assert(queue[a] as int == x);
        }
        if x == t {
            assert(queue[head] as int == x);
        }
    }
    let dw2 = if vt == Label::Win {
        dw.insert(t)
    } else {
        dw
    };
    assert forall|p: int|
        0 <= p < n && #[trigger] label[p] == Label::Unknown implies unresolved[p] + occurrences_in(
        succ(p),
        dw2,
    ) == succ(p).len() by {
        assert(term(p) is None);
        assert(occurrences(rev0[t], p as usize) == occurrences(succ(p), t));
        if vt == Label::Win {
            lemma_occurrences_in_insert(succ(p), dw, t);
        }
    }
    assert forall|p: int, m: int|
        0 <= p < n && label[p] == Label::Unknown && 0 <= m < succ(p).len() && done_before(
            queue,
            head + 1,
            #[trigger] succ(p)[m],
        ) implies label[succ(p)[m]] != Label::Loss by {
        if succ(p)[m] == t && vt == Label::Loss {
            assert(term(p) is None);
            lemma_occurrences_at(succ(p), m);
            assert(occurrences(rev0[t], p as usize) == occurrences(succ(p), t));
            lemma_occurrences_pos(preds, p as usize);
            let q2 = choose|q2: int| 0 <= q2 < preds.len() && preds[q2] == p as usize;
            assert(label[preds[q2] as int] != Label::Unknown);
        }
    }
}

#[verifier::spinoff_prover]
proof fn lemma_sweep_done_node(
    term: spec_fn(int) -> Option<Outcome>,
    succ: spec_fn(int) -> Seq<int>,
    n: int,
    rev0: Seq<Seq<usize>>,
    label: Seq<Label>,
    unresolved: Seq<usize>,
    queue: Seq<usize>,
    dw: Set<int>,
    i: int,
)
    requires
        sweep_inv(term, succ, n, rev0, label, unresolved, queue, queue.len() as int, dw),
        0 <= i < n,
        label[i] == Label::Unknown,
    ensures
        forall|m: int| 0 <= m < succ(i).len() ==> label[#[trigger] succ(i)[m]] != Label::Loss,
        succ(i).len() == 0 || exists|m: int|
            0 <= m < succ(i).len() && label[#[trigger] succ(i)[m]] != Label::Win,
{
    reveal(sweep_inv);
    let head = queue.len() as int;
    assert(term(i) is None);
    assert forall|m: int| 0 <= m < succ(i).len() implies label[#[trigger] succ(i)[m]]
        != Label::Loss by {
        let x = succ(i)[m];
        assert(0 <= x < n);
        if label[x] == Label::Loss {
            assert(decided(label[x]));
            let a = choose|a: int| 0 <= a < queue.len() && queue[a] as int == x;
            assert(done_before(queue, head, x));
        }
    }
    if succ(i).len() > 0 {
        lemma_occurrences_in_missing(succ(i), dw);
        let m = choose|m: int|
            #![trigger succ(i)[m]]
            0 <= m < succ(i).len() && !dw.contains(succ(i)[m]);
        let x = succ(i)[m];
        assert(0 <= x < n);
        if label[x] == Label::Win {
            assert(decided(label[x]));
            let a = choose|a: int| 0 <= a < queue.len() && queue[a] as int == x;
            assert(done_before(queue, head, x));
        }
    }
}

/// A finished sweep is closed, hence the game value.
proof fn lemma_sweep_parts(
    term: spec_fn(int) -> Option<Outcome>,
    succ: spec_fn(int) -> Seq<int>,
    n: int,
    rev0: Seq<Seq<usize>>,
    label: Seq<Label>,
    unresolved: Seq<usize>,
    queue: Seq<usize>,
    head: int,
    dw: Set<int>,
)
    requires
        sweep_inv(term, succ, n, rev0, label, unresolved, queue, head, dw),
    ensures
        moves_in_range(term, succ, n),
        shaped(term, n, label),
        sound(term, succ, n, label),
        0 <= head <= queue.len(),
        queue_exact(queue, n, label),
        label.len() == n,
{
    reveal(sweep_inv);
}

proof fn lemma_sweep_done(
    term: spec_fn(int) -> Option<Outcome>,
    succ: spec_fn(int) -> Seq<int>,
    n: int,
    rev0: Seq<Seq<usize>>,
    label: Seq<Label>,
    unresolved: Seq<usize>,
    queue: Seq<usize>,
    dw: Set<int>,
)
    requires
        sweep_inv(term, succ, n, rev0, label, unresolved, queue, queue.len() as int, dw),
    ensures
        forall|i: int| 0 <= i < n ==> outcome_of(#[trigger] label[i]) == game_value(term, succ, i),
{
    assert forall|i: int| 0 <= i < n implies #[trigger] closed_at(succ, label, i) by {
        if label[i] == Label::Unknown {
            lemma_sweep_done_node(term, succ, n, rev0, label, unresolved, queue, dw, i);
        }
    }
    lemma_sweep_parts(term, succ, n, rev0, label, unresolved, queue, queue.len() as int, dw);
    assert(closed(term, succ, n, label));
    lemma_closed_is_value(term, succ, n, label);
}

/// Backward induction from the decided nodes: a lost node makes every
/// predecessor a win; a won node uses up one move of each predecessor, which
/// loses once all its moves are used up. Whatever stays undecided is a draw.
pub fn propagate(
    label: &mut Vec<Label>,
    unresolved: &mut Vec<usize>,
    rev: &mut Vec<Vec<usize>>,
    queue: &mut Vec<usize>,
    Ghost(term): Ghost<spec_fn(int) -> Option<Outcome>>,
    Ghost(succ): Ghost<spec_fn(int) -> Seq<int>>,
)
    requires
        seeded(
            term,
            succ,
            old(label)@.len() as int,
            old(label)@,
            old(unresolved)@,
            views_of(old(rev)@),
            old(queue)@,
        ),
    ensures
        final(label)@.len() == old(label)@.len(),
        forall|i: int|
            0 <= i < old(label)@.len() ==> outcome_of(#[trigger] final(label)@[i]) == game_value(
                term,
                succ,
                i,
            ),
{
    let ghost n = label.len() as int;
    let ghost rev0 = views_of(rev@);
    let ghost mut dw: Set<int> = Set::empty();
    let mut head: usize = 0;
    proof {
        lemma_seeded_sweep(term, succ, n, rev0, label@, unresolved@, queue@);
    }
    while head < queue.len()
        invariant
            sweep_inv(term, succ, n, rev0, label@, unresolved@, queue@, head as int, dw),
            rev@.len() == n,
            label@.len() == n,
            head <= queue@.len(),
            forall|t: int|
                0 <= t < n && !done_before(queue@, head as int, t) ==> #[trigger] rev@[t]@ == rev0[t],
        decreases occurrences(label@, Label::Unknown) + (queue@.len() - head),
    {
        let t = queue[head];
        proof {
            lemma_begin_settle(term, succ, n, rev0, label@, unresolved@, queue@, head as int, dw);
        }
        let vt = label[t];
        let mut preds: Vec<usize> = Vec::new();
        std::mem::swap(&mut preds, &mut rev[t]);
        assert(preds@ == rev0[t as int]);
        let ghost measure: int = (occurrences(label@, Label::Unknown) + queue@.len()) as int;
        let ghost q0 = queue@;
        let ghost rev_mid = rev@;
        let mut q: usize = 0;
        while q < preds.len()
            invariant
                settle_inv(
                    term,
                    succ,
                    n,
                    rev0,
                    label@,
                    unresolved@,
                    queue@,
                    q0,
                    head as int,
                    dw,
                    t as int,
                    vt,
                    q as int,
                    measure,
                ),
                preds@ == rev0[t as int],
                rev@ == rev_mid,
                q <= preds@.len(),
            decreases preds@.len() - q,
        {
            settle_one(
                label,
                unresolved,
                queue,
                preds[q],
                vt,
                Ghost(term),
                Ghost(succ),
                Ghost(n),
                Ghost(rev0),
                Ghost(q0),
                Ghost(head as int),
                Ghost(dw),
                Ghost(t as int),
                Ghost(q as int),
                Ghost(measure),
            );
            q += 1;
        }
        proof {
            lemma_advance(
                term,
                succ,
                n,
                rev0,
                label@,
                unresolved@,
                queue@,
                q0,
                head as int,
                dw,
                t as int,
                vt,
                measure,
            );
            if vt == Label::Win {
                dw = dw.insert(t as int);
            }
        }
        head += 1;
        assert forall|t2: int| 0 <= t2 < n && !done_before(queue@, head as int, t2) implies #[trigger] rev@[t2]@
            == rev0[t2] by {
            assert(t2 != t);
            assert(!done_before(q0, head - 1, t2));
        }
    }
    proof {
        lemma_sweep_done(term, succ, n, rev0, label@, unresolved@, queue@, dw);
    }
}

proof fn lemma_begin_settle(
    term: spec_fn(int) -> Option<Outcome>,
    succ: spec_fn(int) -> Seq<int>,
    n: int,
    rev0: Seq<Seq<usize>>,
    label: Seq<Label>,
    unresolved: Seq<usize>,
    queue: Seq<usize>,
    head: int,
    dw: Set<int>,
)
    requires
        sweep_inv(term, succ, n, rev0, label, unresolved, queue, head, dw),
        head < queue.len(),
    ensures
        0 <= queue[head] < n,
        label.len() == n,
        rev0.len() == n,
        !done_before(queue, head, queue[head] as int),
        settle_inv(
            term,
            succ,
            n,
            rev0,
            label,
            unresolved,
            queue,
            queue,
            head,
            dw,
            queue[head] as int,
            label[queue[head] as int],
            0,
            (occurrences(label, Label::Unknown) + queue.len()) as int,
        ),
{
    reveal(sweep_inv);
    reveal(settle_inv);
    let t = queue[head] as int;
    assert(decided(label[t]));
    if done_before(queue, head, t) {
        let a = choose|a: int| 0 <= a < head && #[trigger] queue[a] as int == t;
        assert(queue[a] != queue[head]);
    }
    assert(rev0[t].subrange(0, 0) =~= Seq::<usize>::empty());
}

proof fn lemma_seeded_sweep(
    term: spec_fn(int) -> Option<Outcome>,
    succ: spec_fn(int) -> Seq<int>,
    n: int,
    rev0: Seq<Seq<usize>>,
    label: Seq<Label>,
    unresolved: Seq<usize>,
    queue: Seq<usize>,
)
    requires
        seeded(term, succ, n, label, unresolved, rev0, queue),
        n <= usize::MAX,
    ensures
        sweep_inv(term, succ, n, rev0, label, unresolved, queue, 0, Set::empty()),
{
    reveal(sweep_inv);
    assert forall|i: int| 0 <= i < n implies match term(i) {
        Some(o) => #[trigger] label[i] == label_of(o),
        None => label[i] != Label::Draw,
    } by {}
    assert forall|i: int| 0 <= i < n implies (#[trigger] label[i] == Label::Win ==> exists|k: nat|
        wins_within(term, succ, i, k)) && (label[i] == Label::Loss ==> exists|k: nat|
        loses_within(term, succ, i, k)) by {
        if label[i] == Label::Win {
            assert(wins_within(term, succ, i, 0));
        }
        if label[i] == Label::Loss {
            assert(loses_within(term, succ, i, 0));
        }
    }
    assert forall|p: int| 0 <= p < n && #[trigger] label[p] == Label::Unknown implies unresolved[p]
        + occurrences_in(succ(p), Set::empty()) == succ(p).len() by {
        lemma_occurrences_in_empty(succ(p));
    }
}

} // verus!
