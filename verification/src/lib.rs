//! A generic retrograde-analysis engine for strongly solving small, finite,
//! perfect-information, two-player games.
//!
//! The engine knows no rules. It operates entirely through the [`Game`] trait:
//! a game supplies a way to enumerate, index, and step its positions, and the
//! engine supplies the strong solve (a game-theoretic value for *every* indexed
//! position) via backward induction that handles cycles (draws by repetition).

use vstd::prelude::*;

pub mod games;
pub mod decimal;
pub mod dense_solve;
pub mod index;
pub mod reachable;
pub mod retrograde;
pub mod slices;

pub use crate::reachable::{solve_reachable, solve_reachable_capped, ReachableSolution, RulesGame};

use crate::retrograde::{
    game_value, label_for, label_of, occurrences, outcome_for, outcome_of, propagate, seeded,
    views_of, Label,
};

verus! {

/// The game-theoretic value of a position, from the perspective of the side to move.
#[derive(Clone, Copy, PartialEq, Eq, Debug, Structural)]
pub enum Outcome {
    Win,
    Loss,
    Draw,
}

/// A two-player, finite, perfect-information, zero-sum game.
///
/// Implementors provide the rules; the engine provides the solve. The spec
/// functions describe the rules mathematically; each executable method is
/// held to them.
pub trait Game {
    /// A position. The side to move is encoded within the state.
    type State;

    /// The game's own tables are in order.
    spec fn wf(&self) -> bool;

    /// The number of indices.
    spec fn state_count(&self) -> nat;

    /// A state that the game's methods accept.
    spec fn valid(&self, s: Self::State) -> bool;

    /// The index of a valid state.
    spec fn index_of(&self, s: Self::State) -> int;

    /// The state an index decodes to, if any.
    spec fn decode(&self, i: int) -> Option<Self::State>;

    /// The standard starting position.
    spec fn start_state(&self) -> Self::State;

    /// The positions one legal move away, from the opponent's perspective.
    spec fn moves(&self, s: Self::State) -> Seq<Self::State>;

    /// The outcome of a terminal position, for the side to move.
    spec fn outcome(&self, s: Self::State) -> Option<Outcome>;

    /// The number of indices. Every state maps into `0..num_states()`.
    fn num_states(&self) -> (r: u64)
        requires
            self.wf(),
        ensures
            r == self.state_count(),
    ;

    /// Dense perfect-hash of a state into `0..num_states()`.
    fn index(&self, state: &Self::State) -> (r: u64)
        requires
            self.wf(),
            self.valid(*state),
        ensures
            r == self.index_of(*state),
            r < self.state_count(),
    ;

    /// Inverse of [`index`](Game::index). Returns `None` for an index that
    /// decodes to an illegal or unreachable position (the engine treats those
    /// as inert).
    fn from_index(&self, index: u64) -> (r: Option<Self::State>)
        requires
            self.wf(),
            index < self.state_count(),
        ensures
            r == self.decode(index as int),
            r matches Some(s) ==> self.valid(s),
    ;

    /// The standard starting position.
    fn start(&self) -> (r: Self::State)
        requires
            self.wf(),
        ensures
            r == self.start_state(),
            self.valid(r),
    ;

    /// The positions reachable by one legal move. After a move the *opponent*
    /// is to move, so each returned state is from the opponent's perspective.
    fn successors(&self, state: &Self::State) -> (r: Vec<Self::State>)
        requires
            self.wf(),
            self.valid(*state),
        ensures
            r@ == self.moves(*state),
            forall|i: int| 0 <= i < r@.len() ==> self.valid(#[trigger] r@[i]),
    ;

    /// `Some(outcome)` (from the side to move) if `state` is terminal, else `None`.
    fn terminal(&self, state: &Self::State) -> (r: Option<Outcome>)
        requires
            self.wf(),
            self.valid(*state),
        ensures
            r == self.outcome(*state),
    ;
}

/// What the solver sees at index `i`: an index that decodes to nothing is an
/// inert draw; otherwise the terminal outcome of its state.
pub open spec fn index_term<G: Game>(g: &G, i: int) -> Option<Outcome> {
    match g.decode(i) {
        None => Some(Outcome::Draw),
        Some(s) => g.outcome(s),
    }
}

/// The indices one move away from index `i`.
pub open spec fn index_moves<G: Game>(g: &G, i: int) -> Seq<int> {
    match g.decode(i) {
        None => Seq::empty(),
        Some(s) => g.moves(s).map_values(|x: G::State| g.index_of(x)),
    }
}

pub open spec fn term_fn<G: Game>(g: &G) -> spec_fn(int) -> Option<Outcome> {
    |i: int| index_term(g, i)
}

pub open spec fn moves_fn<G: Game>(g: &G) -> spec_fn(int) -> Seq<int> {
    |i: int| index_moves(g, i)
}

/// The game-theoretic value of the position at index `i`.
pub open spec fn solved_value<G: Game>(g: &G, i: int) -> Outcome {
    game_value(term_fn(g), moves_fn(g), i)
}

/// The value the solver assigns to an index agrees with its moves: an index
/// with a terminal outcome (or one that decodes to nothing, an inert draw) has
/// that outcome; any other index is a Win exactly when some move reaches a
/// Loss, and a Loss exactly when it has a move and every move reaches a Win.
pub proof fn lemma_solved_value_local<G: Game>(g: &G, i: int)
    ensures
        index_term(g, i) matches Some(o) ==> solved_value(g, i) == o,
        index_term(g, i) is None ==> (solved_value(g, i) == Outcome::Win <==> exists|m: int|
            0 <= m < index_moves(g, i).len() && solved_value(g, #[trigger] index_moves(g, i)[m])
                == Outcome::Loss),
        index_term(g, i) is None ==> (solved_value(g, i) == Outcome::Loss <==> (index_moves(g, i).len()
            > 0 && forall|m: int|
            0 <= m < index_moves(g, i).len() ==> solved_value(g, #[trigger] index_moves(g, i)[m])
                == Outcome::Win)),
{
    let term = term_fn(g);
    let succ = moves_fn(g);
    assert(term(i) == index_term(g, i));
    assert(succ(i) == index_moves(g, i));
    crate::retrograde::lemma_value_local(term, succ, i);
}

/// A table that holds the solved value of every index obeys the rules move by
/// move: an index that decodes to nothing is a draw, a terminal position has its
/// own outcome, and any other position is a Win exactly when one of its moves
/// leads to a position the table holds as a Loss, and a Loss exactly when it has
/// a move and every move leads to a position the table holds as a Win. (The
/// moves of the position must index into the table, as [`Game::index`]
/// promises.)
pub proof fn lemma_table_local<G: Game>(g: &G, tb: Seq<Outcome>, i: int, s: G::State)
    requires
        tb.len() == g.state_count(),
        forall|j: int| 0 <= j < g.state_count() ==> #[trigger] tb[j] == solved_value(g, j),
        0 <= i < g.state_count(),
        g.decode(i) == Some(s),
        forall|m: int| 0 <= m < g.moves(s).len() ==> 0 <= #[trigger] g.index_of(g.moves(s)[m]) < g.state_count(),
    ensures
        g.outcome(s) matches Some(o) ==> tb[i] == o,
        g.outcome(s) is None ==> (tb[i] == Outcome::Win <==> exists|m: int|
            0 <= m < g.moves(s).len() && tb[g.index_of(#[trigger] g.moves(s)[m])] == Outcome::Loss),
        g.outcome(s) is None ==> (tb[i] == Outcome::Loss <==> (g.moves(s).len() > 0 && forall|m: int|
            0 <= m < g.moves(s).len() ==> tb[g.index_of(#[trigger] g.moves(s)[m])] == Outcome::Win)),
{
    lemma_solved_value_local(g, i);
    let im = index_moves(g, i);
    assert forall|m: int| 0 <= m < g.moves(s).len() implies #[trigger] im[m] == g.index_of(g.moves(s)[m]) && tb[im[m]]
        == solved_value(g, im[m]) by {}
    if g.outcome(s) is None {
        if tb[i] == Outcome::Win {
            let m = choose|m: int| 0 <= m < im.len() && solved_value(g, #[trigger] im[m]) == Outcome::Loss;
            assert(tb[g.index_of(g.moves(s)[m])] == Outcome::Loss);
        }
        if exists|m: int| 0 <= m < g.moves(s).len() && tb[g.index_of(#[trigger] g.moves(s)[m])] == Outcome::Loss {
            let m = choose|m: int|
                0 <= m < g.moves(s).len() && tb[g.index_of(#[trigger] g.moves(s)[m])] == Outcome::Loss;
            assert(solved_value(g, im[m]) == Outcome::Loss);
        }
        if g.moves(s).len() > 0 && forall|m: int|
            0 <= m < g.moves(s).len() ==> tb[g.index_of(#[trigger] g.moves(s)[m])] == Outcome::Win {
            assert forall|m: int| 0 <= m < im.len() implies solved_value(g, #[trigger] im[m]) == Outcome::Win by {
                assert(tb[g.index_of(g.moves(s)[m])] == Outcome::Win);
            }
        }
        if tb[i] == Outcome::Loss {
            assert forall|m: int| 0 <= m < g.moves(s).len() implies tb[g.index_of(#[trigger] g.moves(s)[m])]
                == Outcome::Win by {
                assert(solved_value(g, im[m]) == Outcome::Win);
            }
        }
    }
}

/// The indices a solved table holds as wins and losses are the least sets
/// closed under the rules: any sets of indices that hold every terminal win
/// and loss, hold an index where play goes on when one of its moves reaches
/// the loss set (for the win set) or when it has a move and every move reaches
/// the win set (for the loss set), hold every index the table calls a win,
/// respectively a loss.
pub proof fn lemma_table_least<G: Game>(
    g: &G,
    tb: Seq<Outcome>,
    w: spec_fn(int) -> bool,
    l: spec_fn(int) -> bool,
    i: int,
)
    requires
        tb.len() == g.state_count(),
        forall|j: int| 0 <= j < g.state_count() ==> #[trigger] tb[j] == solved_value(g, j),
        0 <= i < g.state_count(),
        crate::retrograde::rule_closed(term_fn(g), moves_fn(g), w, l),
    ensures
        tb[i] == Outcome::Win ==> w(i),
        tb[i] == Outcome::Loss ==> l(i),
{
    crate::retrograde::lemma_value_least(term_fn(g), moves_fn(g), w, l, i);
}

/// An index that decodes to nothing is solved as a draw.
pub proof fn lemma_table_inert<G: Game>(g: &G, tb: Seq<Outcome>, i: int)
    requires
        tb.len() == g.state_count(),
        forall|j: int| 0 <= j < g.state_count() ==> #[trigger] tb[j] == solved_value(g, j),
        0 <= i < g.state_count(),
        g.decode(i) is None,
    ensures
        tb[i] == Outcome::Draw,
{
    lemma_solved_value_local(g, i);
}

/// A strongly solved game: the value of every position.
pub struct Tablebase {
    values: Vec<Outcome>,
}

impl View for Tablebase {
    type V = Seq<Outcome>;

    closed spec fn view(&self) -> Seq<Outcome> {
        self.values@
    }
}

impl Tablebase {
    /// The value of the position with the given index.
    pub fn value(&self, index: u64) -> (r: Outcome)
        requires
            index < self@.len(),
        ensures
            r == self@[index as int],
    {
        assert(index < self.values.len());
        self.values[index as usize]
    }

    /// Number of indexed positions.
    pub fn len(&self) -> (r: usize)
        ensures
            r == self@.len(),
    {
        self.values.len()
    }

    pub fn is_empty(&self) -> (r: bool)
        ensures
            r == (self@.len() == 0),
    {
        self.values.len() == 0
    }

    /// How many positions carry the given value.
    pub fn count(&self, outcome: Outcome) -> (r: usize)
        ensures
            r == occurrences(self@, outcome),
    {
        count_outcome(&self.values, outcome)
    }
}

/// Every position carries exactly one of the three values, so the counts of
/// wins, losses and draws add up to the number of positions.
pub proof fn lemma_counts_cover(values: Seq<Outcome>)
    ensures
        occurrences(values, Outcome::Win) + occurrences(values, Outcome::Loss) + occurrences(
            values,
            Outcome::Draw,
        ) == values.len(),
    decreases values.len(),
{
    if values.len() > 0 {
        lemma_counts_cover(values.drop_last());
    }
}

/// How many entries of `values` equal `outcome`.
pub fn count_outcome(values: &Vec<Outcome>, outcome: Outcome) -> (r: usize)
    ensures
        r == occurrences(values@, outcome),
{
    let mut c: usize = 0;
    let mut i: usize = 0;
    while i < values.len()
        invariant
            i <= values@.len(),
            c == occurrences(values@.subrange(0, i as int), outcome),
            c <= i,
        decreases values@.len() - i,
    {
        proof {
            assert(values@.subrange(0, i as int + 1) =~= values@.subrange(0, i as int).push(
                values@[i as int],
            ));
            crate::retrograde::lemma_occurrences_push(
                values@.subrange(0, i as int),
                values@[i as int],
                outcome,
            );
        }
        if values[i] == outcome {
            c += 1;
        }
        i += 1;
    }
    assert(values@.subrange(0, i as int) =~= values@);
    c
}

/// Probe the solved value of a position.
pub fn probe<G: Game>(game: &G, tb: &Tablebase, state: &G::State) -> (r: Outcome)
    requires
        game.wf(),
        game.valid(*state),
        game.index_of(*state) < tb@.len(),
    ensures
        r == tb@[game.index_of(*state)],
{
    tb.value(game.index(state))
}

/// Strongly solve a game by retrograde analysis.
///
/// Backward induction from terminal positions, robust to cycles: a position is a
/// Win if *some* move reaches a position the opponent loses; a Loss if *every*
/// move reaches a position the opponent wins; otherwise (a move leads to a draw,
/// or a cycle never resolves) a Draw. Implemented as a reverse-edge BFS:
///
/// * seed the queue with terminal wins/losses,
/// * a resolved Loss makes every predecessor a Win,
/// * a resolved Win decrements each predecessor's unresolved-move count; when it
///   hits zero, that predecessor is a Loss,
/// * anything still unresolved at the end is a Draw.
pub fn solve<G: Game>(game: &G) -> (tb: Tablebase)
    requires
        game.wf(),
        game.state_count() <= usize::MAX,
    ensures
        tb@.len() == game.state_count(),
        forall|i: int| 0 <= i < game.state_count() ==> #[trigger] tb@[i] == solved_value(game, i),
        forall|i: int|
            0 <= i < game.state_count() ==> (#[trigger] index_term(game, i) matches Some(o) ==> tb@[i] == o),
{
    let n = game.num_states() as usize;
    let ghost term = term_fn(game);
    let ghost succ = moves_fn(game);

    let mut label: Vec<Label> = Vec::new();
    let mut unresolved: Vec<usize> = Vec::new();
    let mut rev: Vec<Vec<usize>> = Vec::new();
    let mut queue: Vec<usize> = Vec::new();

    let mut j: usize = 0;
    while j < n
        invariant
            j <= n,
            rev@.len() == j,
            forall|t: int| 0 <= t < j ==> #[trigger] rev@[t]@ == Seq::<usize>::empty(),
        decreases n - j,
    {
        rev.push(Vec::new());
        j += 1;
    }

    // Pass 1: classify every index, record terminals, and build reverse edges.
    let mut i: usize = 0;
    while i < n
        invariant
            n == game.state_count(),
            game.wf(),
            i <= n,
            label@.len() == i,
            unresolved@.len() == i,
            rev@.len() == n,
            term == term_fn(game),
            succ == moves_fn(game),
            pass_one_inv(term, succ, n as int, i as int, label@, unresolved@, views_of(rev@), queue@),
        decreases n - i,
    {
        let ghost rev_before = views_of(rev@);
        match game.from_index(i as u64) {
            None => {
                proof {
                    lemma_pass_one_step(term, succ, n as int, i as int, label@, unresolved@, rev_before, queue@, Label::Draw, 0, false);
                }
                label.push(Label::Draw);
                unresolved.push(0);
            },
            Some(state) => {
                match game.terminal(&state) {
                    Some(o) => {
                        let l = label_for(o);
                        let decisive = match o {
                            Outcome::Draw => false,
                            _ => true,
                        };
                        proof {
                            lemma_pass_one_step(term, succ, n as int, i as int, label@, unresolved@, rev_before, queue@, l, 0, decisive);
                        }
                        label.push(l);
                        unresolved.push(0);
                        if decisive {
                            queue.push(i);
                        }
                    },
                    None => {
                        let succv = game.successors(&state);
                        let ghost si = succ(i as int);
                        assert(si == succv@.map_values(|x: G::State| game.index_of(x)));
                        let mut m: usize = 0;
                        proof {
                            assert(si.subrange(0, 0) =~= Seq::<int>::empty());
                            assert forall|t: int, p: usize| 0 <= t < n implies #[trigger] occurrences(rev@[t]@, p) == if p == i {
                                occurrences(si.subrange(0, 0), t)
                            } else {
                                occurrences(rev_before[t], p)
                            } by {
                                assert(rev_before[t] == rev@[t]@);
                            }
                        }
                        while m < succv.len()
                            invariant
                                n == game.state_count(),
                                game.wf(),
                                i < n,
                                m <= succv@.len(),
                                si.len() == succv@.len(),
                                forall|k: int| 0 <= k < succv@.len() ==> game.valid(#[trigger] succv@[k]),
                                forall|k: int| 0 <= k < succv@.len() ==> #[trigger] si[k] == game.index_of(succv@[k]),
                                rev@.len() == n,
                                forall|k: int| 0 <= k < m ==> 0 <= #[trigger] si[k] < n,
                                forall|t: int, p: usize|
                                    0 <= t < n ==> #[trigger] occurrences(rev@[t]@, p) == if p == i {
                                        occurrences(si.subrange(0, m as int), t)
                                    } else {
                                        occurrences(rev_before[t], p)
                                    },
                            decreases succv@.len() - m,
                        {
                            let jj = game.index(&succv[m]) as usize;
                            let ghost rev_prev = rev@;
                            rev[jj].push(i);
                            proof {
                                assert(si.subrange(0, m as int + 1) =~= si.subrange(0, m as int).push(si[m as int]));
                                assert forall|t: int, p: usize| 0 <= t < n implies #[trigger] occurrences(rev@[t]@, p)
                                    == if p == i {
                                        occurrences(si.subrange(0, m as int + 1), t)
                                    } else {
                                        occurrences(rev_before[t], p)
                                    } by {
                                    crate::retrograde::lemma_occurrences_push(si.subrange(0, m as int), si[m as int], t);
                                    if t == jj as int {
                                        assert(rev@[t]@ == rev_prev[t]@.push(i));
                                        crate::retrograde::lemma_occurrences_push(rev_prev[t]@, i, p);
                                    } else {
                                        assert(rev@[t] == rev_prev[t]);
                                    }
                                }
                            }
                            m += 1;
                        }
                        proof {
                            assert(si.subrange(0, m as int) =~= si);
                            lemma_pass_one_inner(term, succ, n as int, i as int, label@, unresolved@, rev_before, views_of(rev@), queue@);
                        }
                        label.push(Label::Unknown);
                        unresolved.push(succv.len());
                    },
                }
            },
        }
        i += 1;
    }
    proof {
        lemma_pass_one_done(term, succ, n as int, label@, unresolved@, views_of(rev@), queue@);
    }

    // Pass 2: propagate backward from decided positions.
    propagate(&mut label, &mut unresolved, &mut rev, &mut queue, Ghost(term), Ghost(succ));

    let mut values: Vec<Outcome> = Vec::new();
    let mut k: usize = 0;
    while k < n
        invariant
            k <= n,
            label@.len() == n,
            values@.len() == k,
            forall|x: int| 0 <= x < k ==> #[trigger] values@[x] == outcome_of(label@[x]),
        decreases n - k,
    {
        values.push(outcome_for(label[k]));
        k += 1;
    }
    let tb = Tablebase { values };
    proof {
        assert forall|i: int| 0 <= i < game.state_count() implies (#[trigger] index_term(game, i) matches Some(o)
            ==> tb@[i] == o) by {
            lemma_solved_value_local(game, i);
        }
    }
    tb
}

/// What pass 1 has built after classifying the indices `0..i`.
pub open spec fn pass_one_inv(
    term: spec_fn(int) -> Option<Outcome>,
    succ: spec_fn(int) -> Seq<int>,
    n: int,
    i: int,
    label: Seq<Label>,
    unresolved: Seq<usize>,
    rev: Seq<Seq<usize>>,
    queue: Seq<usize>,
) -> bool {
    &&& 0 <= i <= n
    &&& n <= usize::MAX
    &&& label.len() == i
    &&& unresolved.len() == i
    &&& rev.len() == n
    &&& forall|a: int|
        0 <= a < i ==> match term(a) {
            Some(o) => #[trigger] label[a] == label_of(o),
            None => label[a] == Label::Unknown && unresolved[a] == succ(a).len(),
        }
    &&& forall|a: int, m: int|
        0 <= a < i && term(a) is None && 0 <= m < succ(a).len() ==> 0 <= #[trigger] succ(a)[m] < n
    &&& forall|x: int, y: int| 0 <= x < y < queue.len() ==> #[trigger] queue[x] < #[trigger] queue[y]
    &&& forall|x: int| 0 <= x < queue.len() ==> (#[trigger] queue[x] as int) < i
    &&& forall|a: int|
        0 <= a < i ==> (crate::retrograde::decided(#[trigger] label[a]) <==> exists|x: int|
            0 <= x < queue.len() && queue[x] as int == a)
    &&& forall|t: int, p: usize|
        0 <= t < n ==> #[trigger] occurrences(rev[t], p) == (if (p as int) < i && term(p as int) is None {
            occurrences(succ(p as int), t)
        } else {
            0
        })
}

pub proof fn lemma_pass_one_step(
    term: spec_fn(int) -> Option<Outcome>,
    succ: spec_fn(int) -> Seq<int>,
    n: int,
    i: int,
    label: Seq<Label>,
    unresolved: Seq<usize>,
    rev: Seq<Seq<usize>>,
    queue: Seq<usize>,
    l: Label,
    u: usize,
    decisive: bool,
)
    requires
        pass_one_inv(term, succ, n, i, label, unresolved, rev, queue),
        i < n,
        term(i) is Some,
        l == label_of(term(i)->0),
        decisive == crate::retrograde::decided(l),
    ensures
        pass_one_inv(
            term,
            succ,
            n,
            i + 1,
            label.push(l),
            unresolved.push(u),
            rev,
            if decisive {
                queue.push(i as usize)
            } else {
                queue
            },
        ),
{
    let label2 = label.push(l);
    let queue2 = if decisive {
        queue.push(i as usize)
    } else {
        queue
    };
    assert forall|a: int|
        0 <= a < i + 1 implies (crate::retrograde::decided(#[trigger] label2[a]) <==> exists|x: int|
        0 <= x < queue2.len() && queue2[x] as int == a) by {
        if a < i {
            if crate::retrograde::decided(label2[a]) {
                let x = choose|x: int| 0 <= x < queue.len() && queue[x] as int == a;
                assert(queue2[x] == queue[x]);
            }
            if exists|x: int| 0 <= x < queue2.len() && queue2[x] as int == a {
                let x = choose|x: int| 0 <= x < queue2.len() && queue2[x] as int == a;
                if x == queue.len() {
                    assert(queue2[x] as int == i);
                }
                assert(queue[x] == queue2[x]);
            }
        } else {
            if decisive {
                assert(queue2[queue.len() as int] as int == i);
            } else {
                if exists|x: int| 0 <= x < queue2.len() && queue2[x] as int == a {
                    let x = choose|x: int| 0 <= x < queue2.len() && queue2[x] as int == a;
                    assert((queue[x] as int) < i);
                }
            }
        }
    }
    assert forall|a: int|
        0 <= a < i + 1 implies match term(a) {
        Some(o) => #[trigger] label2[a] == label_of(o),
        None => label2[a] == Label::Unknown && unresolved.push(u)[a] == succ(a).len(),
    } by {
        if a < i {
            assert(label2[a] == label[a]);
            assert(unresolved.push(u)[a] == unresolved[a]);
        }
    }
    assert forall|t: int, p: usize| 0 <= t < n implies #[trigger] occurrences(rev[t], p) == (if (p as int) < i + 1
        && term(p as int) is None {
        occurrences(succ(p as int), t)
    } else {
        0
    }) by {
        if p as int == i {
            assert(occurrences(rev[t], p) == 0);
        }
    }
}

pub proof fn lemma_pass_one_inner(
    term: spec_fn(int) -> Option<Outcome>,
    succ: spec_fn(int) -> Seq<int>,
    n: int,
    i: int,
    label: Seq<Label>,
    unresolved: Seq<usize>,
    rev: Seq<Seq<usize>>,
    rev2: Seq<Seq<usize>>,
    queue: Seq<usize>,
)
    requires
        pass_one_inv(term, succ, n, i, label, unresolved, rev, queue),
        i < n,
        term(i) is None,
        rev2.len() == n,
        forall|m: int| 0 <= m < succ(i).len() ==> 0 <= #[trigger] succ(i)[m] < n,
        forall|t: int, p: usize|
            0 <= t < n ==> #[trigger] occurrences(rev2[t], p) == if p as int == i {
                occurrences(succ(i), t)
            } else {
                occurrences(rev[t], p)
            },
        succ(i).len() <= usize::MAX,
    ensures
        pass_one_inv(
            term,
            succ,
            n,
            i + 1,
            label.push(Label::Unknown),
            unresolved.push(succ(i).len() as usize),
            rev2,
            queue,
        ),
{
    let label2 = label.push(Label::Unknown);
    let unresolved2 = unresolved.push(succ(i).len() as usize);
    assert forall|a: int|
        0 <= a < i + 1 implies match term(a) {
        Some(o) => #[trigger] label2[a] == label_of(o),
        None => label2[a] == Label::Unknown && unresolved2[a] == succ(a).len(),
    } by {
        if a < i {
            assert(label2[a] == label[a]);
            assert(unresolved2[a] == unresolved[a]);
        }
    }
    assert forall|a: int|
        0 <= a < i + 1 implies (crate::retrograde::decided(#[trigger] label2[a]) <==> exists|x: int|
        0 <= x < queue.len() && queue[x] as int == a) by {
        if a == i {
            if exists|x: int| 0 <= x < queue.len() && queue[x] as int == a {
                let x = choose|x: int| 0 <= x < queue.len() && queue[x] as int == a;
                assert((queue[x] as int) < i);
            }
        } else {
            assert(label2[a] == label[a]);
        }
    }
    assert forall|t: int, p: usize| 0 <= t < n implies #[trigger] occurrences(rev2[t], p) == (if (p as int) < i + 1
        && term(p as int) is None {
        occurrences(succ(p as int), t)
    } else {
        0
    }) by {}
    assert forall|x: int| 0 <= x < queue.len() implies (#[trigger] queue[x] as int) < i + 1 by {}
}

pub proof fn lemma_pass_one_done(
    term: spec_fn(int) -> Option<Outcome>,
    succ: spec_fn(int) -> Seq<int>,
    n: int,
    label: Seq<Label>,
    unresolved: Seq<usize>,
    rev: Seq<Seq<usize>>,
    queue: Seq<usize>,
)
    requires
        pass_one_inv(term, succ, n, n, label, unresolved, rev, queue),
    ensures
        seeded(term, succ, n, label, unresolved, rev, queue),
{
    assert forall|x: int, y: int| 0 <= x < y < queue.len() implies #[trigger] queue[x] != #[trigger] queue[y] by {
        assert(queue[x] < queue[y]);
    }
}

} // verus!
