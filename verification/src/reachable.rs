//! A solver for games that are easy to *enumerate forward* but awkward to give a
//! dense perfect-hash index (e.g. capture games like morris, where men leave the
//! board). It discovers the reachable state set by forward search from the start,
//! then runs the same loopy retrograde analysis over that explicit graph.
//!
//! Trades the dense-array memory of [`crate::solve`] for a hash map keyed on the
//! state.

use vstd::prelude::*;
use std::collections::HashMap;
use crate::Outcome;
use crate::retrograde::{
    game_value, label_for, lemma_graph_map_value, occurrences, outcome_for, outcome_of, propagate,
    views_of, Label,
};
use crate::{lemma_pass_one_done, lemma_pass_one_inner, lemma_pass_one_step, pass_one_inv};

verus! {

/// A state that hashes to a key: an integer that no other state shares, so
/// reachable positions can be deduplicated in a hash map.
pub trait StateKey: Sized {
    spec fn key_spec(&self) -> u128;

    /// The states whose keys no other state shares.
    spec fn key_exact(&self) -> bool;

    fn key(&self) -> (r: u128)
        ensures
            r == self.key_spec(),
    ;

    /// Whether `other` is this very state.
    fn same(&self, other: &Self) -> (r: bool)
        ensures
            r == (*self == *other),
    ;

    /// Distinct states with exact keys have distinct keys.
    proof fn lemma_key_injective(a: Self, b: Self)
        requires
            a.key_exact(),
            b.key_exact(),
            a.key_spec() == b.key_spec(),
        ensures
            a == b,
    ;
}

/// A game defined only by its rules — no index required.
pub trait RulesGame {
    type State: Copy + StateKey;

    /// The game's own tables are in order.
    spec fn rules_ok(&self) -> bool;

    /// A state that the game's methods accept.
    spec fn legal_state(&self, s: Self::State) -> bool;

    /// The standard starting position.
    spec fn initial(&self) -> Self::State;

    /// The positions one legal move away (opponent then to move).
    spec fn next_states(&self, s: Self::State) -> Seq<Self::State>;

    /// The outcome of a terminal position, for the side to move.
    spec fn result_of(&self, s: Self::State) -> Option<Outcome>;

    fn start(&self) -> (r: Self::State)
        requires
            self.rules_ok(),
        ensures
            r == self.initial(),
            self.legal_state(r),
    ;

    /// Positions reachable by one legal move (opponent then to move).
    fn successors(&self, state: &Self::State) -> (r: Vec<Self::State>)
        requires
            self.rules_ok(),
            self.legal_state(*state),
        ensures
            r@ == self.next_states(*state),
            forall|i: int| 0 <= i < r@.len() ==> self.legal_state(#[trigger] r@[i]),
    ;

    /// `Some(outcome)` (from the side to move) if terminal, else `None`.
    fn terminal(&self, state: &Self::State) -> (r: Option<Outcome>)
        requires
            self.rules_ok(),
            self.legal_state(*state),
        ensures
            r == self.result_of(*state),
    ;

    /// A move from a legal position leads to a legal position.
    proof fn lemma_next_legal(&self, s: Self::State, k: int)
        requires
            self.rules_ok(),
            self.legal_state(s),
            0 <= k < self.next_states(s).len(),
        ensures
            self.legal_state(self.next_states(s)[k]),
    ;

    /// Legal positions have exact keys.
    proof fn lemma_legal_exact(&self, s: Self::State)
        requires
            self.legal_state(s),
        ensures
            s.key_exact(),
    ;
}

/// `s` is reached from the start in at most `d` moves, each made from a
/// position where play goes on.
pub open spec fn reachable_within<G: RulesGame>(g: &G, s: G::State, d: nat) -> bool
    decreases d,
{
    if d == 0 {
        s == g.initial()
    } else {
        reachable_within(g, s, (d - 1) as nat) || exists|p: G::State|
            #![trigger g.next_states(p)]
            reachable_within(g, p, (d - 1) as nat) && g.result_of(p) is None
                && g.next_states(p).contains(s)
    }
}

/// `s` is reachable from the start.
pub open spec fn reachable<G: RulesGame>(g: &G, s: G::State) -> bool {
    exists|d: nat| reachable_within(g, s, d)
}

pub open spec fn result_fn<G: RulesGame>(g: &G) -> spec_fn(G::State) -> Option<Outcome> {
    |s: G::State| g.result_of(s)
}

pub open spec fn next_fn<G: RulesGame>(g: &G) -> spec_fn(G::State) -> Seq<G::State> {
    |s: G::State| g.next_states(s)
}

/// The game-theoretic value of a position.
pub open spec fn state_value<G: RulesGame>(g: &G, s: G::State) -> Outcome {
    game_value(result_fn(g), next_fn(g), s)
}

/// The value of a position agrees with its moves: a terminal position has its
/// own outcome; any other is a Win exactly when some move reaches a Loss, and a
/// Loss exactly when it has a move and every move reaches a Win.
pub proof fn lemma_state_value_local<G: RulesGame>(g: &G, s: G::State)
    ensures
        g.result_of(s) matches Some(o) ==> state_value(g, s) == o,
        g.result_of(s) is None ==> (state_value(g, s) == Outcome::Win <==> exists|m: int|
            0 <= m < g.next_states(s).len() && state_value(g, #[trigger] g.next_states(s)[m])
                == Outcome::Loss),
        g.result_of(s) is None ==> (state_value(g, s) == Outcome::Loss <==> (g.next_states(s).len()
            > 0 && forall|m: int|
            0 <= m < g.next_states(s).len() ==> state_value(g, #[trigger] g.next_states(s)[m])
                == Outcome::Win)),
{
    let term = result_fn(g);
    let succ = next_fn(g);
    assert(term(s) == g.result_of(s));
    assert(succ(s) == g.next_states(s));
    crate::retrograde::lemma_value_local(term, succ, s);
}

/// The entries of `s` are pairwise distinct.
pub open spec fn distinct<A>(s: Seq<A>) -> bool {
    forall|i: int, j: int| 0 <= i < j < s.len() ==> s[i] != s[j]
}

/// More than `cap` distinct positions are reachable from the start.
pub open spec fn over_cap<G: RulesGame>(g: &G, cap: int) -> bool {
    exists|ss: Seq<G::State>|
        ss.len() > cap && distinct(ss) && forall|k: int| 0 <= k < ss.len() ==> reachable(g, #[trigger] ss[k])
}

/// Distinct entries that all occur in `tt` are no more than `tt` has.
pub proof fn lemma_distinct_len_le<A>(ss: Seq<A>, tt: Seq<A>)
    requires
        distinct(ss),
        forall|k: int| 0 <= k < ss.len() ==> tt.contains(#[trigger] ss[k]),
    ensures
        ss.len() <= tt.len(),
{
    assert(ss.no_duplicates()) by {
        assert forall|i: int, j: int| 0 <= i < ss.len() && 0 <= j < ss.len() && i != j implies ss[i] != ss[j] by {
            if i > j {
                assert(ss[j] != ss[i]);
            }
        }
    }
    ss.unique_seq_to_set();
    tt.lemma_cardinality_of_set();
    assert(ss.to_set().subset_of(tt.to_set())) by {
        assert forall|x: A| ss.to_set().contains(x) implies tt.to_set().contains(x) by {
            let k = choose|k: int| 0 <= k < ss.len() && ss[k] == x;
            assert(tt.contains(ss[k]));
        }
    }
    vstd::seq_lib::seq_to_set_is_finite(tt);
    vstd::set_lib::lemma_len_subset(ss.to_set(), tt.to_set());
}

/// The solved value of every reachable position.
pub struct ReachableSolution<S: Copy + StateKey> {
    states: Vec<S>,
    values: Vec<Outcome>,
    ids: HashMap<u128, usize>,
}

impl<S: Copy + StateKey> View for ReachableSolution<S> {
    type V = Seq<(S, Outcome)>;

    /// The solved positions in discovery order, each with its value.
    closed spec fn view(&self) -> Seq<(S, Outcome)> {
        Seq::new(self.states@.len(), |i: int| (self.states@[i], self.values@[i]))
    }
}

/// `ids` maps the key of each state in `states` to its position, and nothing else.
pub open spec fn keyed<S: StateKey>(states: Seq<S>, ids: Map<u128, usize>) -> bool {
    &&& forall|i: int|
        0 <= i < states.len() ==> #[trigger] ids.contains_key(states[i].key_spec())
            && ids[states[i].key_spec()] == i
    &&& forall|k: u128|
        #[trigger] ids.contains_key(k) ==> (ids[k] as int) < states.len() && states[ids[k] as int].key_spec()
            == k
    &&& forall|i: int| 0 <= i < states.len() ==> (#[trigger] states[i]).key_exact()
}

proof fn lemma_keyed_distinct<S: StateKey>(states: Seq<S>, ids: Map<u128, usize>)
    requires
        keyed(states, ids),
    ensures
        distinct(states),
{
    assert forall|i: int, j: int| 0 <= i < j < states.len() implies states[i] != states[j] by {
        assert(ids.contains_key(states[i].key_spec()));
        assert(ids.contains_key(states[j].key_spec()));
        if states[i] == states[j] {
            assert(ids[states[i].key_spec()] == i);
            assert(ids[states[j].key_spec()] == j);
        }
    }
}

/// A state whose key is in `ids` is the state stored there.
proof fn lemma_keyed_lookup<S: StateKey>(states: Seq<S>, ids: Map<u128, usize>, s: S)
    requires
        keyed(states, ids),
        ids.contains_key(s.key_spec()),
        s.key_exact(),
    ensures
        states[ids[s.key_spec()] as int] == s,
{
    let t = states[ids[s.key_spec()] as int];
    S::lemma_key_injective(t, s);
}

impl<S: Copy + StateKey> ReachableSolution<S> {
    #[verifier::type_invariant]
    spec fn inv(self) -> bool {
        &&& self.states@.len() == self.values@.len()
        &&& keyed(self.states@, self.ids@)
    }

    /// The value of `state`, if it was solved.
    pub fn get(&self, state: &S) -> (r: Option<Outcome>)
        ensures
            r matches Some(o) ==> exists|i: int| 0 <= i < self@.len() && self@[i] == (*state, o),
            r is None ==> forall|i: int| 0 <= i < self@.len() ==> self@[i].0 != *state,
            distinct(self@.map_values(|p: (S, Outcome)| p.0)),
    {
        proof {
            use_type_invariant(self);
            lemma_keyed_distinct(self.states@, self.ids@);
            assert(self@.map_values(|p: (S, Outcome)| p.0) =~= self.states@);
        }
        let key = state.key();
        match self.ids.get(&key) {
            Some(i) => {
                let i = *i;
                if self.states[i].same(state) {
                    proof {
                        assert(self@[i as int] == (*state, self.values@[i as int]));
                    }
                    Some(self.values[i])
                } else {
                    proof {
                        assert forall|j: int| 0 <= j < self@.len() implies self@[j].0 != *state by {
                            if self.states@[j] == *state {
                                assert(self.ids@.contains_key(self.states@[j].key_spec()));
                            }
                        }
                    }
                    None
                }
            },
            None => {
                proof {
                    assert forall|j: int| 0 <= j < self@.len() implies self@[j].0 != *state by {
                        assert(self.ids@.contains_key(self.states@[j].key_spec()));
                    }
                }
                None
            },
        }
    }

    pub fn len(&self) -> (r: usize)
        ensures
            r == self@.len(),
    {
        self.states.len()
    }

    pub fn is_empty(&self) -> (r: bool)
        ensures
            r == (self@.len() == 0),
    {
        self.states.len() == 0
    }

    pub fn count(&self, outcome: Outcome) -> (r: usize)
        ensures
            r == occurrences(self@.map_values(|p: (S, Outcome)| p.1), outcome),
    {
        proof {
            use_type_invariant(self);
            assert(self@.map_values(|p: (S, Outcome)| p.1) =~= self.values@);
        }
        crate::count_outcome(&self.values, outcome)
    }

    /// Every reachable position and its solved value, in discovery order.
    pub fn iter(&self) -> (r: Vec<(S, Outcome)>)
        ensures
            r@ == self@,
            distinct(r@.map_values(|p: (S, Outcome)| p.0)),
    {
        proof {
            use_type_invariant(self);
            lemma_keyed_distinct(self.states@, self.ids@);
            assert(self@.map_values(|p: (S, Outcome)| p.0) =~= self.states@);
        }
        let mut out: Vec<(S, Outcome)> = Vec::new();
        let mut i: usize = 0;
        while i < self.states.len()
            invariant
                i <= self.states@.len(),
                self.states@.len() == self.values@.len(),
                out@ == self@.subrange(0, i as int),
            decreases self.states@.len() - i,
        {
            out.push((self.states[i], self.values[i]));
            proof {
                assert(self@.subrange(0, i as int + 1) =~= self@.subrange(0, i as int).push(self@[i as int]));
            }
            i += 1;
        }
        assert(self@.subrange(0, i as int) =~= self@);
        out
    }
}

/// What the forward discovery knows after expanding the first `i` states.
pub open spec fn discovery_inv<G: RulesGame>(g: &G, states: Seq<G::State>, ids: Map<u128, usize>, i: int) -> bool {
    &&& 0 <= i <= states.len()
    &&& states.len() >= 1
    &&& states[0] == g.initial()
    &&& keyed(states, ids)
    &&& forall|k: int| 0 <= k < states.len() ==> #[trigger] reachable(g, states[k])
    &&& forall|k: int| 0 <= k < states.len() ==> g.legal_state(#[trigger] states[k])
    &&& forall|k: int, m: int|
        0 <= k < i && g.result_of(states[k]) is None && 0 <= m < g.next_states(states[k]).len()
            ==> ids.contains_key(#[trigger] g.next_states(states[k])[m].key_spec())
}

/// Reachable positions are legal.
proof fn lemma_reachable_legal<G: RulesGame>(g: &G, s: G::State, d: nat)
    requires
        g.rules_ok(),
        g.legal_state(g.initial()),
        reachable_within(g, s, d),
    ensures
        g.legal_state(s),
        s.key_exact(),
    decreases d,
{
    if d > 0 {
        if reachable_within(g, s, (d - 1) as nat) {
            lemma_reachable_legal(g, s, (d - 1) as nat);
        } else {
            let p = choose|p: G::State|
                #![trigger g.next_states(p)]
                reachable_within(g, p, (d - 1) as nat) && g.result_of(p) is None
                    && g.next_states(p).contains(s);
            lemma_reachable_legal(g, p, (d - 1) as nat);
            let m = choose|m: int| 0 <= m < g.next_states(p).len() && g.next_states(p)[m] == s;
            g.lemma_next_legal(p, m);
        }
    }
    g.lemma_legal_exact(s);
}

/// `d`-step reachable states all lie in a closed, start-containing list.
proof fn lemma_closed_has_reachable<G: RulesGame>(
    g: &G,
    states: Seq<G::State>,
    ids: Map<u128, usize>,
    s: G::State,
    d: nat,
)
    requires
        g.rules_ok(),
        discovery_inv(g, states, ids, states.len() as int),
        reachable_within(g, s, d),
    ensures
        ids.contains_key(s.key_spec()),
    decreases d,
{
    if d == 0 {
        assert(ids.contains_key(states[0].key_spec()));
    } else if reachable_within(g, s, (d - 1) as nat) {
        lemma_closed_has_reachable(g, states, ids, s, (d - 1) as nat);
    } else {
        let p = choose|p: G::State|
            #![trigger g.next_states(p)]
            reachable_within(g, p, (d - 1) as nat) && g.result_of(p) is None
                && g.next_states(p).contains(s);
        lemma_closed_has_reachable(g, states, ids, p, (d - 1) as nat);
        lemma_reachable_legal(g, p, (d - 1) as nat);
        lemma_keyed_lookup(states, ids, p);
        let k = ids[p.key_spec()] as int;
        let m = choose|m: int| 0 <= m < g.next_states(p).len() && g.next_states(p)[m] == s;
        assert(ids.contains_key(g.next_states(states[k])[m].key_spec()));
    }
}

/// One move from a reachable position where play goes on is reachable.
proof fn lemma_reachable_step<G: RulesGame>(g: &G, p: G::State, s: G::State)
    requires
        reachable(g, p),
        g.result_of(p) is None,
        g.next_states(p).contains(s),
    ensures
        reachable(g, s),
{
    let d = choose|d: nat| reachable_within(g, p, d);
    let d1: nat = d + 1;
    assert((d1 - 1) as nat == d);
    assert(reachable_within(g, p, (d1 - 1) as nat));
    assert(reachable_within(g, s, d1));
}

/// Strongly solve a game by discovering its reachable positions and running
/// retrograde analysis over that graph. `cap` bounds the discovery (states); the
/// solve aborts and returns `None` if it is exceeded, so a mis-estimated game
/// can't exhaust the machine.
pub fn solve_reachable_capped<G: RulesGame>(game: &G, cap: usize) -> (r: Option<
    ReachableSolution<G::State>,
>)
    requires
        game.rules_ok(),
    ensures
        r is None <==> over_cap(game, cap as int),
        r matches Some(sol) ==> {
            &&& sol@.len() <= cap
            &&& forall|s: G::State|
                reachable(game, s) <==> exists|i: int| 0 <= i < sol@.len() && #[trigger] sol@[i].0 == s
            &&& forall|i: int| 0 <= i < sol@.len() ==> #[trigger] sol@[i].1 == state_value(game, sol@[i].0)
            &&& distinct(sol@.map_values(|p: (G::State, Outcome)| p.0))
        },
{
    // 1. Forward discovery: assign every reachable state a dense id.
    let mut ids: HashMap<u128, usize> = HashMap::new();
    let mut states: Vec<G::State> = Vec::new();
    let start = game.start();
    ids.insert(start.key(), 0);
    states.push(start);
    proof {
        assert(reachable_within(game, start, 0));
        game.lemma_legal_exact(start);
        assert(keyed(states@, ids@)) by {
            assert forall|k: u128| #[trigger] ids@.contains_key(k) implies (ids@[k] as int) < states@.len()
                && states@[ids@[k] as int].key_spec() == k by {}
        }
    }
    // The outcome of each expanded state, kept for the second pass.
    let mut term_vals: Vec<Option<Outcome>> = Vec::new();
    let mut i: usize = 0;
    while i < states.len()
        invariant
            game.rules_ok(),
            discovery_inv(game, states@, ids@, i as int),
            i == states@.len() ==> states@.len() <= cap,
            term_vals@.len() == i,
            forall|k: int| 0 <= k < i ==> #[trigger] term_vals@[k] == game.result_of(states@[k]),
        decreases cap - i,
    {
        if states.len() > cap {
            proof {
                lemma_keyed_distinct(states@, ids@);
            }
            return None;
        }
        let s = states[i];
        let ghost len0 = states@.len();
        let t = game.terminal(&s);
        term_vals.push(t);
        if t.is_none() {
            let succv = game.successors(&s);
            let mut m: usize = 0;
            while m < succv.len()
                invariant
                    game.rules_ok(),
                    discovery_inv(game, states@, ids@, i as int),
                    i < states@.len(),
                    s == states@[i as int],
                    game.result_of(s) is None,
                    succv@ == game.next_states(s),
                    m <= succv@.len(),
                    states@.len() >= len0,
                    term_vals@.len() == i + 1,
                    forall|k: int| 0 <= k <= i ==> #[trigger] term_vals@[k] == game.result_of(states@[k]),
                    forall|k: int| 0 <= k < succv@.len() ==> game.legal_state(#[trigger] succv@[k]),
                    forall|k: int| 0 <= k < m ==> ids@.contains_key(#[trigger] succv@[k].key_spec()),
                decreases succv@.len() - m,
            {
                let ns = succv[m];
                let key = ns.key();
                if !ids.contains_key(&key) {
                    let ghost old_states = states@;
                    let ghost old_ids = ids@;
                    ids.insert(key, states.len());
                    states.push(ns);
                    proof {
                        assert(succv@.contains(ns));
                        lemma_reachable_step(game, s, ns);
                        game.lemma_legal_exact(ns);
                        assert forall|k: int| 0 <= k < states@.len() implies (#[trigger] states@[k]).key_exact() by {
                            if k < old_states.len() {
                                assert(old_states[k].key_exact());
                            }
                        }
                        assert forall|k: int| 0 <= k < states@.len() implies #[trigger] ids@.contains_key(
                            states@[k].key_spec(),
                        ) && ids@[states@[k].key_spec()] == k by {
                            if k < old_states.len() {
                                assert(old_ids.contains_key(old_states[k].key_spec()));
                            }
                        }
                        assert forall|k: u128| #[trigger] ids@.contains_key(k) implies (ids@[k] as int)
                            < states@.len() && states@[ids@[k] as int].key_spec() == k by {
                            if k != key {
                                assert(old_ids.contains_key(k));
                            }
                        }
                        assert forall|k: int| 0 <= k < states@.len() implies #[trigger] reachable(game, states@[k]) by {
                            if k < old_states.len() {
                                assert(reachable(game, old_states[k]));
                            }
                        }
                        assert forall|k: int| 0 <= k < states@.len() implies game.legal_state(#[trigger] states@[k]) by {
                            if k < old_states.len() {
                                assert(game.legal_state(old_states[k]));
                            }
                        }
                    }
                }
                m += 1;
            }
        }
        proof {
            assert forall|k: int, m: int|
                0 <= k < i + 1 && game.result_of(states@[k]) is None && 0 <= m < game.next_states(states@[k]).len()
                    implies ids@.contains_key(#[trigger] game.next_states(states@[k])[m].key_spec()) by {}
        }
        i += 1;
    }

    // 2. Build the graph over ids: terminal labels, out-degrees, reverse edges.
    let n = states.len();
    let ghost sts = states@;
    let ghost idm = ids@;
    let ghost term = |j: int| game.result_of(sts[j]);
    let ghost succ = |j: int| game.next_states(sts[j]).map_values(|x: G::State| idm[x.key_spec()] as int);
    let mut label: Vec<Label> = Vec::new();
    let mut unresolved: Vec<usize> = Vec::new();
    let mut rev: Vec<Vec<usize>> = Vec::new();
    let mut queue: Vec<usize> = Vec::new();
    let mut z: usize = 0;
    while z < n
        invariant
            z <= n,
            rev@.len() == z,
            forall|t: int| 0 <= t < z ==> #[trigger] rev@[t]@ == Seq::<usize>::empty(),
        decreases n - z,
    {
        rev.push(Vec::new());
        z += 1;
    }
    proof {
        assert forall|t: int, p: usize| 0 <= t < n implies #[trigger] crate::retrograde::occurrences(
            views_of(rev@)[t],
            p,
        ) == 0 by {
            assert(views_of(rev@)[t] == Seq::<usize>::empty());
        }
    }
    let mut idx: usize = 0;
    while idx < n
        invariant
            game.rules_ok(),
            n == states@.len(),
            sts == states@,
            idm == ids@,
            keyed(sts, idm),
            discovery_inv(game, sts, idm, n as int),
            idx <= n,
            label@.len() == idx,
            unresolved@.len() == idx,
            rev@.len() == n,
            term == (|j: int| game.result_of(sts[j])),
            succ == (|j: int| game.next_states(sts[j]).map_values(|x: G::State| idm[x.key_spec()] as int)),
            pass_one_inv(term, succ, n as int, idx as int, label@, unresolved@, views_of(rev@), queue@),
            term_vals@.len() == n,
            forall|k: int| 0 <= k < n ==> #[trigger] term_vals@[k] == game.result_of(sts[k]),
        decreases n - idx,
    {
        let ghost rev_before = views_of(rev@);
        let s = states[idx];
        match term_vals[idx] {
            Some(o) => {
                let l = label_for(o);
                let decisive = match o {
                    Outcome::Draw => false,
                    _ => true,
                };
                proof {
                    lemma_pass_one_step(term, succ, n as int, idx as int, label@, unresolved@, rev_before, queue@, l, 0, decisive);
                }
                label.push(l);
                unresolved.push(0);
                if decisive {
                    queue.push(idx);
                }
            },
            None => {
                let succv = game.successors(&s);
                let ghost si = succ(idx as int);
                let mut m: usize = 0;
                proof {
                    assert(si.subrange(0, 0) =~= Seq::<int>::empty());
                    assert forall|t: int, p: usize| 0 <= t < n implies #[trigger] crate::retrograde::occurrences(rev@[t]@, p) == if p == idx {
                        crate::retrograde::occurrences(si.subrange(0, 0), t)
                    } else {
                        crate::retrograde::occurrences(rev_before[t], p)
                    } by {
                        assert(rev_before[t] == rev@[t]@);
                    }
                }
                while m < succv.len()
                    invariant
                        game.rules_ok(),
                        keyed(sts, idm),
                        idm == ids@,
                        discovery_inv(game, sts, idm, n as int),
                        n == sts.len(),
                        idx < n,
                        s == sts[idx as int],
                        game.result_of(s) is None,
                        succv@ == game.next_states(s),
                        m <= succv@.len(),
                        si.len() == succv@.len(),
                        forall|k: int| 0 <= k < succv@.len() ==> #[trigger] si[k] == idm[succv@[k].key_spec()] as int,
                        rev@.len() == n,
                        forall|k: int| 0 <= k < m ==> 0 <= #[trigger] si[k] < n,
                        forall|t: int, p: usize|
                            0 <= t < n ==> #[trigger] crate::retrograde::occurrences(rev@[t]@, p) == if p == idx {
                                crate::retrograde::occurrences(si.subrange(0, m as int), t)
                            } else {
                                crate::retrograde::occurrences(rev_before[t], p)
                            },
                    decreases succv@.len() - m,
                {
                    let key = succv[m].key();
                    proof {
                        assert(ids@.contains_key(game.next_states(sts[idx as int])[m as int].key_spec()));
                    }
                    let jj = *ids.get(&key).unwrap();
                    let ghost rev_prev = rev@;
                    rev[jj].push(idx);
                    proof {
                        assert(si.subrange(0, m as int + 1) =~= si.subrange(0, m as int).push(si[m as int]));
                        assert forall|t: int, p: usize| 0 <= t < n implies #[trigger] crate::retrograde::occurrences(rev@[t]@, p)
                            == if p == idx {
                                crate::retrograde::occurrences(si.subrange(0, m as int + 1), t)
                            } else {
                                crate::retrograde::occurrences(rev_before[t], p)
                            } by {
                            crate::retrograde::lemma_occurrences_push(si.subrange(0, m as int), si[m as int], t);
                            if t == jj as int {
                                assert(rev@[t]@ == rev_prev[t]@.push(idx));
                                crate::retrograde::lemma_occurrences_push(rev_prev[t]@, idx, p);
                            } else {
                                assert(rev@[t] == rev_prev[t]);
                            }
                        }
                    }
                    m += 1;
                }
                proof {
                    assert(si.subrange(0, m as int) =~= si);
                    lemma_pass_one_inner(term, succ, n as int, idx as int, label@, unresolved@, rev_before, views_of(rev@), queue@);
                }
                label.push(Label::Unknown);
                unresolved.push(succv.len());
            },
        }
        idx += 1;
    }
    proof {
        lemma_pass_one_done(term, succ, n as int, label@, unresolved@, views_of(rev@), queue@);
    }

    // 3. Retrograde: a Loss makes predecessors Win; a Win decrements
    //    predecessors, Loss when all moves are exhausted; the rest are Draws.
    propagate(&mut label, &mut unresolved, &mut rev, &mut queue, Ghost(term), Ghost(succ));

    let mut values: Vec<Outcome> = Vec::new();
    let mut k: usize = 0;
    while k < n
        invariant
            k <= n,
            label@.len() == n,
            values@.len() == k,
            forall|x: int| 0 <= x < k ==> #[trigger] values@[x] == outcome_of(label@[x]),
        decreases n - k,
    {
        values.push(outcome_for(label[k]));
        k += 1;
    }
    proof {
        lemma_reachable_values(game, sts, idm, term, succ);
        lemma_keyed_distinct(sts, idm);
        assert forall|s: G::State| reachable(game, s) implies exists|i: int| 0 <= i < sts.len() && #[trigger] sts[i] == s by {
            let d = choose|d: nat| reachable_within(game, s, d);
            lemma_closed_has_reachable(game, sts, idm, s, d);
            lemma_reachable_legal(game, s, d);
            lemma_keyed_lookup(sts, idm, s);
            let i = idm[s.key_spec()] as int;
            assert(sts[i] == s);
        }
    }
    let sol = ReachableSolution { states, values, ids };
    proof {
        assert(sol@.map_values(|p: (G::State, Outcome)| p.0) =~= sts);
        assert forall|s: G::State| reachable(game, s) <==> exists|i: int| 0 <= i < sol@.len() && #[trigger] sol@[i].0 == s by {
            if reachable(game, s) {
                let i = choose|i: int| 0 <= i < sts.len() && #[trigger] sts[i] == s;
                assert(sol@[i].0 == s);
            }
            if exists|i: int| 0 <= i < sol@.len() && #[trigger] sol@[i].0 == s {
                let i = choose|i: int| 0 <= i < sol@.len() && #[trigger] sol@[i].0 == s;
                assert(sts[i] == s);
            }
        }
        assert forall|i: int| 0 <= i < sol@.len() implies #[trigger] sol@[i].1 == state_value(game, sol@[i].0) by {
            assert(sol@[i].1 == outcome_of(label@[i]));
        }
        if over_cap(game, cap as int) {
            let ss = choose|ss: Seq<G::State>|
                ss.len() > cap && distinct(ss) && forall|k: int| 0 <= k < ss.len() ==> reachable(game, #[trigger] ss[k]);
            assert forall|k: int| 0 <= k < ss.len() implies sts.contains(#[trigger] ss[k]) by {
                assert(reachable(game, ss[k]));
            }
            lemma_distinct_len_le(ss, sts);
        }
    }
    Some(sol)
}

/// The value on the id graph is the value of the state with that id.
proof fn lemma_reachable_values<G: RulesGame>(
    g: &G,
    sts: Seq<G::State>,
    idm: Map<u128, usize>,
    term: spec_fn(int) -> Option<Outcome>,
    succ: spec_fn(int) -> Seq<int>,
)
    requires
        g.rules_ok(),
        discovery_inv(g, sts, idm, sts.len() as int),
        term == (|j: int| g.result_of(sts[j])),
        succ == (|j: int| g.next_states(sts[j]).map_values(|x: G::State| idm[x.key_spec()] as int)),
    ensures
        forall|i: int| 0 <= i < sts.len() ==> #[trigger] game_value(term, succ, i) == state_value(g, sts[i]),
{
    let dom = |j: int| 0 <= j < sts.len();
    let f = |j: int| sts[j];
    assert forall|a: int| #[trigger] dom(a) && term(a) is None implies next_fn(g)(f(a)) == succ(a).map_values(f)
        && forall|m: int| 0 <= m < succ(a).len() ==> dom(#[trigger] succ(a)[m]) by {
        let ns = g.next_states(sts[a]);
        assert forall|m: int| 0 <= m < ns.len() implies #[trigger] f(succ(a)[m]) == ns[m] && dom(succ(a)[m]) by {
            assert(idm.contains_key(g.next_states(sts[a])[m].key_spec()));
            g.lemma_next_legal(sts[a], m);
            g.lemma_legal_exact(ns[m]);
            lemma_keyed_lookup(sts, idm, ns[m]);
        }
        assert(next_fn(g)(f(a)) =~= succ(a).map_values(f));
    }
    assert forall|i: int| 0 <= i < sts.len() implies #[trigger] game_value(term, succ, i) == state_value(g, sts[i]) by {
        lemma_graph_map_value(term, succ, result_fn(g), next_fn(g), f, dom, i);
    }
}

/// `sol` lists `t` with value `o`.
pub open spec fn lists<S>(sol: Seq<(S, Outcome)>, t: S, o: Outcome) -> bool {
    exists|j: int| 0 <= j < sol.len() && sol[j] == (t, o)
}

/// A solve of the reachable positions obeys the rules move by move: a listed
/// terminal position is listed with its own outcome; every move from a listed
/// position where play goes on leads to a listed position (with its value); and
/// such a position
/// is listed as a Win exactly when some move leads to one listed as a Loss, and
/// as a Loss exactly when it has a move and every move leads to one listed as a
/// Win.
pub proof fn lemma_solution_local<G: RulesGame>(g: &G, sol: Seq<(G::State, Outcome)>, i: int)
    requires
        forall|s: G::State| reachable(g, s) <==> exists|j: int| 0 <= j < sol.len() && #[trigger] sol[j].0 == s,
        forall|j: int| 0 <= j < sol.len() ==> #[trigger] sol[j].1 == state_value(g, sol[j].0),
        0 <= i < sol.len(),
    ensures
        g.result_of(sol[i].0) matches Some(o) ==> sol[i].1 == o,
        g.result_of(sol[i].0) is None ==> forall|m: int|
            0 <= m < g.next_states(sol[i].0).len() ==> lists(
                sol,
                #[trigger] g.next_states(sol[i].0)[m],
                state_value(g, g.next_states(sol[i].0)[m]),
            ),
        g.result_of(sol[i].0) is None ==> (sol[i].1 == Outcome::Win <==> exists|m: int|
            0 <= m < g.next_states(sol[i].0).len() && lists(sol, #[trigger] g.next_states(sol[i].0)[m], Outcome::Loss)),
        g.result_of(sol[i].0) is None ==> (sol[i].1 == Outcome::Loss <==> (g.next_states(sol[i].0).len() > 0
            && forall|m: int|
            0 <= m < g.next_states(sol[i].0).len() ==> lists(sol, #[trigger] g.next_states(sol[i].0)[m], Outcome::Win))),
{
    let s = sol[i].0;
    let next = g.next_states(s);
    lemma_state_value_local(g, s);
    assert(sol[i].1 == state_value(g, s));
    if g.result_of(s) is None {
        assert(reachable(g, s));
        let d = choose|d: nat| reachable_within(g, s, d);
        assert forall|m: int| 0 <= m < next.len() implies lists(sol, #[trigger] next[m], state_value(g, next[m])) by {
            assert(next.contains(next[m]));
            assert(reachable_within(g, next[m], d + 1));
            assert(reachable(g, next[m]));
            let j = choose|j: int| 0 <= j < sol.len() && #[trigger] sol[j].0 == next[m];
            assert(sol[j] == (next[m], state_value(g, next[m])));
        }
        assert forall|m: int, o: Outcome| 0 <= m < next.len() && #[trigger] lists(sol, next[m], o) implies o
            == state_value(g, next[m]) by {
            let j = choose|j: int| 0 <= j < sol.len() && sol[j] == (next[m], o);
            assert(sol[j].1 == state_value(g, sol[j].0));
        }
        if sol[i].1 == Outcome::Win {
            let m = choose|m: int| 0 <= m < next.len() && state_value(g, #[trigger] next[m]) == Outcome::Loss;
            assert(lists(sol, next[m], state_value(g, next[m])));
        }
        if sol[i].1 == Outcome::Loss {
            assert forall|m: int| 0 <= m < next.len() implies lists(sol, #[trigger] next[m], Outcome::Win) by {
                assert(lists(sol, next[m], state_value(g, next[m])));
            }
        }
        if next.len() > 0 && forall|m: int| 0 <= m < next.len() ==> lists(sol, #[trigger] next[m], Outcome::Win) {
            assert forall|m: int| 0 <= m < next.len() implies state_value(g, #[trigger] next[m]) == Outcome::Win by {
                assert(lists(sol, next[m], Outcome::Win));
            }
        }
    }
}

/// Convenience wrapper with a generous default cap.
pub fn solve_reachable<G: RulesGame>(game: &G) -> (sol: ReachableSolution<G::State>)
    requires
        game.rules_ok(),
        !over_cap(game, 200_000_000),
    ensures
        forall|s: G::State|
            reachable(game, s) <==> exists|i: int| 0 <= i < sol@.len() && #[trigger] sol@[i].0 == s,
        forall|i: int| 0 <= i < sol@.len() ==> #[trigger] sol@[i].1 == state_value(game, sol@[i].0),
        distinct(sol@.map_values(|p: (G::State, Outcome)| p.0)),
{
    match solve_reachable_capped(game, 200_000_000) {
        Some(sol) => sol,
        None => {
            proof {
                assert(false);
            }
            vstd::pervasive::unreached()
        },
    }
}

} // verus!
