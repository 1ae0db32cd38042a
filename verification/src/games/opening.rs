//! Opening analysis on a solved morris board: how the replies to a position
//! split into wins, draws and losses for the side that replies.

use vstd::prelude::*;
use crate::Outcome;
use crate::games::generic_morris::{GenericMorris, State};
use crate::reachable::{distinct, ReachableSolution, RulesGame};
use crate::retrograde::{lemma_occurrences_push, occurrences};

verus! {

/// `sol` lists a value for `t`.
pub open spec fn is_listed(sol: Seq<(State, Outcome)>, t: State) -> bool {
    exists|i: int| 0 <= i < sol.len() && sol[i].0 == t
}

/// The value `sol` lists last for `t` (a draw when it lists none).
pub open spec fn listed_value(sol: Seq<(State, Outcome)>, t: State) -> Outcome
    decreases sol.len(),
{
    if sol.len() == 0 {
        Outcome::Draw
    } else if sol.last().0 == t {
        sol.last().1
    } else {
        listed_value(sol.drop_last(), t)
    }
}

/// A position listed once has the value it is listed with.
proof fn lemma_listed_value(sol: Seq<(State, Outcome)>, i: int)
    requires
        distinct(sol.map_values(|p: (State, Outcome)| p.0)),
        0 <= i < sol.len(),
    ensures
        listed_value(sol, sol[i].0) == sol[i].1,
    decreases sol.len(),
{
    let states = sol.map_values(|p: (State, Outcome)| p.0);
    if i < sol.len() - 1 {
        assert(states[i] != states[sol.len() - 1]);
        let init = sol.drop_last();
        assert(init.map_values(|p: (State, Outcome)| p.0) =~= states.drop_last());
        assert(init[i] == sol[i]);
        lemma_listed_value(init, i);
    }
}

/// The values listed for the first `k` replies.
pub open spec fn reply_values(sol: Seq<(State, Outcome)>, replies: Seq<State>, k: int) -> Seq<Outcome> {
    Seq::new(k as nat, |j: int| listed_value(sol, replies[j]))
}

/// The point of Black's lowest man after each of the first `k` replies whose
/// listed value is `want`, in reply order.
pub open spec fn reply_points(sol: Seq<(State, Outcome)>, replies: Seq<State>, k: int, want: Outcome) -> Seq<u32>
    decreases k,
{
    if k <= 0 {
        Seq::empty()
    } else {
        let prev = reply_points(sol, replies, k - 1, want);
        if listed_value(sol, replies[k - 1]) == want {
            prev.push(replies[k - 1].black.trailing_zeros())
        } else {
            prev
        }
    }
}

/// How the replies to a position split by their solved value, for the side
/// that replies.
pub struct ReplySplit {
    /// Replies the replier wins: the side then to move loses.
    pub wins: u64,
    pub draws: u64,
    /// Replies the replier loses: the side then to move wins.
    pub losses: u64,
    /// Black's lowest point after each drawn reply, in reply order.
    pub draw_points: Vec<u32>,
    /// Black's lowest point after each lost reply, in reply order.
    pub loss_points: Vec<u32>,
}

/// Split the replies to `s` by the value `sol` lists for each; `None` when
/// `sol` lists no value for some reply.
pub fn reply_split(g: &GenericMorris, sol: &ReachableSolution<State>, s: &State) -> (r: Option<ReplySplit>)
    requires
        g.board_ok(),
    ensures
        r is None <==> exists|m: int|
            0 <= m < g.next_states(*s).len() && !is_listed(sol@, #[trigger] g.next_states(*s)[m]),
        r matches Some(x) ==> {
            let next = g.next_states(*s);
            let vals = reply_values(sol@, next, next.len() as int);
            &&& x.wins == occurrences(vals, Outcome::Loss)
            &&& x.draws == occurrences(vals, Outcome::Draw)
            &&& x.losses == occurrences(vals, Outcome::Win)
            &&& x.draw_points@ == reply_points(sol@, next, next.len() as int, Outcome::Draw)
            &&& x.loss_points@ == reply_points(sol@, next, next.len() as int, Outcome::Win)
        },
{
    let replies = RulesGame::successors(g, s);
    let ghost next = g.next_states(*s);
    let mut wins: u64 = 0;
    let mut draws: u64 = 0;
    let mut losses: u64 = 0;
    let mut draw_points: Vec<u32> = Vec::new();
    let mut loss_points: Vec<u32> = Vec::new();
    let mut k: usize = 0;
    while k < replies.len()
        invariant
            next == g.next_states(*s),
            replies@ == next,
            k <= next.len(),
            forall|m: int| 0 <= m < k ==> is_listed(sol@, #[trigger] next[m]),
            wins == occurrences(reply_values(sol@, next, k as int), Outcome::Loss),
            draws == occurrences(reply_values(sol@, next, k as int), Outcome::Draw),
            losses == occurrences(reply_values(sol@, next, k as int), Outcome::Win),
            wins + draws + losses == k,
            draw_points@ == reply_points(sol@, next, k as int, Outcome::Draw),
            loss_points@ == reply_points(sol@, next, k as int, Outcome::Win),
        decreases next.len() - k,
    {
        let ns = replies[k];
        let o = match sol.get(&ns) {
            Some(o) => o,
            None => {
                proof {
                    assert(!is_listed(sol@, g.next_states(*s)[k as int]));
                }
                return None;
            },
        };
        proof {
            let i = choose|i: int| 0 <= i < sol@.len() && sol@[i] == (ns, o);
            lemma_listed_value(sol@, i);
            assert(is_listed(sol@, next[k as int]));
            let vals = reply_values(sol@, next, k as int + 1);
            assert(vals =~= reply_values(sol@, next, k as int).push(o));
            lemma_occurrences_push(reply_values(sol@, next, k as int), o, Outcome::Loss);
            lemma_occurrences_push(reply_values(sol@, next, k as int), o, Outcome::Draw);
            lemma_occurrences_push(reply_values(sol@, next, k as int), o, Outcome::Win);
        }
        let bp = ns.black.trailing_zeros();
        match o {
            Outcome::Loss => {
                wins += 1;
            },
            Outcome::Win => {
                losses += 1;
                loss_points.push(bp);
            },
            Outcome::Draw => {
                draws += 1;
                draw_points.push(bp);
            },
        }
        k += 1;
    }
    Some(ReplySplit { wins, draws, losses, draw_points, loss_points })
}

/// Where a point of the two-ring board lies: points `0..8` are the outer
/// ring, the rest the inner; even points are corners, odd ones side midpoints.
#[derive(Clone, Copy, PartialEq, Eq, Structural, Debug)]
pub enum RingPoint {
    OuterCorner,
    OuterMid,
    InnerCorner,
    InnerMid,
}

pub open spec fn ring_point_of(p: int) -> RingPoint {
    if p < 8 {
        if p % 2 == 0 {
            RingPoint::OuterCorner
        } else {
            RingPoint::OuterMid
        }
    } else if p % 2 == 0 {
        RingPoint::InnerCorner
    } else {
        RingPoint::InnerMid
    }
}

/// The kind of point `p` on the two-ring board.
pub fn ring_point(p: u32) -> (k: RingPoint)
    ensures
        k == ring_point_of(p as int),
{
    if p < 8 {
        if p % 2 == 0 {
            RingPoint::OuterCorner
        } else {
            RingPoint::OuterMid
        }
    } else if p % 2 == 0 {
        RingPoint::InnerCorner
    } else {
        RingPoint::InnerMid
    }
}

/// The kind of point White's lowest man stands on.
pub open spec fn white_kind(s: State) -> RingPoint {
    ring_point_of(s.white.trailing_zeros() as int)
}

/// Of the first `k` of `moves`, each one whose white kind no earlier one
/// had, in order.
pub open spec fn first_of_each_kind(moves: Seq<State>, k: int) -> Seq<State>
    decreases k,
{
    if k <= 0 {
        Seq::empty()
    } else {
        let prev = first_of_each_kind(moves, k - 1);
        if exists|j: int| 0 <= j < prev.len() && white_kind(#[trigger] prev[j]) == white_kind(moves[k - 1]) {
            prev
        } else {
            prev.push(moves[k - 1])
        }
    }
}

/// White's opening placements, one per kind of point (the first the moves
/// list for each kind), in the order the moves list them.
pub fn opening_representatives(g: &GenericMorris) -> (r: Vec<State>)
    requires
        g.board_ok(),
    ensures
        r@ == first_of_each_kind(g.next_states(g.initial()), g.next_states(g.initial()).len() as int),
{
    let start = RulesGame::start(g);
    let moves = RulesGame::successors(g, &start);
    let mut out: Vec<State> = Vec::new();
    let mut kinds: Vec<RingPoint> = Vec::new();
    let mut k: usize = 0;
    while k < moves.len()
        invariant
            moves@ == g.next_states(g.initial()),
            k <= moves@.len(),
            out@ == first_of_each_kind(moves@, k as int),
            kinds@.len() == out@.len(),
            forall|j: int| 0 <= j < out@.len() ==> kinds@[j] == white_kind(#[trigger] out@[j]),
        decreases moves@.len() - k,
    {
        let kd = ring_point(moves[k].white.trailing_zeros());
        let mut found = false;
        let mut j: usize = 0;
        while j < kinds.len()
            invariant
                j <= kinds@.len(),
                kinds@.len() == out@.len(),
                forall|x: int| 0 <= x < out@.len() ==> kinds@[x] == white_kind(#[trigger] out@[x]),
                kd == white_kind(moves@[k as int]),
                found <==> exists|x: int| 0 <= x < j && white_kind(#[trigger] out@[x]) == kd,
            decreases kinds@.len() - j,
        {
            if kinds[j] == kd {
                found = true;
            }
            proof {
                assert(kinds@[j as int] == white_kind(out@[j as int]));
            }
            j += 1;
        }
        if !found {
            out.push(moves[k]);
            kinds.push(kd);
            proof {
                assert forall|x: int| 0 <= x < out@.len() implies kinds@[x] == white_kind(#[trigger] out@[x]) by {}
            }
        }
        k += 1;
    }
    out
}

/// Every point in `pts` is on the inner ring.
pub fn all_inner(pts: &Vec<u32>) -> (r: bool)
    ensures
        r == forall|i: int| 0 <= i < pts@.len() ==> #[trigger] pts@[i] >= 8,
{
    let mut i: usize = 0;
    while i < pts.len()
        invariant
            i <= pts@.len(),
            forall|x: int| 0 <= x < i ==> #[trigger] pts@[x] >= 8,
        decreases pts@.len() - i,
    {
        if pts[i] < 8 {
            return false;
        }
        i += 1;
    }
    true
}

/// Every point in `pts` is on the outer ring.
pub fn all_outer(pts: &Vec<u32>) -> (r: bool)
    ensures
        r == forall|i: int| 0 <= i < pts@.len() ==> #[trigger] pts@[i] < 8,
{
    let mut i: usize = 0;
    while i < pts.len()
        invariant
            i <= pts@.len(),
            forall|x: int| 0 <= x < i ==> #[trigger] pts@[x] < 8,
        decreases pts@.len() - i,
    {
        if pts[i] >= 8 {
            return false;
        }
        i += 1;
    }
    true
}

} // verus!
