//! One iteration of the search: selection, expansion, rollout and
//! backpropagation, and the ranking that results.

use crate::backprop::{backpropagate, passes};
use crate::expand::expand;
use crate::game::{tallies, Game};
use crate::rank::rank;
use crate::rollout::{playout, playout_ends, plays_out, rollout};
use crate::search::SearchInfo;
use crate::select::{is_scorer, key_of, select};
use crate::table::Table;
use vstd::prelude::*;

verus! {

impl<G: Game> Table<G> {
    /// The slot in which selection from the root stops, where `keys` gives the
    /// keys of the moves that have been tried.
    pub open spec fn leaf(self, keys: spec_fn(u128, u64, u64) -> u64) -> int {
        self.trail(keys, self.root).last() as int
    }

    /// Whether the game is over where selection stops.
    pub open spec fn leaf_is_end(self, keys: spec_fn(u128, u64, u64) -> u64) -> bool {
        G::outcome(self.entry(self.leaf(keys)).state) is Some
    }

    /// The position that the playout of the next iteration starts from: the
    /// one where selection stops if the game is over there, else the one that
    /// the move chosen there leads to.
    pub open spec fn playout_start(self, keys: spec_fn(u128, u64, u64) -> u64) -> G::V {
        if self.leaf_is_end(keys) {
            self.entry(self.leaf(keys)).state
        } else {
            self.target(self.leaf(keys), self.choice(keys, self.leaf(keys)))
        }
    }

    /// The table after selection and expansion: if the game goes on where
    /// selection stops, the move chosen there has been tried.
    pub open spec fn grown(self, keys: spec_fn(u128, u64, u64) -> u64) -> Table<G> {
        if self.leaf_is_end(keys) {
            self
        } else {
            self.expanded(self.leaf(keys), self.choice(keys, self.leaf(keys)))
        }
    }

    /// The slots that the next iteration counts its playout in: those that
    /// selection passes through and, if a move is tried, the slot it leads to.
    pub open spec fn route(self, keys: spec_fn(u128, u64, u64) -> u64) -> Seq<usize> {
        if self.leaf_is_end(keys) {
            self.trail(keys, self.root)
        } else {
            self.trail(keys, self.root).push(self.home(self.playout_start(keys)) as usize)
        }
    }

    /// Whether the playout of the next iteration may end in `end`.  If the game
    /// is over where selection stops, the playout ends there; else it is a
    /// random game from the position that the chosen move leads to.
    pub open spec fn may_end(self, keys: spec_fn(u128, u64, u64) -> u64, end: G::V) -> bool {
        if self.leaf_is_end(keys) {
            end == self.playout_start(keys)
        } else {
            playout::<G>(self.playout_start(keys), end)
        }
    }

    /// The table after an iteration that selects by `keys` and whose playout
    /// ended in `end`: the move chosen where selection stops has been tried, if
    /// the game goes on there, and the scores of `end` are counted along the
    /// route.
    pub open spec fn after_step(self, keys: spec_fn(u128, u64, u64) -> u64, end: G::V) -> Table<G> {
        self.grown(keys).ticked().credited(self.route(keys), G::outcome(end)->0)
    }

    /// Whether the slot that the next iteration may fill can be addressed.
    pub open spec fn has_room(self, keys: spec_fn(u128, u64, u64) -> u64) -> bool {
        self.leaf_is_end(keys) || 0 <= self.home(self.playout_start(keys)) <= usize::MAX
    }

    /// Selection and expansion keep the table sound.  The route starts at the
    /// root and descends; every entry keeps its position, its counts and the
    /// moves tried from it; and a link of the grown table was there before or
    /// joins two slots of the route.
    pub proof fn grown_sound(self, keys: spec_fn(u128, u64, u64) -> u64)
        requires
            self.wf(),
            self.has_room(keys),
        ensures
            self.grown(keys).sound(),
            self.grown(keys).root == self.root,
            self.grown(keys).steps == self.steps,
            self.route(keys).len() >= 1,
            self.route(keys)[0] == self.root,
            self.grown(keys).descends(self.route(keys)),
            G::valid(self.playout_start(keys)),
            self.grown(keys).entry(self.route(keys).last() as int).state == self.playout_start(keys),
            !self.leaf_is_end(keys) ==> 0 <= self.home(self.playout_start(keys)) <= usize::MAX
                && 0 <= self.choice(keys, self.leaf(keys)) < self.entry(self.leaf(keys)).children.len(),
            forall|i: int| #[trigger]
                self.live(i) ==> {
                    &&& self.grown(keys).live(i)
                    &&& self.grown(keys).entry(i).state == self.entry(i).state
                    &&& self.grown(keys).entry(i).visits == self.entry(i).visits
                    &&& self.grown(keys).entry(i).rewards == self.entry(i).rewards
                    &&& forall|j: int|
                        0 <= j < self.entry(i).children.len() && self.entry(i).children[j] is Some
                            ==> self.grown(keys).entry(i).children[j] == self.entry(i).children[j]
                },
            forall|i: int, j: int, c: int| #[trigger]
                self.grown(keys).linked(i, j, c) ==> self.linked(i, j, c) || (passes(self.route(keys), i)
                    && passes(self.route(keys), c)),
    {
        let path = self.trail(keys, self.root);
        let last = self.leaf(keys);
        self.trail_descends(keys, self.root);
        assert(self.live(last));
        assert(self.entry_sound(last));
        if !self.leaf_is_end(keys) {
            let j = self.choice(keys, last);
            self.choice_in_range(keys, last);
            let state = self.target(last, j);
            G::rules(self.entry(last).state);
            assert(G::legal(self.entry(last).state).contains(G::legal(self.entry(last).state)[j]));
            let c = self.home(state) as usize;
            self.expanded_sound(last, j);
            let grown = self.grown(keys);
            let longer = self.route(keys);
            assert(longer == path.push(c));
            assert forall|a: int| 0 <= a < longer.len() implies grown.live(
                #[trigger] longer[a] as int,
            ) by {
                if a < path.len() {
                    assert(self.live(path[a] as int));
                }
            }
            assert forall|a: int, b: int| 0 <= a < b < longer.len() implies grown.depth(
                #[trigger] longer[b],
            ) < grown.depth(#[trigger] longer[a]) by {
                assert(self.live(path[a] as int));
                if b < path.len() {
                    assert(self.live(path[b] as int));
                    assert(self.depth(path[b]) < self.depth(path[a]));
                } else if a < path.len() - 1 {
                    assert(self.depth(path[path.len() - 1]) < self.depth(path[a]));
                }
            }
            assert forall|i: int, j2: int, d: int| #[trigger] grown.linked(i, j2, d) implies self.linked(
                i,
                j2,
                d,
            ) || (passes(longer, i) && passes(longer, d)) by {
                if !self.linked(i, j2, d) {
                    assert(longer[longer.len() - 2] as int == i);
                    assert(longer[longer.len() - 1] as int == d);
                }
            }
            assert forall|i: int| #[trigger] self.live(i) implies forall|j2: int|
                0 <= j2 < self.entry(i).children.len() && self.entry(i).children[j2] is Some
                    ==> grown.entry(i).children[j2] == self.entry(i).children[j2] by {
                assert forall|j2: int|
                    0 <= j2 < self.entry(i).children.len() && self.entry(
                        i,
                    ).children[j2] is Some implies grown.entry(i).children[j2] == self.entry(
                    i,
                ).children[j2] by {
                    let d = self.entry(i).children[j2]->0;
                    assert(self.linked(i, j2, d as int));
                    assert(self.entry_sound(i));
                    self.interned_sound(state);
                    assert(self.interned(state).entry(i) == self.entry(i));
                }
            }
        }
    }

    /// An iteration keeps the invariant of the search.  It leaves every entry
    /// with its position and with the moves that were tried from it, counts
    /// one more playout, and leaves the root with one more visit.
    pub proof fn step_keeps_invariant(self, keys: spec_fn(u128, u64, u64) -> u64, end: G::V)
        requires
            self.wf(),
            self.has_room(keys),
            self.steps < u64::MAX,
            self.may_end(keys, end),
        ensures
            G::valid(end),
            G::outcome(end) is Some,
            self.after_step(keys, end).wf(),
            self.after_step(keys, end).steps == self.steps + 1,
            self.after_step(keys, end).root == self.root,
            self.after_step(keys, end).root_state() == self.root_state(),
            self.after_step(keys, end).entry(self.root as int).visits == self.entry(
                self.root as int,
            ).visits + 1,
            forall|i: int| #[trigger]
                self.live(i) ==> {
                    &&& self.after_step(keys, end).live(i)
                    &&& self.after_step(keys, end).entry(i).state == self.entry(i).state
                    &&& self.after_step(keys, end).entry(i).visits >= self.entry(i).visits
                    &&& forall|j: int|
                        0 <= j < self.entry(i).children.len() && self.entry(i).children[j] is Some
                            ==> self.after_step(keys, end).entry(i).children[j] == self.entry(
                            i,
                        ).children[j]
                },
    {
        self.grown_sound(keys);
        let grown = self.grown(keys);
        let route = self.route(keys);
        let next = self.after_step(keys, end);
        if !self.leaf_is_end(keys) {
            let moves = choose|moves: nat| plays_out::<G>(self.playout_start(keys), end, moves);
            playout_ends::<G>(self.playout_start(keys), end, moves);
        }
        let scores = G::outcome(end)->0;
        self.route_is_scored(keys, end);
        G::rules(end);
        grown.credited_sound(route, scores);
        assert(next.counted()) by {
            assert forall|i: int, j: int, c: int| #[trigger] next.linked(i, j, c) implies next.entry(
                i,
            ).visits >= 1 && next.entry(c).visits >= 1 by {
                assert(grown.live(i));
                assert(grown.linked(i, j, c));
                assert(grown.entry_sound(i));
                assert(grown.live(c));
                if self.linked(i, j, c) {
                    assert(self.entry_sound(i));
                    assert(self.live(c));
                }
            }
        }
        assert(passes(route, self.root as int)) by {
            assert(route[0] as int == self.root as int);
        }
        grown.ticked().credited_entries(route, scores);
        assert(grown.live(self.root as int));
    }

    /// Every player who moves into a slot of the route has a score where the
    /// game is over.
    pub proof fn route_is_scored(self, keys: spec_fn(u128, u64, u64) -> u64, end: G::V)
        requires
            self.wf(),
            self.has_room(keys),
            G::valid(end),
            G::outcome(end) is Some,
        ensures
            forall|k: int|
                0 < k < self.route(keys).len() ==> G::outcome(end)->0.dom().contains(
                    #[trigger] self.grown(keys).mover_into(self.route(keys), k),
                ),
    {
        self.grown_sound(keys);
        let grown = self.grown(keys);
        let route = self.route(keys);
        assert forall|k: int| 0 < k < route.len() implies G::outcome(end)->0.dom().contains(
            #[trigger] grown.mover_into(route, k),
        ) by {
            assert(grown.live(route[k - 1] as int));
            assert(grown.entry_sound(route[k - 1] as int));
            G::movers_are_scored(grown.entry(route[k - 1] as int).state, end);
        }
    }

    /// A move that has been tried stays tried: after any iteration it still
    /// leads where it led, and selection gives it a key for its priority, not
    /// the priority of a move never tried.
    pub proof fn tried_stays_scored(self, keys: spec_fn(u128, u64, u64) -> u64, end: G::V, i: int, j: int)
        requires
            self.wf(),
            self.has_room(keys),
            self.steps < u64::MAX,
            self.may_end(keys, end),
            self.live(i),
            0 <= j < self.entry(i).children.len(),
            self.entry(i).children[j] is Some,
        ensures
            self.after_step(keys, end).live(i),
            self.after_step(keys, end).entry(i).children[j] == self.entry(i).children[j],
            self.after_step(keys, end).priority(keys, i, j) is Some,
    {
        self.step_keeps_invariant(keys, end);
    }
}

/// After any number of iterations on a new search, the position at which the
/// game stands has as many visits as iterations were run.
pub proof fn visits_count_iterations<G: Game>(
    start: G::V,
    keys: spec_fn(u128, u64, u64) -> u64,
    tables: Seq<Table<G>>,
    ends: Seq<G::V>,
)
    requires
        G::valid(start),
        tables.len() == ends.len() + 1,
        tables.len() <= u64::MAX,
        tables[0] == Table::<G>::fresh(start),
        forall|k: int|
            0 <= k < ends.len() ==> (#[trigger] tables[k]).has_room(keys) && tables[k].may_end(keys, ends[k])
                && tables[k + 1] == tables[k].after_step(keys, ends[k]),
    ensures
        tables.last().wf(),
        tables.last().root_state() == start,
        tables.last().steps == ends.len(),
        tables.last().entry(tables.last().root as int).visits == ends.len(),
    decreases ends.len(),
{
    if ends.len() == 0 {
        Table::<G>::fresh_wf(start);
    } else {
        let n = ends.len() - 1;
        let earlier = tables.drop_last();
        assert(earlier[0] == tables[0]);
        assert forall|k: int| 0 <= k < n implies (#[trigger] earlier[k]).has_room(keys) && earlier[k].may_end(
            keys,
            ends.drop_last()[k],
        ) && earlier[k + 1] == earlier[k].after_step(keys, ends.drop_last()[k]) by {
            assert(earlier[k] == tables[k]);
            assert(tables[k].has_room(keys));
        }
        visits_count_iterations::<G>(start, keys, earlier, ends.drop_last());
        assert(earlier.last() == tables[n]);
        assert(tables[n].has_room(keys));
        tables[n].step_keeps_invariant(keys, ends[n]);
    }
}

/// Runs one iteration of the search and gives the moves tried at the position
/// where the game stands, best first.  Among the moves of a position that have
/// all been tried, selection takes the one to which `score` gives the greatest
/// key, and the last of them if several have it.
pub fn mcts_step<G: Game, F: Fn(u128, u64, u64) -> u64>(search: &mut SearchInfo<G>, score: F) -> (ranking:
    Vec<G::Action>) where G::Action: Copy
    requires
        old(search).wf(),
        old(search)@.steps < u64::MAX,
        is_scorer(score),
    ensures
        final(search).wf(),
        old(search)@.has_room(key_of(score)),
        exists|end: G::V|
            #![trigger old(search)@.may_end(key_of(score), end)]
            old(search)@.may_end(key_of(score), end) && final(search)@ == old(search)@.after_step(
                key_of(score),
                end,
            ),
        ranking@ == final(search)@.ranking(),
        final(search)@.steps == old(search)@.steps + 1,
        final(search)@.root == old(search)@.root,
        final(search)@.root_state() == old(search)@.root_state(),
        final(search)@.entry(final(search)@.root as int).visits == old(search)@.entry(
            old(search)@.root as int,
        ).visits + 1,
{
    let ghost start = search@;
    let ghost keys = key_of(score);
    let (mut path, over, choice) = select(search, &score);
    proof {
        start.trail_descends(keys, start.root);
    }
    let last = path[path.len() - 1];
    let ghost end: G::V;
    let scores = match over {
        Some(scores) => {
            proof {
                end = start.playout_start(keys);
                start.grown_sound(keys);
            }
            scores
        },
        None => {
            proof {
                start.choice_in_range(keys, last as int);
            }
            let child = expand(search, last, choice);
            proof {
                start.grown_sound(keys);
            }
            let finished = rollout(search.state(child).duplicate());
            proof {
                end = finished@;
            }
            path.push(child);
            match finished.get_player_final_scores() {
                Some(scores) => scores,
                None => vstd::pervasive::unreached(),
            }
        },
    };
    proof {
        assert(start.may_end(keys, end));
        start.step_keeps_invariant(keys, end);
        start.route_is_scored(keys, end);
    }
    backpropagate(search, &path, &scores, Ghost(G::outcome(end)->0));
    rank(search)
}

} // verus!
