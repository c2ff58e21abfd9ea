//! Selection: the walk from the position at which the game stands down the
//! moves of highest priority, until it meets a position where the game is over
//! or a move that has never been tried.

use crate::game::{tallies, Game};
use crate::search::SearchInfo;
use crate::table::Table;
use vstd::prelude::*;

verus! {

/// Whether `score` can rank the moves of a search: it is a function, and it
/// takes every triple of a reward total, a number of visits that is not zero
/// and a number of visits of the parent that is not zero.
pub open spec fn is_scorer<F: Fn(u128, u64, u64) -> u64>(score: F) -> bool {
    &&& forall|reward: u128, visits: u64, parent: u64|
        visits >= 1 && parent >= 1 ==> call_requires(score, (reward, visits, parent))
    &&& forall|reward: u128, visits: u64, parent: u64, one: u64, other: u64|
        call_ensures(score, (reward, visits, parent), one) && call_ensures(
            score,
            (reward, visits, parent),
            other,
        ) ==> one == other
}

/// The keys that `score` gives, as a function of the units of reward paid in
/// the child of a move to the player to move, the visits of the child, and the
/// visits of the parent.
pub closed spec fn key_of<F: Fn(u128, u64, u64) -> u64>(score: F) -> spec_fn(u128, u64, u64) -> u64 {
    |reward: u128, visits: u64, parent: u64|
        choose|key: u64| call_ensures(score, (reward, visits, parent), key)
}

/// The key that `score` gives a move with `reward` units of reward in `visits`
/// visits, under a parent with `parent` visits.
pub fn key<F: Fn(u128, u64, u64) -> u64>(score: &F, reward: u128, visits: u64, parent: u64) -> (key:
    u64)
    requires
        is_scorer(*score),
        visits >= 1,
        parent >= 1,
    ensures
        key == key_of(*score)(reward, visits, parent),
        call_ensures(*score, (reward, visits, parent), key),
{
    score(reward, visits, parent)
}

/// Whether the priority `a` is at least the priority `b`.  A priority is the
/// key of a move that has been tried, and `None` for a move that has not, which
/// goes before every key.
pub open spec fn at_least(a: Option<u64>, b: Option<u64>) -> bool {
    a is None || (b is Some && a->0 >= b->0)
}

/// Whether the priority `a` is at least the priority `b`.
pub fn outranks(a: Option<u64>, b: Option<u64>) -> (r: bool)
    ensures
        r == at_least(a, b),
{
    match a {
        None => true,
        Some(x) => match b {
            None => false,
            Some(y) => x >= y,
        },
    }
}

impl<G: Game> Table<G> {
    /// The priority of move number `j` of slot `i`: none if the move has not
    /// been tried, else the key of the move, by the reward paid in its child to
    /// the player to move in slot `i`, the visits of the child and the visits
    /// of slot `i`.
    pub open spec fn priority(self, keys: spec_fn(u128, u64, u64) -> u64, i: int, j: int) -> Option<u64> {
        let e = self.entry(i);
        match e.children[j] {
            None => None,
            Some(c) => Some(
                keys(
                    self.entry(c as int).reward(G::mover(e.state)) as u128,
                    self.entry(c as int).visits as u64,
                    e.visits as u64,
                ),
            ),
        }
    }

    /// Among the first `n` moves of slot `i`, the number of the last one whose
    /// priority is at least that of all the others.
    pub open spec fn best_of(self, keys: spec_fn(u128, u64, u64) -> u64, i: int, n: int) -> int
        decreases n,
    {
        if n <= 1 {
            0
        } else {
            let best = self.best_of(keys, i, n - 1);
            if at_least(self.priority(keys, i, n - 1), self.priority(keys, i, best)) {
                n - 1
            } else {
                best
            }
        }
    }

    /// The number of the move that selection by `keys` takes in slot `i`.
    pub open spec fn choice(self, keys: spec_fn(u128, u64, u64) -> u64, i: int) -> int {
        self.best_of(keys, i, self.entry(i).children.len() as int)
    }

    /// The slots that selection passes through from slot `i` on: it goes on to
    /// the child of the chosen move while the game is not over and the move has
    /// been tried.
    pub open spec fn trail(self, keys: spec_fn(u128, u64, u64) -> u64, i: usize) -> Seq<usize>
        decreases self.depth(i),
    {
        let e = self.entry(i as int);
        let j = self.choice(keys, i as int);
        if G::outcome(e.state) is None && 0 <= j < e.children.len() {
            match e.children[j] {
                Some(c) => if self.depth(c) < self.depth(i) {
                    seq![i] + self.trail(keys, c)
                } else {
                    seq![i]
                },
                None => seq![i],
            }
        } else {
            seq![i]
        }
    }

    /// The chosen move is one of the moves.
    pub proof fn best_in_range(self, keys: spec_fn(u128, u64, u64) -> u64, i: int, n: int)
        requires
            n >= 1,
        ensures
            0 <= self.best_of(keys, i, n) < n,
        decreases n,
    {
        if n > 1 {
            self.best_in_range(keys, i, n - 1);
        }
    }

    /// No move has a higher priority than the chosen one, and none after it has
    /// one as high.
    pub proof fn best_is_best(self, keys: spec_fn(u128, u64, u64) -> u64, i: int, n: int, j: int)
        requires
            0 <= j < n,
        ensures
            at_least(self.priority(keys, i, self.best_of(keys, i, n)), self.priority(keys, i, j)),
            j > self.best_of(keys, i, n) ==> !at_least(self.priority(keys, i, j), self.priority(keys, i, self.best_of(keys, i, n))),
        decreases n,
    {
        if n > 1 {
            if j < n - 1 {
                self.best_is_best(keys, i, n - 1, j);
            }
            self.best_in_range(keys, i, n - 1);
        }
    }

    /// Where a move of a slot has not been tried, the move that selection takes
    /// there has not been tried either: a move never tried goes first.
    pub proof fn untried_first(self, keys: spec_fn(u128, u64, u64) -> u64, i: int, j: int)
        requires
            0 <= j < self.entry(i).children.len(),
            self.entry(i).children[j] is None,
        ensures
            self.entry(i).children[self.choice(keys, i)] is None,
            self.priority(keys, i, self.choice(keys, i)) is None,
    {
        let n = self.entry(i).children.len() as int;
        self.best_in_range(keys, i, n);
        self.best_is_best(keys, i, n, j);
    }

    /// A move that has been tried has a key for its priority.
    pub proof fn tried_is_scored(self, keys: spec_fn(u128, u64, u64) -> u64, i: int, j: int)
        requires
            0 <= j < self.entry(i).children.len(),
            self.entry(i).children[j] is Some,
        ensures
            self.priority(keys, i, j) is Some,
    {
    }

    /// The bound on the moves left to play from the position in slot `i`.
    pub open spec fn depth(self, i: usize) -> nat {
        G::horizon(self.entry(i as int).state)
    }

    /// Whether all slots of `path` hold entries and each has fewer moves left to
    /// play than those before it.
    pub open spec fn descends(self, path: Seq<usize>) -> bool {
        &&& forall|a: int| 0 <= a < path.len() ==> self.live(#[trigger] path[a] as int)
        &&& forall|a: int, b: int|
            0 <= a < b < path.len() ==> self.depth(#[trigger] path[b]) < self.depth(
                #[trigger] path[a],
            )
    }

    /// A path that descends in this table descends in a table that holds the
    /// same positions in the slots of the path.
    pub proof fn descends_too(self, other: Table<G>, path: Seq<usize>)
        requires
            self.descends(path),
            forall|i: int| #[trigger]
                self.live(i) ==> other.live(i) && other.entry(i).state == self.entry(i).state,
        ensures
            other.descends(path),
    {
        assert forall|a: int, b: int| 0 <= a < b < path.len() implies other.depth(
            #[trigger] path[b],
        ) < other.depth(#[trigger] path[a]) by {
            assert(self.depth(path[b]) < self.depth(path[a]));
            assert(self.live(path[a] as int) && self.live(path[b] as int));
        }
    }

    /// Whether selection stops in slot `i`: the game is over there, or the
    /// chosen move has not been tried.
    pub open spec fn stops_at(self, keys: spec_fn(u128, u64, u64) -> u64, i: int) -> bool {
        G::outcome(self.entry(i).state) is Some || self.entry(i).children[self.choice(keys, i)] is None
    }

    /// In a table that meets the invariant the game goes on in a slot only if
    /// it has a move, and the chosen move is one of them.
    pub proof fn choice_in_range(self, keys: spec_fn(u128, u64, u64) -> u64, i: int)
        requires
            self.sound(),
            self.live(i),
            G::outcome(self.entry(i).state) is None,
        ensures
            0 <= self.choice(keys, i) < self.entry(i).children.len(),
    {
        G::rules(self.entry(i).state);
        assert(self.entry_sound(i));
        self.best_in_range(keys, i, self.entry(i).children.len() as int);
    }

    /// Selection from a slot starts there, passes only through entries with
    /// ever fewer moves left to play, each the child of the move chosen in the
    /// one before, and ends where it stops.
    pub proof fn trail_descends(self, keys: spec_fn(u128, u64, u64) -> u64, i: usize)
        requires
            self.sound(),
            self.live(i as int),
        ensures
            self.trail(keys, i).len() >= 1,
            self.trail(keys, i)[0] == i,
            self.descends(self.trail(keys, i)),
            self.stops_at(keys, self.trail(keys, i).last() as int),
            forall|a: int|
                0 <= a < self.trail(keys, i).len() - 1 ==> self.linked(
                    #[trigger] self.trail(keys, i)[a] as int,
                    self.choice(keys, self.trail(keys, i)[a] as int),
                    self.trail(keys, i)[a + 1] as int,
                ),
        decreases self.depth(i),
    {
        let e = self.entry(i as int);
        let j = self.choice(keys, i as int);
        if G::outcome(e.state) is None {
            self.choice_in_range(keys, i as int);
            assert(self.entry_sound(i as int));
            match e.children[j] {
                Some(c) => {
                    assert(self.linked(i as int, j, c as int));
                    self.trail_descends(keys, c);
                    let rest = self.trail(keys, c);
                    let path = self.trail(keys, i);
                    assert(path == seq![i] + rest);
                    assert forall|a: int| 0 <= a < path.len() implies self.live(
                        #[trigger] path[a] as int,
                    ) by {
                        if a > 0 {
                            assert(path[a] == rest[a - 1]);
                        }
                    }
                    assert forall|a: int, b: int| 0 <= a < b < path.len() implies self.depth(
                        #[trigger] path[b],
                    ) < self.depth(#[trigger] path[a]) by {
                        assert(path[b] == rest[b - 1]);
                        if a > 0 {
                            assert(path[a] == rest[a - 1]);
                        } else if b > 1 {
                            assert(self.depth(rest[b - 1]) < self.depth(rest[0]));
                        }
                    }
                    assert(path.last() == rest.last());
                    assert forall|a: int| 0 <= a < path.len() - 1 implies self.linked(
                        #[trigger] path[a] as int,
                        self.choice(keys, path[a] as int),
                        path[a + 1] as int,
                    ) by {
                        if a > 0 {
                            assert(path[a] == rest[a - 1]);
                            assert(path[a + 1] == rest[a]);
                        } else {
                            assert(path[1] == rest[0]);
                        }
                    }
                },
                None => {},
            }
        }
    }
}

/// The priority of move number `j` of slot `i`.
fn priority<G: Game, F: Fn(u128, u64, u64) -> u64>(
    search: &SearchInfo<G>,
    score: &F,
    i: usize,
    j: usize,
) -> (p: Option<u64>)
    requires
        search.wf(),
        is_scorer(*score),
        search@.live(i as int),
        j < search@.entry(i as int).children.len(),
    ensures
        p == search@.priority(key_of(*score), i as int, j as int),
{
    match search.child(i, j) {
        None => None,
        Some(c) => {
            proof {
                assert(search@.linked(i as int, j as int, c as int));
                assert(search@.entry_sound(i as int));
            }
            let player = search.state(i).get_current_player();
            Some(key(score, search.total(c, &player), search.visits(c), search.visits(i)))
        },
    }
}

/// The number of the move that selection takes in slot `i`.
pub(crate) fn pick_move<G: Game, F: Fn(u128, u64, u64) -> u64>(
    search: &SearchInfo<G>,
    score: &F,
    i: usize,
) -> (j: usize)
    requires
        search.wf(),
        is_scorer(*score),
        search@.live(i as int),
        search@.entry(i as int).children.len() >= 1,
    ensures
        j == search@.choice(key_of(*score), i as int),
        j < search@.entry(i as int).children.len(),
{
    let ghost keys = key_of(*score);
    let count = search.arity(i);
    let mut best: usize = 0;
    let mut top = priority(search, score, i, 0);
    let mut j: usize = 1;
    while j < count
        invariant
            search.wf(),
            is_scorer(*score),
            keys == key_of(*score),
            search@.live(i as int),
            count == search@.entry(i as int).children.len(),
            1 <= j <= count,
            best < j,
            best == search@.best_of(keys, i as int, j as int),
            top == search@.priority(keys, i as int, best as int),
        decreases count - j,
    {
        let p = priority(search, score, i, j);
        if outranks(p, top) {
            best = j;
            top = p;
        }
        j = j + 1;
    }
    best
}

/// Selection from the position at which the game stands: the slots passed
/// through, then the final scores if the game is over in the last of them, else
/// the number of the move to try there.
pub(crate) fn select<G: Game, F: Fn(u128, u64, u64) -> u64>(search: &SearchInfo<G>, score: &F) -> (found:
    (Vec<usize>, Option<Vec<(G::Player, u32)>>, usize))
    requires
        search.wf(),
        is_scorer(*score),
    ensures
        found.0@ == search@.trail(key_of(*score), search@.root),
        found.1 is Some <==> G::outcome(search@.entry(found.0@.last() as int).state) is Some,
        found.1 is Some ==> tallies(
            found.1->0@,
            G::outcome(search@.entry(found.0@.last() as int).state)->0,
        ),
        found.1 is None ==> found.2 == search@.choice(key_of(*score), found.0@.last() as int),
{
    let ghost keys = key_of(*score);
    let mut path: Vec<usize> = Vec::new();
    let mut at: usize = search.root();
    path.push(at);
    loop
        invariant
            search.wf(),
            is_scorer(*score),
            keys == key_of(*score),
            search@.live(at as int),
            path.len() >= 1,
            path@.last() == at,
            search@.trail(keys, search@.root) == path@.drop_last() + search@.trail(keys, at),
        decreases G::horizon(search@.entry(at as int).state),
    {
        proof {
            assert(search@.entry_sound(at as int));
        }
        let state = search.state(at);
        let scores = state.get_player_final_scores();
        if scores.is_some() {
            proof {
                assert(search@.trail(keys, at) == seq![at]);
                assert(path@.drop_last() + seq![at] =~= path@);
            }
            return (path, scores, 0);
        }
        proof {
            search@.choice_in_range(keys, at as int);
        }
        let j = pick_move(search, score, at);
        match search.child(at, j) {
            Some(c) => {
                proof {
                    assert(search@.linked(at as int, j as int, c as int));
                    assert(search@.trail(keys, at) == seq![at] + search@.trail(keys, c));
                    assert(path@.push(c).drop_last() =~= path@);
                    assert(path@ =~= path@.drop_last() + seq![at]);
                    assert(path@.drop_last() + (seq![at] + search@.trail(keys, c)) =~= path@
                        + search@.trail(keys, c));
                }
                path.push(c);
                at = c;
            },
            None => {
                proof {
                    assert(search@.trail(keys, at) == seq![at]);
                    assert(path@.drop_last() + seq![at] =~= path@);
                }
                return (path, None, j);
            },
        }
    }
}

} // verus!
