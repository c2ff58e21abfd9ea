//! Backpropagation: the result of a playout counted in every entry that the
//! playout passed through.

use crate::game::{tallies, Game};
use crate::search::SearchInfo;
use crate::table::{Entry, Table};
use crate::tally::score_of;
use vstd::prelude::*;

verus! {

/// Whether `path` passes through slot `i`.
pub open spec fn passes(path: Seq<usize>, i: int) -> bool {
    exists|k: int| 0 <= k < path.len() && #[trigger] path[k] as int == i
}

impl<G: Game> Table<G> {
    /// The player who moves in the slot before place `k` of `path`, and so
    /// moves into the slot at place `k`.
    pub open spec fn mover_into(self, path: Seq<usize>, k: int) -> G::Player {
        G::mover(self.entry(path[k - 1] as int).state)
    }

    /// The table after a playout along `path` that ended with `scores`: each
    /// slot of the path has one more visit, and each but the first has paid the
    /// player who moved into it that player's score.
    pub open spec fn credited(self, path: Seq<usize>, scores: Map<G::Player, nat>) -> Table<G>
        decreases path.len(),
    {
        if path.len() == 0 {
            self
        } else {
            let k = path.len() - 1;
            let seen = self.credited(path.drop_last(), scores).visited(path[k] as int);
            if k == 0 {
                seen
            } else {
                seen.paid(path[k] as int, self.mover_into(path, k), scores[self.mover_into(path, k)])
            }
        }
    }

    /// What the entry at place `k` of `path` becomes when a playout along the
    /// path is counted.
    pub open spec fn credited_entry(self, path: Seq<usize>, scores: Map<G::Player, nat>, k: int) -> Entry<
        G,
    > {
        let e = self.entry(path[k] as int);
        if k == 0 {
            Entry { visits: e.visits + 1, ..e }
        } else {
            let mover = self.mover_into(path, k);
            Entry {
                visits: e.visits + 1,
                rewards: e.rewards.insert(mover, e.reward(mover) + scores[mover]),
                ..e
            }
        }
    }

    /// Counting a playout along a path of distinct entries changes the entries
    /// of the path, each as `credited_entry` says, and nothing else.
    pub proof fn credited_entries(self, path: Seq<usize>, scores: Map<G::Player, nat>)
        requires
            self.descends(path),
        ensures
            self.credited(path, scores).entries.len() == self.entries.len(),
            self.credited(path, scores).root == self.root,
            self.credited(path, scores).steps == self.steps,
            forall|k: int|
                0 <= k < path.len() ==> self.credited(path, scores).entries[#[trigger] path[k] as int]
                    == Some(self.credited_entry(path, scores, k)),
            forall|i: int|
                0 <= i < self.entries.len() && !passes(path, i) ==> #[trigger] self.credited(
                    path,
                    scores,
                ).entries[i] == self.entries[i],
        decreases path.len(),
    {
        if path.len() > 0 {
            let k = path.len() - 1;
            let front = path.drop_last();
            let before = self.credited(front, scores);
            let after = self.credited(path, scores);
            assert forall|a: int| 0 <= a < front.len() implies self.live(#[trigger] front[a] as int) by {
                assert(front[a] == path[a]);
            }
            assert forall|a: int, b: int| 0 <= a < b < front.len() implies self.depth(
                #[trigger] front[b],
            ) < self.depth(#[trigger] front[a]) by {
                assert(front[a] == path[a]);
                assert(front[b] == path[b]);
            }
            self.credited_entries(front, scores);
            assert(!passes(front, path[k] as int)) by {
                if passes(front, path[k] as int) {
                    let a = choose|a: int| 0 <= a < front.len() && #[trigger] front[a] as int == path[k] as int;
                    assert(path[a] == front[a]);
                    assert(self.depth(path[k]) < self.depth(path[a]));
                }
            }
            assert(self.live(path[k] as int));
            assert(before.entries[path[k] as int] == self.entries[path[k] as int]);
            assert(after.entries[path[k] as int] == Some(self.credited_entry(path, scores, k)));
            assert forall|a: int| 0 <= a < path.len() implies after.entries[#[trigger] path[a] as int]
                == Some(self.credited_entry(path, scores, a)) by {
                if a < k {
                    assert(front[a] == path[a]);
                    assert(self.depth(path[k]) < self.depth(path[a]));
                    assert(self.credited_entry(front, scores, a) == self.credited_entry(
                        path,
                        scores,
                        a,
                    )) by {
                        if a > 0 {
                            assert(front[a - 1] == path[a - 1]);
                        }
                    }
                }
            }
            assert forall|i: int|
                0 <= i < self.entries.len() && !passes(path, i) implies #[trigger] after.entries[i]
                == self.entries[i] by {
                if passes(front, i) {
                    let a = choose|a: int| 0 <= a < front.len() && #[trigger] front[a] as int == i;
                    assert(path[a] as int == i);
                }
                assert(path[k] as int != i);
            }
        }
    }

    /// Whether `scores` has a score within the range of the counters for each
    /// of its players.
    pub open spec fn in_range(scores: Map<G::Player, nat>) -> bool {
        forall|p: G::Player| scores.dom().contains(p) ==> #[trigger] scores[p] <= u32::MAX
    }

    /// Counting one playout in a sound table leaves it sound, given that the
    /// playout ran along a path of distinct entries.
    pub proof fn credited_sound(self, path: Seq<usize>, scores: Map<G::Player, nat>)
        requires
            self.sound(),
            self.steps < u64::MAX,
            self.descends(path),
            Self::in_range(scores),
            forall|k: int| 0 < k < path.len() ==> scores.dom().contains(#[trigger] self.mover_into(path, k)),
        ensures
            self.ticked().credited(path, scores).sound(),
            forall|i: int| #[trigger]
                self.live(i) <==> self.ticked().credited(path, scores).live(i),
            forall|i: int| #[trigger]
                self.live(i) ==> {
                    let e = self.ticked().credited(path, scores).entry(i);
                    &&& e.state == self.entry(i).state
                    &&& e.children == self.entry(i).children
                    &&& e.visits >= self.entry(i).visits
                    &&& passes(path, i) ==> e.visits >= 1
                },
    {
        let base = self.ticked();
        let next = base.credited(path, scores);
        self.descends_too(base, path);
        base.credited_entries(path, scores);
        assert forall|i: int| #[trigger] self.live(i) implies {
            &&& next.live(i)
            &&& next.entry(i).state == self.entry(i).state
            &&& next.entry(i).children == self.entry(i).children
            &&& next.entry(i).visits >= self.entry(i).visits
            &&& next.entry(i).visits <= next.steps
            &&& passes(path, i) ==> next.entry(i).visits >= 1
            &&& forall|p: G::Player| #[trigger] next.entry(i).reward(p) <= next.steps * u32::MAX
        } by {
            assert(self.entry_sound(i));
            assert(self.steps * u32::MAX + u32::MAX == (self.steps + 1) * u32::MAX) by (nonlinear_arith);
            assert(next.steps == self.steps + 1);
            if passes(path, i) {
                let k = choose|k: int| 0 <= k < path.len() && #[trigger] path[k] as int == i;
                assert(next.entries[path[k] as int] == Some(base.credited_entry(path, scores, k)));
                let e = self.entry(i);
                assert(base.entry(i) == e);
                assert forall|p: G::Player| #[trigger]
                    next.entry(i).reward(p) <= next.steps * u32::MAX by {
                    assert(e.reward(p) <= self.steps * u32::MAX);
                    if k > 0 {
                        let mover = base.mover_into(path, k);
                        assert(mover == self.mover_into(path, k));
                        assert(scores.dom().contains(mover));
                        assert(scores[mover] <= u32::MAX);
                        assert(e.reward(mover) <= self.steps * u32::MAX);
                    }
                }
            } else {
                assert(next.entries[i] == base.entries[i]);
                assert forall|p: G::Player| #[trigger]
                    next.entry(i).reward(p) <= next.steps * u32::MAX by {
                    assert(self.entry(i).reward(p) <= self.steps * u32::MAX);
                }
            }
        }
        assert forall|i: int| #[trigger] next.live(i) implies self.live(i) by {
            if !self.live(i) {
                assert(!passes(path, i)) by {
                    if passes(path, i) {
                        let k = choose|k: int| 0 <= k < path.len() && #[trigger] path[k] as int == i;
                        assert(self.live(path[k] as int));
                    }
                }
                assert(next.entries[i] == base.entries[i]);
            }
        }
        assert forall|i: int, j: int, c: int| #[trigger] next.linked(i, j, c) implies self.linked(
            i,
            j,
            c,
        ) && next.live(c) by {
            assert(self.linked(i, j, c));
            assert(self.entry_sound(i));
        }
        self.stays_sound(next);
    }
}

/// Counts a playout along `path` that ended with `scores`.
pub(crate) fn backpropagate<G: Game>(
    search: &mut SearchInfo<G>,
    path: &Vec<usize>,
    scores: &Vec<(G::Player, u32)>,
    Ghost(table): Ghost<Map<G::Player, nat>>,
)
    requires
        old(search).tidy(),
        old(search)@.sound(),
        old(search)@.steps < u64::MAX,
        old(search)@.descends(path@),
        tallies(scores@, table),
        forall|k: int|
            0 < k < path.len() ==> table.dom().contains(#[trigger] old(search)@.mover_into(path@, k)),
    ensures
        final(search).tidy(),
        final(search)@ == old(search)@.ticked().credited(path@, table),
{
    let ghost start = search@;
    search.tick();
    let ghost base = search@;
    proof {
        start.descends_too(base, path@);
        assert(path@.take(0) =~= Seq::<usize>::empty());
        assert forall|i: int| #[trigger] start.live(i) implies start.entry_sound(i) by {}
    }
    let mut k: usize = 0;
    while k < path.len()
        invariant
            k <= path.len(),
            search.tidy(),
            start.sound(),
            start.steps < u64::MAX,
            base == start.ticked(),
            base.descends(path@),
            tallies(scores@, table),
            forall|k: int| 0 < k < path.len() ==> table.dom().contains(#[trigger] start.mover_into(path@, k)),
            search@ == base.credited(path@.take(k as int), table),
        decreases path.len() - k,
    {
        let ghost done = path@.take(k as int);
        let ghost more = path@.take(k + 1);
        let at = path[k];
        proof {
            assert(base.descends(done)) by {
                assert forall|a: int| 0 <= a < done.len() implies base.live(#[trigger] done[a] as int) by {
                    assert(done[a] == path[a]);
                }
                assert forall|a: int, b: int| 0 <= a < b < done.len() implies base.depth(
                    #[trigger] done[b],
                ) < base.depth(#[trigger] done[a]) by {
                    assert(done[a] == path[a]);
                    assert(done[b] == path[b]);
                }
            }
            base.credited_entries(done, table);
            assert(!passes(done, at as int)) by {
                if passes(done, at as int) {
                    let a = choose|a: int| 0 <= a < done.len() && #[trigger] done[a] as int == at as int;
                    assert(path[a] == done[a]);
                    assert(base.depth(path[k as int]) < base.depth(path[a]));
                }
            }
            assert(base.live(path[k as int] as int));
            assert(search@.entries[at as int] == base.entries[at as int]);
            assert(start.live(at as int));
            assert(start.entry_sound(at as int));
            assert(more.drop_last() =~= done);
            assert(more.last() == at);
        }
        search.visit(at);
        if k > 0 {
            let before = path[k - 1];
            proof {
                assert(start.live(path[k - 1] as int));
                assert(start.entry_sound(before as int));
                assert(done[k - 1] == before);
                assert(base.credited(done, table).entries[done[k - 1] as int] == Some(
                    base.credited_entry(done, table, k - 1),
                ));
                assert(more[k - 1] == before);
                assert(base.mover_into(more, k as int) == start.mover_into(path@, k as int));
            }
            let player = search.state(before).get_current_player();
            let amount = match score_of::<G>(scores, &player) {
                Some(amount) => amount,
                None => vstd::pervasive::unreached(),
            };
            proof {
                assert(start.entry(at as int).reward(player) <= start.steps * u32::MAX);
                assert(start.steps * u32::MAX <= 0xffff_ffff_ffff_ffff * 0xffff_ffff)
                    by (nonlinear_arith)
                    requires
                        start.steps <= 0xffff_ffff_ffff_ffff,
                ;
            }
            search.pay(at, player, amount);
        }
        k = k + 1;
    }
    proof {
        assert(path@.take(path.len() as int) =~= path@);
    }
}

} // verus!
