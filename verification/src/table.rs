//! The mathematical model of a search: a table of entries, one for each
//! position met so far, linked into a graph by the moves tried from each.

use crate::game::Game;
use vstd::prelude::*;

verus! {

/// What the search knows of one position.
pub struct Entry<G: Game> {
    /// The position.
    pub state: G::V,
    /// How many playouts have passed through the position.
    pub visits: nat,
    /// For each player, the units of reward that the playouts through this
    /// position have paid to that player for moving into it.
    pub rewards: Map<G::Player, nat>,
    /// For each legal move, in listing order, the slot of the position it leads
    /// to, once the move has been tried.
    pub children: Seq<Option<usize>>,
}

/// The table of a search: slots that hold an entry or are empty, the slot of the
/// position that the game stands at, and the number of playouts run.
pub struct Table<G: Game> {
    pub entries: Seq<Option<Entry<G>>>,
    pub root: usize,
    pub steps: nat,
}

impl<G: Game> Entry<G> {
    /// The entry of a position that no playout has visited.
    pub open spec fn fresh(state: G::V) -> Entry<G> {
        Entry {
            state,
            visits: 0,
            rewards: Map::empty(),
            children: Seq::new(G::legal(state).len(), |j: int| None),
        }
    }

    /// The units of reward paid to `player`; zero if none were.
    pub open spec fn reward(self, player: G::Player) -> nat {
        if self.rewards.dom().contains(player) {
            self.rewards[player]
        } else {
            0
        }
    }
}

impl<G: Game> Table<G> {
    /// The table of a search that starts at `state`.
    pub open spec fn fresh(state: G::V) -> Table<G> {
        Table { entries: seq![Some(Entry::fresh(state))], root: 0, steps: 0 }
    }

    /// Whether slot `i` holds an entry.
    pub open spec fn live(self, i: int) -> bool {
        0 <= i < self.entries.len() && self.entries[i] is Some
    }

    /// The entry in slot `i`.
    pub open spec fn entry(self, i: int) -> Entry<G> {
        self.entries[i]->0
    }

    /// The position that the game stands at.
    pub open spec fn root_state(self) -> G::V {
        self.entry(self.root as int).state
    }

    /// The number of entries in the first `n` slots.
    pub open spec fn entries_in(self, n: int) -> nat
        decreases n,
    {
        if n <= 0 {
            0
        } else if self.live(n - 1) {
            self.entries_in(n - 1) + 1
        } else {
            self.entries_in(n - 1)
        }
    }

    /// The number of entries: of positions that the table holds.
    pub open spec fn population(self) -> nat {
        self.entries_in(self.entries.len() as int)
    }

    /// Whether move number `j` of slot `i` has been tried and leads to slot `c`.
    pub open spec fn linked(self, i: int, j: int, c: int) -> bool {
        &&& self.live(i)
        &&& 0 <= j < self.entry(i).children.len()
        &&& self.entry(i).children[j] == Some(c as usize)
        &&& 0 <= c <= usize::MAX
    }

    /// Whether some slot holds the position `state`.
    pub open spec fn holds(self, state: G::V) -> bool {
        exists|i: int| self.live(i) && (#[trigger] self.entry(i)).state == state
    }

    /// What must hold of the entry in slot `i`: it stands for a position of the
    /// game, has one child slot for each legal move, stays within the counters'
    /// range, and each move tried leads to the entry of the position that the
    /// rules say, which has fewer moves left to play.
    pub open spec fn entry_sound(self, i: int) -> bool {
        let e = self.entry(i);
        &&& G::valid(e.state)
        &&& e.children.len() == G::legal(e.state).len()
        &&& e.visits <= self.steps
        &&& forall|p: G::Player| #[trigger] e.reward(p) <= self.steps * u32::MAX
        &&& forall|j: int, c: int| #[trigger] self.linked(i, j, c) ==> self.link_sound(i, j, c)
    }

    /// Whether move number `j` of slot `i` leads where the rules say: slot `c`
    /// holds the position that the move leads to, which has fewer moves left to
    /// play.
    pub open spec fn link_sound(self, i: int, j: int, c: int) -> bool {
        let e = self.entry(i);
        &&& self.live(c)
        &&& self.entry(c).state == G::successor(e.state, G::legal(e.state)[j])
        &&& G::horizon(self.entry(c).state) < G::horizon(e.state)
    }

    /// An entry that is sound in this table is sound in a table `next` that
    /// keeps its position and the number of its moves, keeps its counts within
    /// range, and keeps the positions that its moves lead to.  A move may be
    /// tried in `next` only, if it leads where the rules say.
    pub proof fn entry_stays_sound(self, next: Table<G>, i: int)
        requires
            self.live(i),
            self.entry_sound(i),
            next.live(i),
            next.entry(i).state == self.entry(i).state,
            next.entry(i).children.len() == self.entry(i).children.len(),
            next.entry(i).visits <= next.steps,
            forall|p: G::Player| #[trigger] next.entry(i).reward(p) <= next.steps * u32::MAX,
            forall|j: int, c: int| #[trigger]
                next.linked(i, j, c) ==> next.link_sound(i, j, c) || (self.linked(i, j, c)
                    && next.live(c) && next.entry(c).state == self.entry(c).state),
        ensures
            next.entry_sound(i),
    {
        assert forall|j: int, c: int| #[trigger] next.linked(i, j, c) implies next.link_sound(
            i,
            j,
            c,
        ) by {
            if !next.link_sound(i, j, c) {
                assert(self.link_sound(i, j, c));
            }
        }
    }

    /// A sound table stays sound when it becomes `next`, if every entry of
    /// `next` was there and keeps its position and the number of its moves, all
    /// counts stay within range, and a move tried in `next` was tried before
    /// and leads to an entry that is kept, or leads where the rules say.
    pub proof fn stays_sound(self, next: Table<G>)
        requires
            self.sound(),
            next.live(next.root as int),
            next.steps <= u64::MAX,
            forall|i: int| #[trigger]
                next.live(i) ==> {
                    &&& self.live(i)
                    &&& next.entry(i).state == self.entry(i).state
                    &&& next.entry(i).children.len() == self.entry(i).children.len()
                    &&& next.entry(i).visits <= next.steps
                },
            forall|i: int, p: G::Player|
                next.live(i) ==> #[trigger] next.entry(i).reward(p) <= next.steps * u32::MAX,
            forall|i: int, j: int, c: int| #[trigger]
                next.linked(i, j, c) ==> next.link_sound(i, j, c) || (self.linked(i, j, c)
                    && next.live(c)),
        ensures
            next.sound(),
    {
        assert forall|i: int| #[trigger] next.live(i) implies next.entry_sound(i) by {
            assert(self.entry_sound(i));
            assert forall|j: int, c: int| #[trigger] next.linked(i, j, c) implies next.link_sound(
                i,
                j,
                c,
            ) || (self.linked(i, j, c) && next.live(c) && next.entry(c).state == self.entry(
                c,
            ).state) by {}
            self.entry_stays_sound(next, i);
        }
        assert forall|i: int, k: int| next.live(i) && next.live(k) && i != k implies (
        #[trigger] next.entry(i)).state != (#[trigger] next.entry(k)).state by {
            assert(self.live(i) && self.live(k));
        }
    }

    /// The table without regard to its visit counts: the root is there, every
    /// entry is sound, and no position has two entries.
    pub open spec fn sound(self) -> bool {
        &&& self.live(self.root as int)
        &&& self.steps <= u64::MAX
        &&& forall|i: int| #[trigger] self.live(i) ==> self.entry_sound(i)
        &&& forall|i: int, k: int|
            self.live(i) && self.live(k) && i != k ==> (#[trigger] self.entry(i)).state != (
            #[trigger] self.entry(k)).state
    }

    /// A move that was tried has been played through: both ends have a visit.
    pub open spec fn counted(self) -> bool {
        forall|i: int, j: int, c: int| #[trigger]
            self.linked(i, j, c) ==> self.entry(i).visits >= 1 && self.entry(c).visits >= 1
    }

    /// The invariant of a search between two of its operations.
    pub open spec fn wf(self) -> bool {
        self.sound() && self.counted()
    }

    /// Whether `k` is the first empty slot, or the end of the table if no slot
    /// is empty.
    pub open spec fn vacant_at(self, k: int) -> bool {
        &&& 0 <= k <= self.entries.len()
        &&& k < self.entries.len() ==> self.entries[k] is None
        &&& forall|i: int| 0 <= i < k ==> #[trigger] self.live(i)
    }

    /// The slot that the next new entry goes to.
    pub open spec fn vacancy(self) -> int {
        choose|k: int| self.vacant_at(k)
    }

    /// The slot that holds the position `state`.
    pub open spec fn slot_of(self, state: G::V) -> int {
        choose|i: int| self.live(i) && (#[trigger] self.entry(i)).state == state
    }

    /// The slot of `state` once the table holds it: the one it has, or the next
    /// to be filled.
    pub open spec fn home(self, state: G::V) -> int {
        if self.holds(state) {
            self.slot_of(state)
        } else {
            self.vacancy()
        }
    }

    /// The table with `entry` in slot `k`, which is an empty slot or the end of
    /// the table.
    pub open spec fn put(self, k: int, entry: Entry<G>) -> Table<G> {
        Table {
            entries: if k < self.entries.len() {
                self.entries.update(k, Some(entry))
            } else {
                self.entries.push(Some(entry))
            },
            ..self
        }
    }

    /// The table once it holds `state`: unchanged if it did, and with a fresh
    /// entry for it if it did not.
    pub open spec fn interned(self, state: G::V) -> Table<G> {
        if self.holds(state) {
            self
        } else {
            self.put(self.vacancy(), Entry::fresh(state))
        }
    }

    /// The table with `entry` in place of the entry in slot `i`.
    pub open spec fn set(self, i: int, entry: Entry<G>) -> Table<G> {
        Table { entries: self.entries.update(i, Some(entry)), ..self }
    }

    /// The table after move number `j` of slot `i` has been tried and found to
    /// lead to slot `c`.
    pub open spec fn with_child(self, i: int, j: int, c: usize) -> Table<G> {
        let e = self.entry(i);
        self.set(i, Entry { children: e.children.update(j, Some(c)), ..e })
    }

    /// The table after one more playout has passed through slot `i`.
    pub open spec fn visited(self, i: int) -> Table<G> {
        let e = self.entry(i);
        self.set(i, Entry { visits: e.visits + 1, ..e })
    }

    /// The table after `amount` units of reward have been paid to `player` in
    /// slot `i`.
    pub open spec fn paid(self, i: int, player: G::Player, amount: nat) -> Table<G> {
        let e = self.entry(i);
        self.set(i, Entry { rewards: e.rewards.insert(player, e.reward(player) + amount), ..e })
    }

    /// The table after one more playout has been counted.
    pub open spec fn ticked(self) -> Table<G> {
        Table { steps: self.steps + 1, ..self }
    }

    /// The table with the slots emptied that are not marked.
    pub open spec fn kept(self, marks: Seq<bool>) -> Table<G> {
        Table {
            entries: Seq::new(
                self.entries.len(),
                |i: int|
                    if marks[i] {
                        self.entries[i]
                    } else {
                        None
                    },
            ),
            ..self
        }
    }

    /// The table with the game standing at slot `i`.
    pub open spec fn rooted(self, i: usize) -> Table<G> {
        Table { root: i, ..self }
    }

    /// The table of a new search meets the invariant.
    pub proof fn fresh_wf(state: G::V)
        requires
            G::valid(state),
        ensures
            Self::fresh(state).wf(),
    {
        let t = Self::fresh(state);
        assert(t.live(0));
        assert forall|p: G::Player| #[trigger] t.entry(0).reward(p) == 0 by {}
        assert forall|i: int, j: int, c: int| !#[trigger] t.linked(i, j, c) by {
            if t.linked(i, j, c) {
                assert(t.entry(0).children[j] is None);
            }
        }
    }

    /// The first empty slot of a table is the slot that the next new entry
    /// goes to.
    pub proof fn vacancy_is(self, k: int)
        requires
            self.vacant_at(k),
        ensures
            self.vacancy() == k,
    {
        let v = self.vacancy();
        if v < k {
            assert(self.live(v));
        } else if k < v {
            assert(self.live(k));
        }
    }

    /// In a sound table a position has one slot.
    pub proof fn slot_is(self, state: G::V, i: int)
        requires
            self.sound(),
            self.live(i),
            self.entry(i).state == state,
        ensures
            self.holds(state),
            self.slot_of(state) == i,
    {
    }

    /// Taking a position into a sound table keeps the table sound, keeps every
    /// entry that was there, and leaves the position in its home slot.
    pub proof fn interned_sound(self, state: G::V)
        requires
            self.sound(),
            G::valid(state),
        ensures
            self.interned(state).sound(),
            self.counted() ==> self.interned(state).counted(),
            self.interned(state).live(self.home(state)),
            self.interned(state).entry(self.home(state)).state == state,
            !self.holds(state) ==> self.interned(state).entry(self.home(state)) == Entry::<G>::fresh(
                state,
            ),
            self.interned(state).entries.len() >= self.entries.len(),
            forall|i: int| #[trigger]
                self.live(i) ==> self.interned(state).live(i) && self.interned(state).entry(i)
                    == self.entry(i),
            forall|i: int| #[trigger]
                self.interned(state).live(i) ==> self.live(i) || i == self.home(state),
    {
        let next = self.interned(state);
        if self.holds(state) {
            let i = self.slot_of(state);
            assert(self.live(i));
        } else {
            let k = self.vacancy();
            assert(self.vacant_at(0) || exists|k: int| self.vacant_at(k)) by {
                self.vacancy_exists(self.entries.len() as int);
            }
            assert(self.vacant_at(k));
            assert(!self.live(k));
            assert(next.live(k));
            assert forall|i: int| #[trigger] self.live(i) implies next.live(i) && next.entry(i)
                == self.entry(i) by {}
            assert forall|i: int| #[trigger] next.live(i) implies self.live(i) || i == k by {}
            assert forall|i: int, j: int, c: int| #[trigger] next.linked(i, j, c) implies self.linked(
                i,
                j,
                c,
            ) by {
                if i == k {
                    assert(next.entry(k).children[j] is None);
                }
            }
            assert forall|i: int| #[trigger] next.live(i) implies next.entry_sound(i) by {
                if i == k {
                    assert forall|p: G::Player| #[trigger] next.entry(k).reward(p) == 0 by {}
                } else {
                    assert(self.entry_sound(i));
                    assert forall|j: int, c: int| #[trigger] next.linked(i, j, c) implies self.linked(
                        i,
                        j,
                        c,
                    ) && next.live(c) && next.entry(c).state == self.entry(c).state by {
                        assert(self.linked(i, j, c));
                        assert(self.live(c));
                    }
                    assert forall|p: G::Player| #[trigger]
                        next.entry(i).reward(p) <= next.steps * u32::MAX by {
                        assert(self.entry(i).reward(p) <= self.steps * u32::MAX);
                    }
                    self.entry_stays_sound(next, i);
                }
            }
            assert forall|i: int, m: int| next.live(i) && next.live(m) && i != m implies (
            #[trigger] next.entry(i)).state != (#[trigger] next.entry(m)).state by {
                if i == k {
                    assert(self.live(m));
                    assert(self.entry(m).state != state);
                } else if m == k {
                    assert(self.live(i));
                    assert(self.entry(i).state != state);
                }
            }
            if self.counted() {
                assert forall|i: int, j: int, c: int| #[trigger] next.linked(i, j, c) implies next.entry(
                    i,
                ).visits >= 1 && next.entry(c).visits >= 1 by {
                    assert(self.linked(i, j, c));
                    assert(self.entry_sound(i));
                    assert(self.live(c));
                }
            }
        }
    }

    /// A table has a first empty slot, given a slot `bound` that is empty or
    /// the end of the table.
    pub proof fn vacancy_exists(self, bound: int)
        requires
            0 <= bound <= self.entries.len(),
            bound < self.entries.len() ==> self.entries[bound] is None,
        ensures
            exists|k: int| self.vacant_at(k),
        decreases bound,
    {
        if forall|i: int| 0 <= i < bound ==> #[trigger] self.live(i) {
            assert(self.vacant_at(bound));
        } else {
            let i = choose|i: int| 0 <= i < bound && !#[trigger] self.live(i);
            self.vacancy_exists(i);
        }
    }
}

} // verus!
