//! Expansion: the first try of a move, which links the position it was made in
//! to the entry of the position it leads to.

use crate::game::Game;
use crate::search::SearchInfo;
use crate::table::Table;
use vstd::prelude::*;

verus! {

impl<G: Game> Table<G> {
    /// The position that move number `j` of slot `i` leads to.
    pub open spec fn target(self, i: int, j: int) -> G::V {
        G::successor(self.entry(i).state, G::legal(self.entry(i).state)[j])
    }

    /// The table after move number `j` of slot `i` has been tried: it holds the
    /// position that the move leads to, and the move is linked to its slot.
    pub open spec fn expanded(self, i: int, j: int) -> Table<G> {
        let state = self.target(i, j);
        self.interned(state).with_child(i, j, self.home(state) as usize)
    }

    /// Trying a move keeps a sound table sound.  Every entry that was there
    /// stays, with its position and its counts; the one link that is new leads
    /// from the slot of the move to the home of the position it leads to, which
    /// has fewer moves left to play.
    pub proof fn expanded_sound(self, i: int, j: int)
        requires
            self.sound(),
            self.live(i),
            0 <= j < self.entry(i).children.len(),
            0 <= self.home(self.target(i, j)) <= usize::MAX,
        ensures
            self.expanded(i, j).sound(),
            self.expanded(i, j).linked(i, j, self.home(self.target(i, j))),
            self.expanded(i, j).live(self.home(self.target(i, j))),
            self.expanded(i, j).entry(self.home(self.target(i, j))).state == self.target(i, j),
            G::horizon(self.target(i, j)) < G::horizon(self.entry(i).state),
            self.expanded(i, j).root == self.root,
            self.expanded(i, j).steps == self.steps,
            forall|x: int| #[trigger]
                self.live(x) ==> {
                    &&& self.expanded(i, j).live(x)
                    &&& self.expanded(i, j).entry(x).state == self.entry(x).state
                    &&& self.expanded(i, j).entry(x).visits == self.entry(x).visits
                    &&& self.expanded(i, j).entry(x).rewards == self.entry(x).rewards
                },
            forall|x: int| #[trigger]
                self.expanded(i, j).live(x) && !self.live(x) ==> {
                    &&& x == self.home(self.target(i, j))
                    &&& self.expanded(i, j).entry(x).visits == 0
                },
            forall|a: int, b: int, d: int| #[trigger]
                self.expanded(i, j).linked(a, b, d) ==> self.linked(a, b, d) || (a == i && b == j
                    && d == self.home(self.target(i, j))),
    {
        let state = self.target(i, j);
        let c = self.home(state);
        let held = self.interned(state);
        let next = self.expanded(i, j);
        assert(self.entry_sound(i));
        G::rules(self.entry(i).state);
        assert(G::legal(self.entry(i).state).contains(G::legal(self.entry(i).state)[j]));
        self.interned_sound(state);
        assert(held.live(i));
        assert(held.entry(i) == self.entry(i));
        assert(c != i);
        assert forall|x: int| #[trigger] held.live(x) implies next.live(x) && (x != i
            ==> next.entry(x) == held.entry(x)) by {}
        assert forall|x: int| #[trigger] next.live(x) implies held.live(x) by {}
        assert forall|a: int, b: int, d: int| #[trigger] next.linked(a, b, d) implies held.linked(
            a,
            b,
            d,
        ) || (a == i && b == j && d == c) by {
            if a == i && b != j {
                assert(held.linked(a, b, d));
            } else if a != i {
                assert(held.live(a));
                assert(held.linked(a, b, d));
            }
        }
        assert forall|a: int, b: int, d: int| #[trigger] held.linked(a, b, d) implies self.linked(
            a,
            b,
            d,
        ) by {
            if !self.live(a) {
                assert(a == c);
                assert(held.entry(a) == crate::table::Entry::<G>::fresh(state));
            }
        }
        assert forall|x: int, p: G::Player| next.live(x) implies #[trigger] next.entry(x).reward(p)
            <= next.steps * u32::MAX by {
            assert(held.entry_sound(x));
            assert(held.entry(x).reward(p) <= held.steps * u32::MAX);
        }
        assert forall|x: int, b: int, d: int| #[trigger] next.linked(x, b, d) implies next.link_sound(
            x,
            b,
            d,
        ) || (held.linked(x, b, d) && next.live(d)) by {
            if held.linked(x, b, d) {
                assert(held.entry_sound(x));
            }
        }
        held.stays_sound(next);
        assert forall|x: int| #[trigger] next.live(x) && !self.live(x) implies x == c && next.entry(
            x,
        ).visits == 0 by {
            assert(held.live(x));
        }
    }
}

/// Tries move number `j` of slot `i` and gives the slot that it leads to.
pub(crate) fn expand<G: Game>(search: &mut SearchInfo<G>, i: usize, j: usize) -> (child: usize) where
    G::Action: Copy,

    requires
        old(search).tidy(),
        old(search)@.sound(),
        old(search)@.live(i as int),
        j < old(search)@.entry(i as int).children.len(),
    ensures
        final(search).tidy(),
        final(search)@ == old(search)@.expanded(i as int, j as int),
        child == old(search)@.home(old(search)@.target(i as int, j as int)),
{
    proof {
        assert(search@.entry_sound(i as int));
        G::rules(search@.entry(i as int).state);
    }
    let actions = search.state(i).list_actions();
    let action = actions[j];
    proof {
        assert(G::legal(search@.entry(i as int).state).contains(action));
    }
    let next = match search.state(i).duplicate().do_action(action) {
        Ok(next) => next,
        Err(_) => vstd::pervasive::unreached(),
    };
    let child = search.intern(next);
    proof {
        old(search)@.interned_sound(old(search)@.target(i as int, j as int));
    }
    search.link(i, j, child);
    child
}

} // verus!
