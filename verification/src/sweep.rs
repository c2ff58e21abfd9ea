//! Committing a move of the real game, and sweeping the entries that can no
//! longer be reached from the position where the game then stands.

use crate::backprop::passes;
use crate::game::{Game, InvalidAction};
use crate::search::SearchInfo;
use crate::table::Table;
use vstd::prelude::*;

verus! {

/// How many of the marks are not set.
pub open spec fn unmarked(marks: Seq<bool>) -> nat
    decreases marks.len(),
{
    if marks.len() == 0 {
        0
    } else {
        unmarked(marks.drop_last()) + if marks.last() {
            0nat
        } else {
            1nat
        }
    }
}

/// Setting a mark that was not set leaves one fewer unset.
pub proof fn one_fewer_unmarked(marks: Seq<bool>, i: int)
    requires
        0 <= i < marks.len(),
        !marks[i],
    ensures
        unmarked(marks.update(i, true)) + 1 == unmarked(marks),
    decreases marks.len(),
{
    let after = marks.update(i, true);
    if i == marks.len() - 1 {
        assert(after.drop_last() =~= marks.drop_last());
    } else {
        one_fewer_unmarked(marks.drop_last(), i);
        assert(after.drop_last() =~= marks.drop_last().update(i, true));
    }
}

impl<G: Game> Table<G> {
    /// Whether `n` tried moves lead from the root to slot `i`.
    pub open spec fn reached_in(self, i: int, n: nat) -> bool
        decreases n,
    {
        if n == 0 {
            i == self.root
        } else {
            exists|p: int, j: int| #[trigger]
                self.linked(p, j, i) && self.reached_in(p, (n - 1) as nat)
        }
    }

    /// Whether some chain of tried moves leads from the root to slot `i`.
    pub open spec fn reachable(self, i: int) -> bool {
        exists|n: nat| self.reached_in(i, n)
    }

    /// Whether every entry can be reached from the root.
    pub open spec fn all_reachable(self) -> bool {
        forall|i: int| #[trigger] self.live(i) ==> self.reachable(i)
    }

    /// The table without the entries that cannot be reached from the root.
    pub open spec fn swept(self) -> Table<G> {
        Table {
            entries: Seq::new(
                self.entries.len(),
                |i: int|
                    if self.reachable(i) {
                        self.entries[i]
                    } else {
                        None
                    },
            ),
            ..self
        }
    }

    /// The table after the real game has moved to the position `state`: it
    /// holds the position, stands at it, and has lost what cannot be reached
    /// from it.
    pub open spec fn committed(self, state: G::V) -> Table<G> {
        self.interned(state).rooted(self.home(state) as usize).swept()
    }

    /// A tried move leads from a slot that can be reached to one that can.
    pub proof fn reachable_step(self, p: int, j: int, c: int)
        requires
            self.reachable(p),
            self.linked(p, j, c),
        ensures
            self.reachable(c),
    {
        let n = choose|n: nat| self.reached_in(p, n);
        assert(self.reached_in(p, ((n + 1) - 1) as nat));
        assert(self.reached_in(c, n + 1));
    }

    /// A set of marks that holds the root and every slot that a tried move
    /// leads to from a marked slot holds every slot that can be reached.
    pub proof fn closed_marks_reach(self, marks: Seq<bool>, i: int, n: nat)
        requires
            self.sound(),
            marks.len() == self.entries.len(),
            marks[self.root as int],
            forall|p: int, j: int, c: int|
                0 <= p < marks.len() && marks[p] && #[trigger] self.linked(p, j, c) ==> marks[c],
            self.reached_in(i, n),
        ensures
            0 <= i < marks.len(),
            marks[i],
        decreases n,
    {
        if n > 0 {
            let (p, j) = choose|p: int, j: int| #[trigger]
                self.linked(p, j, i) && self.reached_in(p, (n - 1) as nat);
            self.closed_marks_reach(marks, p, (n - 1) as nat);
            assert(self.entry_sound(p));
        }
    }

    /// What a chain of tried moves reaches before the sweep, it reaches after.
    pub proof fn swept_keeps_chains(self, i: int, n: nat)
        requires
            self.reached_in(i, n),
        ensures
            self.swept().reached_in(i, n),
        decreases n,
    {
        if n > 0 {
            let (p, j) = choose|p: int, j: int| #[trigger]
                self.linked(p, j, i) && self.reached_in(p, (n - 1) as nat);
            self.swept_keeps_chains(p, (n - 1) as nat);
            assert(self.reachable(p));
            assert(self.swept().linked(p, j, i));
        }
    }

    /// Sweeping a table that meets the invariant leaves one that meets it, in
    /// which every entry can be reached from the root.  The entries kept are
    /// unchanged.
    pub proof fn swept_wf(self)
        requires
            self.sound(),
        ensures
            self.swept().sound(),
            self.counted() ==> self.swept().counted(),
            self.swept().all_reachable(),
            self.swept().root_state() == self.root_state(),
            forall|i: int| #[trigger]
                self.swept().live(i) <==> self.live(i) && self.reachable(i),
            forall|i: int| #[trigger]
                self.swept().live(i) ==> self.swept().entry(i) == self.entry(i),
    {
        let next = self.swept();
        assert(self.reached_in(self.root as int, 0));
        assert(self.reachable(self.root as int));
        assert forall|i: int| #[trigger] next.live(i) implies self.live(i) && self.reachable(i)
            && next.entry(i) == self.entry(i) by {}
        assert forall|i: int, j: int, c: int| #[trigger] next.linked(i, j, c) implies self.linked(
            i,
            j,
            c,
        ) && next.live(c) by {
            assert(self.linked(i, j, c));
            assert(self.entry_sound(i));
            self.reachable_step(i, j, c);
        }
        assert forall|i: int, p: G::Player| next.live(i) implies #[trigger] next.entry(i).reward(p)
            <= next.steps * u32::MAX by {
            assert(self.entry_sound(i));
            assert(self.entry(i).reward(p) <= self.steps * u32::MAX);
        }
        assert forall|i: int| #[trigger] next.live(i) implies next.entry(i).visits <= next.steps by {
            assert(self.entry_sound(i));
        }
        self.stays_sound(next);
        assert forall|i: int| #[trigger] next.live(i) implies next.reachable(i) by {
            let n = choose|n: nat| self.reached_in(i, n);
            self.swept_keeps_chains(i, n);
        }
        if self.counted() {
            assert forall|i: int, j: int, c: int| #[trigger] next.linked(i, j, c) implies next.entry(
                i,
            ).visits >= 1 && next.entry(c).visits >= 1 by {
                assert(self.linked(i, j, c));
            }
        }
    }
}

/// Marks the slots that can be reached from the root.
fn mark<G: Game>(search: &SearchInfo<G>) -> (marks: Vec<bool>)
    requires
        search@.sound(),
    ensures
        marks.len() == search@.entries.len(),
        forall|i: int| 0 <= i < marks.len() ==> (#[trigger] marks[i] <==> search@.reachable(i)),
        forall|i: int| search@.reachable(i) ==> 0 <= i < marks.len(),
{
    let count = search.slots();
    let root = search.root();
    let mut marks: Vec<bool> = Vec::new();
    while marks.len() < count
        invariant
            marks.len() <= count,
            forall|i: int| 0 <= i < marks.len() ==> !marks[i],
        decreases count - marks.len(),
    {
        marks.push(false);
    }
    let mut stack: Vec<usize> = Vec::new();
    marks[root] = true;
    stack.push(root);
    proof {
        assert(search@.reached_in(root as int, 0));
        assert(stack[0] as int == root as int);
        assert(passes(stack@, root as int));
    }
    while stack.len() > 0
        invariant
            search@.sound(),
            count == search@.entries.len(),
            marks.len() == count,
            root == search@.root,
            marks[root as int],
            forall|i: int|
                0 <= i < count && #[trigger] marks[i] ==> search@.live(i) && search@.reachable(i),
            forall|k: int| 0 <= k < stack.len() ==> (#[trigger] stack[k]) < count && marks[stack[k] as int],
            forall|p: int, j: int, c: int|
                0 <= p < count && marks[p] && #[trigger] search@.linked(p, j, c) ==> marks[c]
                    || passes(stack@, p),
        decreases 2 * unmarked(marks@) + stack.len(),
    {
        let ghost full = stack@;
        let at = match stack.pop() {
            Some(at) => at,
            None => vstd::pervasive::unreached(),
        };
        let ghost rest = stack@;
        let ghost known = marks@;
        proof {
            assert(search@.entry_sound(at as int));
            assert(stack@.take(rest.len() as int) =~= rest);
            assert forall|p: int, j: int, c: int|
                0 <= p < count && p != at && marks[p] && #[trigger] search@.linked(
                    p,
                    j,
                    c,
                ) implies marks[c] || passes(stack@, p) by {
                if !marks[c] {
                    assert(passes(full, p));
                    let k = choose|k: int| 0 <= k < full.len() && #[trigger] full[k] as int == p;
                    assert(rest[k] as int == p);
                }
            }
        }
        let arity = search.arity(at);
        let mut j: usize = 0;
        while j < arity
            invariant
                j <= arity,
                search@.sound(),
                count == search@.entries.len(),
                marks.len() == count,
                root == search@.root,
                marks[root as int],
                at < count,
                marks[at as int],
                search@.live(at as int),
                arity == search@.entry(at as int).children.len(),
                stack.len() >= rest.len(),
                stack@.take(rest.len() as int) == rest,
                2 * unmarked(marks@) + stack.len() <= 2 * unmarked(known) + rest.len(),
                forall|i: int|
                    0 <= i < count && #[trigger] marks[i] ==> search@.live(i) && search@.reachable(i),
                forall|k: int|
                    0 <= k < stack.len() ==> (#[trigger] stack[k]) < count && marks[stack[k] as int],
                forall|b: int, c: int|
                    0 <= b < j && #[trigger] search@.linked(at as int, b, c) ==> marks[c],
                forall|p: int, j: int, c: int|
                    0 <= p < count && p != at && marks[p] && #[trigger] search@.linked(p, j, c)
                        ==> marks[c] || passes(stack@, p),
            decreases arity - j,
        {
            match search.child(at, j) {
                Some(c) => {
                    proof {
                        assert(search@.linked(at as int, j as int, c as int));
                        assert(search@.entry_sound(at as int));
                        search@.reachable_step(at as int, j as int, c as int);
                    }
                    if !marks[c] {
                        let ghost before = stack@;
                        proof {
                            one_fewer_unmarked(marks@, c as int);
                        }
                        marks[c] = true;
                        stack.push(c);
                        proof {
                            assert(stack@.take(rest.len() as int) =~= before.take(rest.len() as int));
                            assert forall|p: int, j: int, d: int|
                                0 <= p < count && p != at && marks[p] && #[trigger] search@.linked(
                                    p,
                                    j,
                                    d,
                                ) implies marks[d] || passes(stack@, p) by {
                                if p == c {
                                    assert(stack[stack.len() - 1] as int == p);
                                } else if !marks[d] {
                                    assert(passes(before, p));
                                    let k = choose|k: int|
                                        0 <= k < before.len() && #[trigger] before[k] as int == p;
                                    assert(stack[k] as int == p);
                                }
                            }
                        }
                    }
                },
                None => {},
            }
            j = j + 1;
        }
    }
    proof {
        assert forall|p: int, j: int, c: int|
            0 <= p < marks.len() && marks[p] && #[trigger] search@.linked(p, j, c) implies marks[c] by {
            assert(!passes(stack@, p));
        }
        assert forall|i: int| search@.reachable(i) implies 0 <= i < marks.len() && marks[i] by {
            let n = choose|n: nat| search@.reached_in(i, n);
            search@.closed_marks_reach(marks@, i, n);
        }
    }
    marks
}

/// Empties the slots that cannot be reached from the root.
pub(crate) fn sweep<G: Game>(search: &mut SearchInfo<G>)
    requires
        old(search).tidy(),
        old(search)@.sound(),
    ensures
        final(search).tidy(),
        final(search)@ == old(search)@.swept(),
{
    let marks = mark(search);
    let ghost start = search@;
    search.retain(&marks);
    proof {
        assert(search@.entries =~= start.swept().entries);
    }
}

impl<G: Game> SearchInfo<G> {
    /// Commits a move of the real game.  A legal move takes the game to the
    /// position it leads to, which is returned, and the entries that cannot be
    /// reached from there are dropped.  A move that is not legal changes
    /// nothing.
    pub fn do_action(&mut self, action: G::Action) -> (result: Result<G, InvalidAction>)
        requires
            old(self).wf(),
        ensures
            final(self).wf(),
            final(self)@.steps == old(self)@.steps,
            result is Ok <==> G::legal(old(self)@.root_state()).contains(action),
            result is Err ==> final(self)@ == old(self)@,
            result is Ok ==> {
                &&& result->Ok_0@ == G::successor(old(self)@.root_state(), action)
                &&& final(self)@ == old(self)@.committed(result->Ok_0@)
                &&& final(self)@.root_state() == result->Ok_0@
                &&& final(self)@.all_reachable()
            },
    {
        let ghost start = self@;
        proof {
            assert(start.entry_sound(start.root as int));
            G::rules(start.root_state());
        }
        match self.state(self.root()).duplicate().do_action(action) {
            Err(_) => Err(InvalidAction),
            Ok(next) => {
                let copy = next.duplicate();
                proof {
                    start.interned_sound(next@);
                }
                let slot = self.intern(next);
                self.reroot(slot);
                let ghost moved = self@;
                proof {
                    assert(moved.sound()) by {
                        let held = start.interned(copy@);
                        assert forall|i: int, p: G::Player| moved.live(i) implies #[trigger] moved.entry(
                            i,
                        ).reward(p) <= moved.steps * u32::MAX by {
                            assert(held.live(i));
                            assert(held.entry_sound(i));
                            assert(held.entry(i).reward(p) <= held.steps * u32::MAX);
                        }
                        assert forall|i: int, j: int, c: int| #[trigger]
                            moved.linked(i, j, c) implies held.linked(i, j, c) && moved.live(c) by {
                            assert(held.linked(i, j, c));
                            assert(held.entry_sound(i));
                        }
                        assert forall|i: int| #[trigger] moved.live(i) implies moved.entry(i).visits
                            <= moved.steps by {
                            assert(held.live(i));
                            assert(held.entry_sound(i));
                        }
                        held.stays_sound(moved);
                    }
                    assert(moved.counted()) by {
                        let held = start.interned(copy@);
                        assert forall|i: int, j: int, c: int| #[trigger]
                            moved.linked(i, j, c) implies moved.entry(i).visits >= 1 && moved.entry(
                            c,
                        ).visits >= 1 by {
                            assert(held.linked(i, j, c));
                        }
                    }
                    moved.swept_wf();
                }
                sweep(self);
                Ok(copy)
            },
        }
    }
}

} // verus!
