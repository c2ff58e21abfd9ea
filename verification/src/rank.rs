//! The ranking of the moves tried at the position where the game stands, best
//! first.

use crate::game::Game;
use crate::search::SearchInfo;
use crate::table::Table;
use vstd::prelude::*;

verus! {

impl<G: Game> Table<G> {
    /// Whether move number `a` of slot `i` goes before move number `b` in the
    /// ranking: the player to move in slot `i` has the higher mean reward in
    /// the child of `a`, or the same in both and `a` is listed first.  The
    /// means are compared as fractions, reward over visits.
    pub open spec fn ahead(self, i: int, a: int, b: int) -> bool {
        let mover = G::mover(self.entry(i).state);
        let x = self.entry(self.entry(i).children[a]->0 as int);
        let y = self.entry(self.entry(i).children[b]->0 as int);
        let left = x.reward(mover) * y.visits;
        let right = y.reward(mover) * x.visits;
        left > right || (left == right && a < b)
    }

    /// The place of move number `next` of slot `i` in the ranking `order` of
    /// other moves: behind the last move that goes before it.
    pub open spec fn place(self, i: int, order: Seq<usize>, next: int) -> int
        decreases order.len(),
    {
        if order.len() == 0 || self.ahead(i, order.last() as int, next) {
            order.len() as int
        } else {
            self.place(i, order.drop_last(), next)
        }
    }

    /// The ranking of the moves tried among the first `n` moves of slot `i`,
    /// as move numbers.
    pub open spec fn ranked(self, i: int, n: int) -> Seq<usize>
        decreases n,
    {
        if n <= 0 {
            Seq::empty()
        } else {
            let before = self.ranked(i, n - 1);
            if self.entry(i).children[n - 1] is Some {
                before.insert(self.place(i, before, n - 1), (n - 1) as usize)
            } else {
                before
            }
        }
    }

    /// The ranking of the moves tried at the position where the game stands.
    pub open spec fn ranking(self) -> Seq<G::Action> {
        let e = self.entry(self.root as int);
        self.ranked(self.root as int, e.children.len() as int).map_values(
            |j: usize| G::legal(e.state)[j as int],
        )
    }

    /// The place of a move in a ranking is within it or at its end.
    pub proof fn place_in_range(self, i: int, order: Seq<usize>, next: int)
        ensures
            0 <= self.place(i, order, next) <= order.len(),
        decreases order.len(),
    {
        if !(order.len() == 0 || self.ahead(i, order.last() as int, next)) {
            self.place_in_range(i, order.drop_last(), next);
        }
    }

    /// The ranking of the first `n` moves holds exactly those of them that were
    /// tried, each once.
    pub proof fn ranked_holds_tried(self, i: int, n: int)
        requires
            0 <= n <= self.entry(i).children.len(),
            n <= usize::MAX,
        ensures
            self.ranked(i, n).no_duplicates(),
            forall|j: usize|
                self.ranked(i, n).contains(j) <==> j < n && self.entry(i).children[j as int] is Some,
        decreases n,
    {
        if n > 0 {
            let before = self.ranked(i, n - 1);
            self.ranked_holds_tried(i, n - 1);
            if self.entry(i).children[n - 1] is Some {
                let p = self.place(i, before, n - 1);
                let last = (n - 1) as usize;
                self.place_in_range(i, before, n - 1);
                let after = before.insert(p, last);
                assert(!before.contains(last));
                assert forall|a: int, b: int| 0 <= a < after.len() && 0 <= b < after.len() && a
                    != b implies after[a] != after[b] by {
                    let x = if a < p {
                        a
                    } else {
                        a - 1
                    };
                    let y = if b < p {
                        b
                    } else {
                        b - 1
                    };
                    if a != p {
                        assert(after[a] == before[x]);
                        assert(before.contains(before[x]));
                    }
                    if b != p {
                        assert(after[b] == before[y]);
                        assert(before.contains(before[y]));
                    }
                }
                assert forall|j: usize| after.contains(j) <==> j < n && self.entry(i).children[j as int] is Some by {
                    if after.contains(j) {
                        let a = choose|a: int| 0 <= a < after.len() && after[a] == j;
                        if a < p {
                            assert(before[a] == j);
                            assert(before.contains(j));
                        } else if a > p {
                            assert(before[a - 1] == j);
                            assert(before.contains(j));
                        }
                    }
                    if j < n && self.entry(i).children[j as int] is Some {
                        if j == last {
                            assert(after[p] == j);
                        } else {
                            assert(before.contains(j));
                            let a = choose|a: int| 0 <= a < before.len() && before[a] == j;
                            if a < p {
                                assert(after[a] == j);
                            } else {
                                assert(after[a + 1] == j);
                            }
                        }
                    }
                }
            }
        }
    }
}

/// Of three fractions with positive denominators, each at least the next, the
/// first is at least the last, and more if either step is a fall.
pub proof fn fractions_chain(ra: int, va: int, rb: int, vb: int, rc: int, vc: int)
    requires
        va > 0,
        vb > 0,
        vc > 0,
        ra * vb >= rb * va,
        rb * vc >= rc * vb,
    ensures
        ra * vc >= rc * va,
        ra * vb > rb * va || rb * vc > rc * vb ==> ra * vc > rc * va,
{
    assert((ra * vb) * vc >= (rb * va) * vc) by (nonlinear_arith)
        requires
            ra * vb >= rb * va,
            vc > 0,
    ;
    assert((rb * vc) * va >= (rc * vb) * va) by (nonlinear_arith)
        requires
            rb * vc >= rc * vb,
            va > 0,
    ;
    assert((rb * va) * vc == (rb * vc) * va) by (nonlinear_arith);
    assert((ra * vb) * vc == vb * (ra * vc)) by (nonlinear_arith);
    assert((rc * vb) * va == vb * (rc * va)) by (nonlinear_arith);
    assert(ra * vc >= rc * va) by (nonlinear_arith)
        requires
            vb * (ra * vc) >= vb * (rc * va),
            vb > 0,
    ;
    if ra * vb > rb * va {
        assert((ra * vb) * vc > (rb * va) * vc) by (nonlinear_arith)
            requires
                ra * vb > rb * va,
                vc > 0,
        ;
        assert(ra * vc > rc * va) by (nonlinear_arith)
            requires
                vb * (ra * vc) > vb * (rc * va),
                vb > 0,
        ;
    }
    if rb * vc > rc * vb {
        assert((rb * vc) * va > (rc * vb) * va) by (nonlinear_arith)
            requires
                rb * vc > rc * vb,
                va > 0,
        ;
        assert(ra * vc > rc * va) by (nonlinear_arith)
            requires
                vb * (ra * vc) > vb * (rc * va),
                vb > 0,
        ;
    }
}

impl<G: Game> Table<G> {
    /// Whether move number `a` of slot `i` has been tried and played through.
    pub open spec fn played(self, i: int, a: int) -> bool {
        &&& 0 <= a < self.entry(i).children.len()
        &&& self.entry(i).children[a] is Some
        &&& self.entry(self.entry(i).children[a]->0 as int).visits >= 1
    }

    /// Of two different moves, one goes before the other.
    pub proof fn ahead_is_total(self, i: int, a: int, b: int)
        requires
            a != b,
        ensures
            self.ahead(i, a, b) != self.ahead(i, b, a),
    {
    }

    /// If one move goes before a second and the second before a third, the
    /// first goes before the third.
    pub proof fn ahead_is_transitive(self, i: int, a: int, b: int, c: int)
        requires
            self.played(i, a),
            self.played(i, b),
            self.played(i, c),
            self.ahead(i, a, b),
            self.ahead(i, b, c),
        ensures
            self.ahead(i, a, c),
    {
        let mover = G::mover(self.entry(i).state);
        let x = self.entry(self.entry(i).children[a]->0 as int);
        let y = self.entry(self.entry(i).children[b]->0 as int);
        let z = self.entry(self.entry(i).children[c]->0 as int);
        fractions_chain(
            x.reward(mover) as int,
            x.visits as int,
            y.reward(mover) as int,
            y.visits as int,
            z.reward(mover) as int,
            z.visits as int,
        );
    }

    /// The place of a move in a ranking is behind a move that goes before it,
    /// if it is not the first place, and before moves that do not.
    pub proof fn place_splits(self, i: int, order: Seq<usize>, next: int)
        ensures
            self.place(i, order, next) > 0 ==> self.ahead(
                i,
                order[self.place(i, order, next) - 1] as int,
                next,
            ),
            forall|k: int|
                self.place(i, order, next) <= k < order.len() ==> !self.ahead(
                    i,
                    #[trigger] order[k] as int,
                    next,
                ),
        decreases order.len(),
    {
        if !(order.len() == 0 || self.ahead(i, order.last() as int, next)) {
            let front = order.drop_last();
            self.place_splits(i, front, next);
            self.place_in_range(i, front, next);
            assert forall|k: int| self.place(i, order, next) <= k < order.len() implies !self.ahead(
                i,
                #[trigger] order[k] as int,
                next,
            ) by {
                if k < front.len() {
                    assert(front[k] == order[k]);
                }
            }
            if self.place(i, order, next) > 0 {
                assert(front[self.place(i, order, next) - 1] == order[self.place(i, order, next) - 1]);
            }
        }
    }

    /// The ranking is in order: each move goes before all that follow it.  So
    /// the means fall along the ranking, and moves with the same mean stand in
    /// the order in which the game lists them.
    pub proof fn ranked_in_order(self, i: int, n: int)
        requires
            self.wf(),
            self.live(i),
            0 <= n <= self.entry(i).children.len(),
            n <= usize::MAX,
        ensures
            forall|p: int, q: int|
                0 <= p < q < self.ranked(i, n).len() ==> self.ahead(
                    i,
                    #[trigger] self.ranked(i, n)[p] as int,
                    #[trigger] self.ranked(i, n)[q] as int,
                ),
        decreases n,
    {
        if n > 0 {
            let before = self.ranked(i, n - 1);
            self.ranked_in_order(i, n - 1);
            self.ranked_holds_tried(i, n - 1);
            if self.entry(i).children[n - 1] is Some {
                let at = self.place(i, before, n - 1);
                let last = (n - 1) as usize;
                self.place_in_range(i, before, n - 1);
                self.place_splits(i, before, n - 1);
                let after = before.insert(at, last);
                assert(self.entry_sound(i));
                assert forall|k: int| 0 <= k < before.len() implies self.played(
                    i,
                    #[trigger] before[k] as int,
                ) && before[k] != last by {
                    assert(before.contains(before[k]));
                    let c = self.entry(i).children[before[k] as int]->0;
                    assert(self.linked(i, before[k] as int, c as int));
                }
                assert(self.played(i, n - 1)) by {
                    let c = self.entry(i).children[n - 1]->0;
                    assert(self.linked(i, n - 1, c as int));
                }
                assert forall|p: int, q: int| 0 <= p < q < after.len() implies self.ahead(
                    i,
                    #[trigger] after[p] as int,
                    #[trigger] after[q] as int,
                ) by {
                    if q < at {
                        assert(after[p] == before[p] && after[q] == before[q]);
                    } else if q == at {
                        assert(after[p] == before[p]);
                        assert(self.ahead(i, before[at - 1] as int, n - 1));
                        if p < at - 1 {
                            assert(self.ahead(i, before[p] as int, before[at - 1] as int));
                            self.ahead_is_transitive(i, before[p] as int, before[at - 1] as int, n - 1);
                        }
                    } else if p == at {
                        assert(after[q] == before[q - 1]);
                        assert(!self.ahead(i, before[q - 1] as int, n - 1));
                        self.ahead_is_total(i, before[q - 1] as int, n - 1);
                    } else if p > at {
                        assert(after[p] == before[p - 1] && after[q] == before[q - 1]);
                    } else {
                        assert(after[p] == before[p] && after[q] == before[q - 1]);
                    }
                }
            }
        }
    }
}

/// Two fractions compare as their whole parts do, and as the rests over the
/// denominators do where the whole parts are the same.
pub proof fn fractions_by_parts(qx: int, mx: int, vx: int, qy: int, my: int, vy: int)
    requires
        0 <= mx < vx,
        0 <= my < vy,
        0 <= qx,
        0 <= qy,
    ensures
        qx > qy ==> (qx * vx + mx) * vy > (qy * vy + my) * vx,
        qx < qy ==> (qx * vx + mx) * vy < (qy * vy + my) * vx,
        qx == qy ==> (qx * vx + mx) * vy - (qy * vy + my) * vx == mx * vy - my * vx,
{
    let unit = vx * vy;
    assert((qx * vx + mx) * vy == qx * unit + mx * vy) by (nonlinear_arith)
        requires
            unit == vx * vy,
    ;
    assert((qy * vy + my) * vx == qy * unit + my * vx) by (nonlinear_arith)
        requires
            unit == vx * vy,
    ;
    assert(0 <= mx * vy < unit) by (nonlinear_arith)
        requires
            0 <= mx < vx,
            0 < vy,
            unit == vx * vy,
    ;
    assert(0 <= my * vx < unit) by (nonlinear_arith)
        requires
            0 <= my < vy,
            0 < vx,
            unit == vx * vy,
    ;
    if qx > qy {
        assert(qx * unit >= qy * unit + unit) by (nonlinear_arith)
            requires
                qx >= qy + 1,
                unit >= 0,
        ;
    }
    if qx < qy {
        assert(qy * unit >= qx * unit + unit) by (nonlinear_arith)
            requires
                qy >= qx + 1,
                unit >= 0,
        ;
    }
}

/// How the fraction `rx` over `vx` stands to the fraction `ry` over `vy`:
/// whether it is greater, and whether it is the same.
fn compare_means(rx: u128, vx: u64, ry: u128, vy: u64) -> (r: (bool, bool))
    requires
        vx >= 1,
        vy >= 1,
    ensures
        r.0 == (rx * vy > ry * vx),
        r.1 == (rx * vy == ry * vx),
{
    let qx = rx / vx as u128;
    let mx = rx % vx as u128;
    let qy = ry / vy as u128;
    let my = ry % vy as u128;
    proof {
        assert(rx == qx * vx + mx) by (nonlinear_arith)
            requires
                qx == rx / (vx as u128),
                mx == rx % (vx as u128),
                vx > 0,
        ;
        assert(ry == qy * vy + my) by (nonlinear_arith)
            requires
                qy == ry / (vy as u128),
                my == ry % (vy as u128),
                vy > 0,
        ;
        fractions_by_parts(qx as int, mx as int, vx as int, qy as int, my as int, vy as int);
        assert(mx * vy <= 0xffff_ffff_ffff_ffff * 0xffff_ffff_ffff_ffff) by (nonlinear_arith)
            requires
                0 <= mx <= 0xffff_ffff_ffff_ffff,
                0 <= vy <= 0xffff_ffff_ffff_ffff,
        ;
        assert(my * vx <= 0xffff_ffff_ffff_ffff * 0xffff_ffff_ffff_ffff) by (nonlinear_arith)
            requires
                0 <= my <= 0xffff_ffff_ffff_ffff,
                0 <= vx <= 0xffff_ffff_ffff_ffff,
        ;
    }
    if qx != qy {
        (qx > qy, false)
    } else {
        let left: u128 = mx * vy as u128;
        let right: u128 = my * vx as u128;
        (left > right, left == right)
    }
}

/// Whether move number `a` of slot `i` goes before move number `b` in the
/// ranking, for `player` to move in slot `i`.
fn leads<G: Game>(
    search: &SearchInfo<G>,
    i: usize,
    a: usize,
    b: usize,
    player: &G::Player,
) -> (r: bool)
    requires
        search.wf(),
        search@.live(i as int),
        a < search@.entry(i as int).children.len(),
        b < search@.entry(i as int).children.len(),
        search@.entry(i as int).children[a as int] is Some,
        search@.entry(i as int).children[b as int] is Some,
        *player == G::mover(search@.entry(i as int).state),
    ensures
        r == search@.ahead(i as int, a as int, b as int),
{
    let x = match search.child(i, a) {
        Some(x) => x,
        None => vstd::pervasive::unreached(),
    };
    let y = match search.child(i, b) {
        Some(y) => y,
        None => vstd::pervasive::unreached(),
    };
    proof {
        assert(search@.entry_sound(i as int));
        assert(search@.linked(i as int, a as int, x as int));
        assert(search@.linked(i as int, b as int, y as int));
    }
    let (more, same) = compare_means(
        search.total(x, player),
        search.visits(x),
        search.total(y, player),
        search.visits(y),
    );
    more || (same && a < b)
}

/// The place of move number `next` of slot `i` in the ranking `order`.
fn find_place<G: Game>(
    search: &SearchInfo<G>,
    i: usize,
    order: &Vec<usize>,
    next: usize,
    player: &G::Player,
) -> (p: usize)
    requires
        search.wf(),
        search@.live(i as int),
        next < search@.entry(i as int).children.len(),
        search@.entry(i as int).children[next as int] is Some,
        forall|k: int|
            0 <= k < order.len() ==> (#[trigger] order[k]) < search@.entry(i as int).children.len()
                && search@.entry(i as int).children[order[k] as int] is Some,
        *player == G::mover(search@.entry(i as int).state),
    ensures
        p == search@.place(i as int, order@, next as int),
        p <= order.len(),
{
    let mut p: usize = order.len();
    proof {
        assert(order@.take(p as int) =~= order@);
    }
    while p > 0
        invariant
            p <= order.len(),
            search.wf(),
            search@.live(i as int),
            next < search@.entry(i as int).children.len(),
            search@.entry(i as int).children[next as int] is Some,
            forall|k: int|
                0 <= k < order.len() ==> (#[trigger] order[k]) < search@.entry(
                    i as int,
                ).children.len() && search@.entry(i as int).children[order[k] as int] is Some,
            *player == G::mover(search@.entry(i as int).state),
            search@.place(i as int, order@, next as int) == search@.place(
                i as int,
                order@.take(p as int),
                next as int,
            ),
        decreases p,
    {
        proof {
            assert(order@.take(p as int).last() == order[p - 1]);
            assert(order@.take(p as int).drop_last() =~= order@.take(p - 1));
        }
        if leads(search, i, order[p - 1], next, player) {
            return p;
        }
        p = p - 1;
    }
    p
}

/// The moves tried at the position where the game stands, best first.
pub(crate) fn rank<G: Game>(search: &SearchInfo<G>) -> (actions: Vec<G::Action>) where
    G::Action: Copy,

    requires
        search.wf(),
    ensures
        actions@ == search@.ranking(),
{
    let root = search.root();
    proof {
        assert(search@.entry_sound(root as int));
    }
    let count = search.arity(root);
    let player = search.state(root).get_current_player();
    let mut order: Vec<usize> = Vec::new();
    let mut n: usize = 0;
    while n < count
        invariant
            n <= count,
            search.wf(),
            root == search@.root,
            count == search@.entry(root as int).children.len(),
            player == G::mover(search@.entry(root as int).state),
            order@ == search@.ranked(root as int, n as int),
            forall|k: int|
                0 <= k < order.len() ==> (#[trigger] order[k]) < n && search@.entry(
                    root as int,
                ).children[order[k] as int] is Some,
        decreases count - n,
    {
        if search.child(root, n).is_some() {
            let p = find_place(search, root, &order, n, &player);
            let ghost before = order@;
            order.insert(p, n);
            proof {
                assert forall|k: int| 0 <= k < order.len() implies (#[trigger] order[k]) < n + 1
                    && search@.entry(root as int).children[order[k] as int] is Some by {
                    if k < p {
                        assert(order[k] == before[k]);
                    } else if k > p {
                        assert(order[k] == before[k - 1]);
                    }
                }
            }
        }
        n = n + 1;
    }
    let listed = search.state(root).list_actions();
    let mut actions: Vec<G::Action> = Vec::new();
    let mut k: usize = 0;
    while k < order.len()
        invariant
            k <= order.len(),
            listed@ == G::legal(search@.entry(root as int).state),
            listed.len() == count,
            forall|k: int| 0 <= k < order.len() ==> (#[trigger] order[k]) < count,
            actions@ == order@.take(k as int).map_values(
                |j: usize| G::legal(search@.entry(root as int).state)[j as int],
            ),
        decreases order.len() - k,
    {
        proof {
            assert(order@.take(k + 1).map_values(
                |j: usize| G::legal(search@.entry(root as int).state)[j as int],
            ) =~= order@.take(k as int).map_values(
                |j: usize| G::legal(search@.entry(root as int).state)[j as int],
            ).push(listed[order[k as int] as int]));
        }
        actions.push(listed[order[k]]);
        k = k + 1;
    }
    proof {
        assert(order@.take(order.len() as int) =~= order@);
    }
    actions
}

} // verus!
