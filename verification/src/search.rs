//! A search in progress: the entries of all positions met so far, and the
//! position at which the game stands.

use crate::game::Game;
use crate::table::{Entry, Table};
use crate::tally::{as_map, credit, distinct, total_of};
use std::collections::HashMap;
use vstd::prelude::*;

verus! {

broadcast use vstd::std_specs::hash::group_hash_axioms;

/// What the search keeps for one position.
pub struct Node<G: Game> {
    visits: u64,
    rewards: Vec<(G::Player, u128)>,
    state: G,
    children: Vec<Option<usize>>,
}

impl<G: Game> Node<G> {
    /// The entry that the node stands for.
    pub closed spec fn entry(&self) -> Entry<G> {
        Entry {
            state: self.state@,
            visits: self.visits as nat,
            rewards: as_map(self.rewards@),
            children: self.children@,
        }
    }

    /// No player has two reward totals.
    pub closed spec fn tidy(&self) -> bool {
        distinct(self.rewards@)
    }

    /// A node for a position that no playout has visited.
    pub fn new(state: G) -> (node: Node<G>)
        requires
            G::valid(state@),
        ensures
            node.entry() == Entry::<G>::fresh(state@),
            node.tidy(),
    {
        let count = state.list_actions().len();
        let mut children: Vec<Option<usize>> = Vec::new();
        while children.len() < count
            invariant
                children.len() <= count,
                forall|j: int| 0 <= j < children.len() ==> children[j] is None,
            decreases count - children.len(),
        {
            children.push(None);
        }
        let node = Node { visits: 0, rewards: Vec::new(), state, children };
        proof {
            assert(node.entry().children =~= Entry::<G>::fresh(state@).children);
        }
        node
    }
}

/// Whether `index` lists `slot` under `key`.
spec fn listed(index: Map<u64, Vec<usize>>, key: u64, slot: int) -> bool {
    index.contains_key(key) && exists|x: int|
        0 <= x < index[key]@.len() && #[trigger] index[key]@[x] as int == slot
}

/// Whether `slot` holds a node whose position has the fingerprint `key`.
spec fn has_print<G: Game>(nodes: Seq<Option<Node<G>>>, slot: usize, key: u64) -> bool {
    slot < nodes.len() && nodes[slot as int] is Some && G::fingerprint(nodes[slot as int]->0.state@)
        == key
}

/// Whether every node is listed under the fingerprint of its position.
spec fn covers<G: Game>(nodes: Seq<Option<Node<G>>>, index: Map<u64, Vec<usize>>) -> bool {
    forall|i: int|
        0 <= i < nodes.len() && (#[trigger] nodes[i]) is Some ==> listed(
            index,
            G::fingerprint(nodes[i]->0.state@),
            i,
        )
}

/// Whether every slot listed holds a node whose position has the fingerprint
/// that the slot is listed under.
spec fn faithful<G: Game>(nodes: Seq<Option<Node<G>>>, index: Map<u64, Vec<usize>>) -> bool {
    forall|key: u64, x: int|
        index.contains_key(key) && 0 <= x < index[key]@.len() ==> has_print(
            nodes,
            #[trigger] index[key]@[x],
            key,
        )
}

/// Lists `slot` under `key`, behind the slots that are listed there.
fn file(index: &mut HashMap<u64, Vec<usize>>, key: u64, slot: usize)
    ensures
        final(index)@.contains_key(key),
        final(index)@[key]@ == (if old(index)@.contains_key(key) {
            old(index)@[key]@
        } else {
            Seq::empty()
        }).push(slot),
        forall|k: u64| k != key ==> final(index)@.contains_key(k) == old(index)@.contains_key(k),
        forall|k: u64|
            k != key && old(index)@.contains_key(k) ==> #[trigger] final(index)@[k] == old(index)@[k],
{
    let mut bucket = match index.remove(&key) {
        Some(bucket) => bucket,
        None => Vec::new(),
    };
    bucket.push(slot);
    index.insert(key, bucket);
}

/// A search: the table of the positions met so far and the position at which
/// the game stands.  The positions are filed under their fingerprints.
pub struct SearchInfo<G: Game> {
    nodes: Vec<Option<Node<G>>>,
    index: HashMap<u64, Vec<usize>>,
    low: usize,
    root: usize,
    steps: u64,
}

impl<G: Game> View for SearchInfo<G> {
    type V = Table<G>;

    closed spec fn view(&self) -> Table<G> {
        Table {
            entries: Seq::new(
                self.nodes@.len(),
                |i: int|
                    match self.nodes@[i] {
                        Some(node) => Some(node.entry()),
                        None => None,
                    },
            ),
            root: self.root,
            steps: self.steps as nat,
        }
    }
}

impl<G: Game> SearchInfo<G> {
    /// Every node is tidy.
    pub closed spec fn neat(&self) -> bool {
        forall|i: int|
            0 <= i < self.nodes@.len() && (#[trigger] self.nodes@[i]) is Some
                ==> self.nodes@[i]->0.tidy()
    }

    /// Every node is tidy and filed under the fingerprint of its position, the
    /// slots listed under a fingerprint hold nodes of positions that have it,
    /// and no slot below the mark `low` is empty.
    pub closed spec fn tidy(&self) -> bool {
        &&& self.neat()
        &&& self.low <= self.nodes@.len()
        &&& forall|i: int| 0 <= i < self.low ==> (#[trigger] self.nodes@[i]) is Some
        &&& covers(self.nodes@, self.index@)
        &&& faithful(self.nodes@, self.index@)
    }

    /// The invariant of a search between two of its operations.
    pub open spec fn wf(&self) -> bool {
        self.tidy() && self@.wf()
    }

    /// A search that starts at the position `game`.
    pub fn new(game: G) -> (search: SearchInfo<G>)
        requires
            G::valid(game@),
        ensures
            search.wf(),
            search@ == Table::<G>::fresh(game@),
    {
        let mut index: HashMap<u64, Vec<usize>> = HashMap::new();
        file(&mut index, game.get_fingerprint(), 0);
        let node = Node::new(game);
        let mut nodes: Vec<Option<Node<G>>> = Vec::new();
        nodes.push(Some(node));
        let search = SearchInfo { nodes, index, low: 1, root: 0, steps: 0 };
        proof {
            assert(search@.entries =~= Table::<G>::fresh(game@).entries);
            Table::<G>::fresh_wf(game@);
            assert(search.index@[G::fingerprint(game@)]@[0] == 0);
        }
        search
    }

    /// The position at which the game stands.
    pub fn get_game(&self) -> (game: G)
        requires
            self.wf(),
        ensures
            game@ == self@.root_state(),
    {
        match &self.nodes[self.root] {
            Some(node) => node.state.duplicate(),
            None => vstd::pervasive::unreached(),
        }
    }

    /// The number of playouts that have passed through the position at which the
    /// game stands.
    pub fn root_visits(&self) -> (visits: u64)
        requires
            self.wf(),
        ensures
            visits == self@.entry(self@.root as int).visits,
    {
        match &self.nodes[self.root] {
            Some(node) => node.visits,
            None => vstd::pervasive::unreached(),
        }
    }

    /// The number of playouts run.
    pub fn steps(&self) -> (steps: u64)
        ensures
            steps == self@.steps,
    {
        self.steps
    }

    /// The number of positions that the search holds.
    pub fn size(&self) -> (count: usize)
        ensures
            count == self@.population(),
    {
        let mut count: usize = 0;
        let mut i: usize = 0;
        while i < self.nodes.len()
            invariant
                i <= self.nodes.len(),
                count <= i,
                count == self@.entries_in(i as int),
            decreases self.nodes.len() - i,
        {
            if self.nodes[i].is_some() {
                count = count + 1;
            }
            i = i + 1;
        }
        count
    }

    /// The slot at which the game stands.
    pub(crate) fn root(&self) -> (root: usize)
        ensures
            root == self@.root,
    {
        self.root
    }

    /// The number of slots, empty ones included.
    pub(crate) fn slots(&self) -> (count: usize)
        ensures
            count == self@.entries.len(),
    {
        self.nodes.len()
    }

    /// The position in slot `i`.
    pub(crate) fn state(&self, i: usize) -> (state: &G)
        requires
            self@.live(i as int),
        ensures
            state@ == self@.entry(i as int).state,
    {
        match &self.nodes[i] {
            Some(node) => &node.state,
            None => vstd::pervasive::unreached(),
        }
    }

    /// The visits of slot `i`.
    pub(crate) fn visits(&self, i: usize) -> (visits: u64)
        requires
            self@.live(i as int),
        ensures
            visits == self@.entry(i as int).visits,
    {
        match &self.nodes[i] {
            Some(node) => node.visits,
            None => vstd::pervasive::unreached(),
        }
    }

    /// The number of child slots of slot `i`.
    pub(crate) fn arity(&self, i: usize) -> (count: usize)
        requires
            self@.live(i as int),
        ensures
            count == self@.entry(i as int).children.len(),
    {
        match &self.nodes[i] {
            Some(node) => node.children.len(),
            None => vstd::pervasive::unreached(),
        }
    }

    /// Where move number `j` of slot `i` leads, if it has been tried.
    pub(crate) fn child(&self, i: usize, j: usize) -> (child: Option<usize>)
        requires
            self@.live(i as int),
            j < self@.entry(i as int).children.len(),
        ensures
            child == self@.entry(i as int).children[j as int],
    {
        match &self.nodes[i] {
            Some(node) => node.children[j],
            None => vstd::pervasive::unreached(),
        }
    }

    /// The units of reward paid to `player` in slot `i`.
    pub(crate) fn total(&self, i: usize, player: &G::Player) -> (total: u128)
        requires
            self.tidy(),
            self@.live(i as int),
        ensures
            total == self@.entry(i as int).reward(*player),
    {
        match &self.nodes[i] {
            Some(node) => match total_of::<G>(&node.rewards, player) {
                Some((_, total)) => total,
                None => 0,
            },
            None => vstd::pervasive::unreached(),
        }
    }

    /// Records that move number `j` of slot `i` leads to slot `c`.
    pub(crate) fn link(&mut self, i: usize, j: usize, c: usize)
        requires
            old(self).tidy(),
            old(self)@.live(i as int),
            j < old(self)@.entry(i as int).children.len(),
        ensures
            final(self).tidy(),
            final(self)@ == old(self)@.with_child(i as int, j as int, c),
    {
        match &mut self.nodes[i] {
            Some(node) => {
                node.children[j] = Some(c);
            },
            None => {},
        }
        proof {
            assert(self@.entries =~= old(self)@.with_child(i as int, j as int, c).entries);
            old(self).stays_filed(self);
        }
    }

    /// Counts one more playout through slot `i`.
    pub(crate) fn visit(&mut self, i: usize)
        requires
            old(self).tidy(),
            old(self)@.live(i as int),
            old(self)@.entry(i as int).visits < u64::MAX,
        ensures
            final(self).tidy(),
            final(self)@ == old(self)@.visited(i as int),
    {
        match &mut self.nodes[i] {
            Some(node) => {
                node.visits = node.visits + 1;
            },
            None => {},
        }
        proof {
            assert(self@.entries =~= old(self)@.visited(i as int).entries);
            old(self).stays_filed(self);
        }
    }

    /// Pays `amount` units of reward to `player` in slot `i`.
    pub(crate) fn pay(&mut self, i: usize, player: G::Player, amount: u32)
        requires
            old(self).tidy(),
            old(self)@.live(i as int),
            old(self)@.entry(i as int).reward(player) + amount <= u128::MAX,
        ensures
            final(self).tidy(),
            final(self)@ == old(self)@.paid(i as int, player, amount as nat),
    {
        match &mut self.nodes[i] {
            Some(node) => {
                credit::<G>(&mut node.rewards, player, amount);
            },
            None => {},
        }
        proof {
            assert(self@.entries =~= old(self)@.paid(i as int, player, amount as nat).entries);
            old(self).stays_filed(self);
        }
    }

    /// Counts one more playout.
    pub(crate) fn tick(&mut self)
        requires
            old(self)@.steps < u64::MAX,
        ensures
            final(self).tidy() == old(self).tidy(),
            final(self)@ == old(self)@.ticked(),
    {
        self.steps = self.steps + 1;
    }

    /// Moves the game to slot `i`.
    pub(crate) fn reroot(&mut self, i: usize)
        ensures
            final(self).tidy() == old(self).tidy(),
            final(self)@ == old(self)@.rooted(i),
    {
        self.root = i;
    }

    /// A search whose slots keep their positions, and whose index is
    /// unchanged, keeps every position filed.
    proof fn stays_filed(&self, after: &Self)
        requires
            covers(self.nodes@, self.index@),
            faithful(self.nodes@, self.index@),
            after.index == self.index,
            after.nodes@.len() == self.nodes@.len(),
            forall|k: int|
                0 <= k < self.nodes@.len() ==> (#[trigger] after.nodes@[k] is Some) == (
                self.nodes@[k] is Some) && (after.nodes@[k] is Some ==> after.nodes@[k]->0.state
                    == self.nodes@[k]->0.state),
        ensures
            covers(after.nodes@, after.index@),
            faithful(after.nodes@, after.index@),
    {
        assert forall|key: u64, x: int|
            after.index@.contains_key(key) && 0 <= x < after.index@[key]@.len() implies has_print(
            after.nodes@,
            #[trigger] after.index@[key]@[x],
            key,
        ) by {
            assert(has_print(self.nodes@, self.index@[key]@[x], key));
        }
    }

    /// Empties the slots that are not marked.
    pub(crate) fn retain(&mut self, marks: &Vec<bool>)
        requires
            old(self).tidy(),
            marks.len() == old(self)@.entries.len(),
        ensures
            final(self).tidy(),
            final(self)@ == old(self)@.kept(marks@),
    {
        let ghost start = self.nodes@;
        let count = self.nodes.len();
        let mut i: usize = 0;
        while i < count
            invariant
                i <= count,
                count == start.len(),
                marks.len() == count,
                self.nodes@.len() == count,
                self.root == old(self).root,
                self.steps == old(self).steps,
                forall|k: int|
                    0 <= k < i ==> #[trigger] self.nodes@[k] == (if marks[k] {
                        start[k]
                    } else {
                        None
                    }),
                forall|k: int| i <= k < count ==> #[trigger] self.nodes@[k] == start[k],
            decreases count - i,
        {
            if !marks[i] {
                self.nodes[i] = None;
            }
            i = i + 1;
        }
        self.index = HashMap::new();
        self.low = 0;
        let mut i: usize = 0;
        while i < count
            invariant
                i <= count,
                self.low == 0,
                self.nodes@.len() == count,
                self.root == old(self).root,
                self.steps == old(self).steps,
                forall|k: int|
                    0 <= k < count ==> #[trigger] self.nodes@[k] == (if marks[k] {
                        start[k]
                    } else {
                        None
                    }),
                faithful(self.nodes@, self.index@),
                forall|k: int|
                    0 <= k < i && (#[trigger] self.nodes@[k]) is Some ==> listed(
                        self.index@,
                        G::fingerprint(self.nodes@[k]->0.state@),
                        k,
                    ),
            decreases count - i,
        {
            let ghost before = self.index@;
            let key = match &self.nodes[i] {
                Some(node) => Some(node.state.get_fingerprint()),
                None => None,
            };
            match key {
                Some(key) => {
                    file(&mut self.index, key, i);
                    proof {
                        self.filed_one_more(before, key, i);
                    }
                },
                None => {},
            }
            i = i + 1;
        }
        proof {
            assert(self@.entries =~= old(self)@.kept(marks@).entries);
        }
    }

    /// Listing a slot under the fingerprint of its position keeps every listing
    /// that was there, and keeps the index faithful.
    proof fn filed_one_more(&self, before: Map<u64, Vec<usize>>, key: u64, slot: usize)
        requires
            faithful(self.nodes@, before),
            has_print(self.nodes@, slot, key),
            self.index@.contains_key(key),
            self.index@[key]@ == (if before.contains_key(key) {
                before[key]@
            } else {
                Seq::empty()
            }).push(slot),
            forall|k: u64| k != key ==> self.index@.contains_key(k) == before.contains_key(k),
            forall|k: u64| k != key && before.contains_key(k) ==> #[trigger] self.index@[k] == before[k],
        ensures
            faithful(self.nodes@, self.index@),
            listed(self.index@, key, slot as int),
            forall|k: u64, i: int| listed(before, k, i) ==> listed(self.index@, k, i),
    {
        let after = self.index@;
        let grown = after[key]@;
        assert(grown[grown.len() - 1] == slot);
        assert forall|k: u64, x: int| after.contains_key(k) && 0 <= x < after[k]@.len() implies has_print(
            self.nodes@,
            #[trigger] after[k]@[x],
            k,
        ) by {
            if k == key {
                if x < grown.len() - 1 {
                    assert(grown[x] == before[key]@[x]);
                }
            } else {
                assert(after[k] == before[k]);
                assert(after[k]@[x] == before[k]@[x]);
            }
        }
        assert forall|k: u64, i: int| listed(before, k, i) implies listed(after, k, i) by {
            let x = choose|x: int| 0 <= x < before[k]@.len() && #[trigger] before[k]@[x] as int == i;
            if k == key {
                assert(grown[x] == before[key]@[x]);
            } else {
                assert(after[k] == before[k]);
                assert(after[k]@[x] as int == i);
            }
        }
    }

    /// The slot that holds `state`, if one does.
    fn find(&self, state: &G) -> (found: Option<usize>)
        requires
            self.tidy(),
        ensures
            match found {
                Some(k) => self@.live(k as int) && self@.entry(k as int).state == state@,
                None => !self@.holds(state@),
            },
    {
        let key = state.get_fingerprint();
        match self.index.get(&key) {
            None => {
                proof {
                    assert forall|k: int| self@.live(k) implies (#[trigger] self@.entry(k)).state
                        != state@ by {
                        assert(self.nodes@[k] is Some);
                        if self@.entry(k).state == state@ {
                            assert(listed(self.index@, key, k));
                        }
                    }
                }
                None
            },
            Some(bucket) => {
                let mut x: usize = 0;
                while x < bucket.len()
                    invariant
                        x <= bucket.len(),
                        self.tidy(),
                        self.index@.contains_key(key),
                        *bucket == self.index@[key],
                        key == G::fingerprint(state@),
                        forall|y: int|
                            0 <= y < x ==> self.nodes@[(#[trigger] bucket[y]) as int]->0.state@
                                != state@,
                    decreases bucket.len() - x,
                {
                    let slot = bucket[x];
                    proof {
                        assert(has_print(self.nodes@, self.index@[key]@[x as int], key));
                    }
                    match &self.nodes[slot] {
                        Some(node) => {
                            if node.state.same_state(state) {
                                return Some(slot);
                            }
                        },
                        None => {},
                    }
                    x = x + 1;
                }
                proof {
                    assert forall|k: int| self@.live(k) implies (#[trigger] self@.entry(k)).state
                        != state@ by {
                        assert(self.nodes@[k] is Some);
                        if self@.entry(k).state == state@ {
                            assert(listed(self.index@, key, k));
                            let y = choose|y: int|
                                0 <= y < self.index@[key]@.len() && #[trigger] self.index@[key]@[y] as int
                                    == k;
                            assert(bucket[y] as int == k);
                        }
                    }
                }
                None
            },
        }
    }

    /// The first empty slot.
    fn first_free(&self) -> (first: usize)
        requires
            self.tidy(),
        ensures
            self@.vacant_at(first as int),
    {
        let mut i: usize = self.low;
        while i < self.nodes.len()
            invariant
                self.low <= i <= self.nodes.len(),
                forall|k: int| 0 <= k < i ==> #[trigger] self@.live(k),
            decreases self.nodes.len() - i,
        {
            if self.nodes[i].is_none() {
                return i;
            }
            i = i + 1;
        }
        i
    }

    /// Takes `state` into the table, unless it is there, and gives its slot.
    pub(crate) fn intern(&mut self, state: G) -> (slot: usize)
        requires
            old(self).tidy(),
            old(self)@.sound(),
            G::valid(state@),
        ensures
            final(self).tidy(),
            final(self)@ == old(self)@.interned(state@),
            slot == old(self)@.home(state@),
    {
        match self.find(&state) {
            Some(k) => {
                proof {
                    self@.slot_is(state@, k as int);
                }
                k
            },
            None => {
                let free = self.first_free();
                proof {
                    self@.vacancy_is(free as int);
                }
                let key = state.get_fingerprint();
                let node = Node::new(state);
                if free < self.nodes.len() {
                    self.nodes[free] = Some(node);
                } else {
                    self.nodes.push(Some(node));
                }
                let ghost before = self.index@;
                proof {
                    assert forall|k: u64, x: int|
                        before.contains_key(k) && 0 <= x < before[k]@.len() implies has_print(
                        self.nodes@,
                        #[trigger] before[k]@[x],
                        k,
                    ) by {
                        assert(has_print(old(self).nodes@, before[k]@[x], k));
                    }
                }
                file(&mut self.index, key, free);
                assert(free < self.nodes.len());
                self.low = free + 1;
                proof {
                    self.filed_one_more(before, key, free);
                    assert(self@.entries =~= old(self)@.interned(state@).entries);
                    assert forall|i: int| 0 <= i < self.low implies (#[trigger] self.nodes@[i]) is Some by {
                        if i < free {
                            assert(old(self)@.live(i));
                        }
                    }
                    assert(self.neat()) by {
                        assert forall|i: int|
                            0 <= i < self.nodes@.len() && (#[trigger] self.nodes@[i]) is Some implies self.nodes@[i]->0.tidy() by {
                            if i != free {
                                assert(old(self).nodes@[i] is Some);
                            }
                        }
                    }
                    assert forall|i: int|
                        0 <= i < self.nodes@.len() && (#[trigger] self.nodes@[i]) is Some implies listed(
                        self.index@,
                        G::fingerprint(self.nodes@[i]->0.state@),
                        i,
                    ) by {
                        if i != free {
                            assert(old(self).nodes@[i] is Some);
                            assert(listed(before, G::fingerprint(old(self).nodes@[i]->0.state@), i));
                        }
                    }
                }
                free
            },
        }
    }
}

} // verus!
