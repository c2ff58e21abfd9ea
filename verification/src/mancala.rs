//! A sowing game for two players.  Each player has a row of six pits and a
//! store.  A move lifts the seeds of one of the mover's pits and sows them one
//! by one into the pits that follow: the rest of the mover's row, the mover's
//! store, the opponent's row, and round again.

use crate::game::{mix, mixed, pair_table, pair_tallies, Game, InvalidAction};
use vstd::prelude::*;

verus! {

/// The two players.
#[derive(PartialEq, Eq, Structural, Hash, Clone, Copy, Debug)]
pub enum Player {
    A,
    B,
}

impl Player {
    /// The opponent.
    pub open spec fn opponent(self) -> Player {
        match self {
            Player::A => Player::B,
            Player::B => Player::A,
        }
    }

    /// The place of the player's first pit among the cells of the board.
    pub open spec fn base(self) -> int {
        match self {
            Player::A => 0,
            Player::B => 7,
        }
    }

    /// The number that stands for the player in a fingerprint.
    pub open spec fn code(self) -> int {
        match self {
            Player::A => 0,
            Player::B => 1,
        }
    }

    /// The number that stands for the player in a fingerprint.
    fn number(&self) -> (code: u8)
        ensures
            code == self.code(),
    {
        match self {
            Player::A => 0,
            Player::B => 1,
        }
    }

    /// The opponent.
    pub fn other(&self) -> (player: Player)
        ensures
            player == self.opponent(),
    {
        match self {
            Player::A => Player::B,
            Player::B => Player::A,
        }
    }

    /// The place of the player's first pit among the cells of the board.
    fn first_pit(&self) -> (place: usize)
        ensures
            place == self.base(),
    {
        match self {
            Player::A => 0,
            Player::B => 7,
        }
    }
}

/// The number of pits in a row.
pub const PITS: usize = 6;

/// The number of cells of the board: two rows of pits, each followed by its
/// player's store.
pub const CELLS: usize = 14;

/// The number of seeds in each pit when the game begins.
pub const SEEDS: u8 = 4;

/// A position as mathematics: the player to move and the seeds in each cell.
/// The cells are the pits of `A`, the store of `A`, the pits of `B` and the
/// store of `B`, in the order of sowing.
pub struct Board {
    pub player: Player,
    pub cells: Seq<nat>,
}

/// The cell at step `p` of the round that `mover` sows: the mover's six pits,
/// then the mover's store, then the opponent's six pits.
pub open spec fn cell_at(mover: Player, p: int) -> int {
    if mover.base() + p >= 14 {
        mover.base() + p - 14
    } else {
        mover.base() + p
    }
}

/// The step after step `p` of a round of sowing.
pub open spec fn following(p: int) -> int {
    if p >= 12 {
        0
    } else {
        p + 1
    }
}

/// The step at which the last of `seeds` seeds lands when sowing starts after
/// step `p`.
pub open spec fn landing(p: int, seeds: nat) -> int
    decreases seeds,
{
    if seeds == 0 {
        p
    } else {
        landing(following(p), (seeds - 1) as nat)
    }
}

/// The cells after `mover` has sown `seeds` seeds, one into each step after
/// step `p`.
pub open spec fn sown(cells: Seq<nat>, mover: Player, p: int, seeds: nat) -> Seq<nat>
    decreases seeds,
{
    if seeds == 0 {
        cells
    } else {
        let at = cell_at(mover, following(p));
        sown(cells.update(at, cells[at] + 1), mover, following(p), (seeds - 1) as nat)
    }
}

/// The seeds in the six pits that start at cell `base`.
#[verifier::opaque]
pub open spec fn row_sum(cells: Seq<nat>, base: int) -> nat {
    cells[base] + cells[base + 1] + cells[base + 2] + cells[base + 3] + cells[base + 4] + cells[base
        + 5]
}

/// The seeds in the pits of both rows.
pub open spec fn in_play(cells: Seq<nat>) -> nat {
    row_sum(cells, 0) + row_sum(cells, 7)
}

/// All the seeds: those in the pits and those in the two stores.
pub open spec fn total(cells: Seq<nat>) -> nat {
    in_play(cells) + cells[6] + cells[13]
}

/// The way that the seeds of the row at `base` have to go to its end: each
/// seed counts the pits from its own to the end of the row.
#[verifier::opaque]
pub open spec fn row_way(cells: Seq<nat>, base: int) -> nat {
    6 * cells[base] + 5 * cells[base + 1] + 4 * cells[base + 2] + 3 * cells[base + 3] + 2
        * cells[base + 4] + cells[base + 5]
}

/// The way that the seeds in play have to go to the ends of their rows.
pub open spec fn way(cells: Seq<nat>) -> nat {
    row_way(cells, 0) + row_way(cells, 7)
}

/// The fingerprint `print` with the seeds of `cells` worked into it in order.
pub open spec fn cells_print(cells: Seq<nat>, print: u64) -> u64
    decreases cells.len(),
{
    if cells.len() == 0 {
        print
    } else {
        mixed(cells_print(cells.drop_last(), print), cells.last() as int)
    }
}

/// The pits among the first `n` of `mover` that hold seeds, in order.
pub open spec fn sowable(cells: Seq<nat>, mover: Player, n: int) -> Seq<usize>
    decreases n,
{
    if n <= 0 {
        Seq::empty()
    } else if cells[mover.base() + n - 1] != 0 {
        sowable(cells, mover, n - 1).push((n - 1) as usize)
    } else {
        sowable(cells, mover, n - 1)
    }
}

impl Board {
    /// Whether the board has its fourteen cells and no more seeds than a cell
    /// can count.
    pub open spec fn well_formed(self) -> bool {
        self.cells.len() == 14 && total(self.cells) <= u8::MAX
    }

    /// The list of the final scores if a row is empty, in units of reward:
    /// each player's store and row are counted, and the player with more seeds
    /// comes first with two units, or `A` comes first and each player has one
    /// unit if they have the same.
    pub open spec fn score_list(self) -> Option<Seq<(Player, u32)>> {
        let a = self.cells[6] + row_sum(self.cells, 0);
        let b = self.cells[13] + row_sum(self.cells, 7);
        if row_sum(self.cells, 0) != 0 && row_sum(self.cells, 7) != 0 {
            None
        } else if a > b {
            Some(seq![(Player::A, 2u32), (Player::B, 0u32)])
        } else if a < b {
            Some(seq![(Player::B, 2u32), (Player::A, 0u32)])
        } else {
            Some(seq![(Player::A, 1u32), (Player::B, 1u32)])
        }
    }

    /// The final scores by player, if a row is empty.
    pub open spec fn scores(self) -> Option<Map<Player, nat>> {
        match self.score_list() {
            Some(list) => Some(pair_table(list)),
            None => None,
        }
    }

    /// The position with `player` to move and the seeds of `cells`.
    pub open spec fn with_seeds(player: Player, cells: Seq<u8>) -> Board {
        Board { player, cells: counts(cells) }
    }

    /// The position after the player to move has sown pit `pit`.  The seeds of
    /// the pit are lifted and sown.  If the last lands in the mover's store,
    /// the mover moves again.  If it lands in a pit of the mover that was empty,
    /// opposite a pit of the opponent that is not, both pits are emptied into
    /// the mover's store.
    pub open spec fn moved(self, pit: int) -> Board {
        let mover = self.player;
        let from = cell_at(mover, pit);
        let seeds = self.cells[from];
        let cells = sown(self.cells.update(from, 0), mover, pit, seeds);
        let last = landing(pit, seeds);
        let own = cell_at(mover, last);
        let facing = cell_at(mover.opponent(), 5 - last);
        let store = cell_at(mover, 6);
        if last == 6 {
            Board { player: mover, cells }
        } else if last < 6 && cells[own] == 1 && cells[facing] != 0 {
            Board {
                player: mover.opponent(),
                cells: cells.update(own, 0).update(facing, 0).update(
                    store,
                    cells[store] + cells[facing] + 1,
                ),
            }
        } else {
            Board { player: mover.opponent(), cells }
        }
    }

    /// A bound on the moves left to play: the seeds in play weigh most, then
    /// the way they have to go.
    pub open spec fn moves_left(self) -> nat {
        1530 * in_play(self.cells) + way(self.cells)
    }
}

/// Whether cell `i` is one of the two stores.
pub open spec fn is_store(i: int) -> bool {
    i == 6 || i == 13
}

/// The pits from the pit in cell `i` to the end of its row, that pit
/// included; nothing for a store.
pub open spec fn weight(i: int) -> int {
    if i < 6 {
        6 - i
    } else if i == 6 {
        0
    } else if i < 13 {
        13 - i
    } else {
        0
    }
}

/// The seeds of a board as numbers.
pub open spec fn counts(cells: Seq<u8>) -> Seq<nat> {
    Seq::new(cells.len(), |i: int| cells[i] as nat)
}

/// What a change of one cell does to the sums over the board.
pub proof fn cell_set(cells: Seq<nat>, i: int, seeds: nat)
    requires
        cells.len() == 14,
        0 <= i < 14,
    ensures
        cells.update(i, seeds).len() == 14,
        total(cells.update(i, seeds)) + cells[i] == total(cells) + seeds,
        is_store(i) ==> in_play(cells.update(i, seeds)) == in_play(cells) && way(
            cells.update(i, seeds),
        ) == way(cells),
        !is_store(i) ==> in_play(cells.update(i, seeds)) + cells[i] == in_play(cells) + seeds && way(
            cells.update(i, seeds),
        ) + weight(i) * cells[i] == way(cells) + weight(i) * seeds,
{
    reveal(row_sum);
    reveal(row_way);
    let next = cells.update(i, seeds);
    if i == 0 {
    } else if i == 1 {
    } else if i == 2 {
    } else if i == 3 {
    } else if i == 4 {
    } else if i == 5 {
    } else if i == 6 {
    } else if i == 7 {
    } else if i == 8 {
    } else if i == 9 {
    } else if i == 10 {
    } else if i == 11 {
    } else if i == 12 {
    } else {
    }
}

/// The seeds in play have at most six pits to go each, no cell holds more
/// seeds than the board, and no pit more than are in play.
pub proof fn sums_bounded(cells: Seq<nat>, i: int)
    requires
        cells.len() == 14,
        0 <= i < 14,
    ensures
        way(cells) <= 6 * in_play(cells),
        cells[i] <= total(cells),
        !is_store(i) ==> cells[i] <= in_play(cells),
{
    reveal(row_sum);
    reveal(row_way);
}

/// The step at which sowing ends is a step of the round: as many steps on as
/// seeds are sown, where that does not pass the end of the round.
pub proof fn landing_in_round(p: int, seeds: nat)
    requires
        0 <= p <= 12,
    ensures
        0 <= landing(p, seeds) <= 12,
        p + seeds <= 12 ==> landing(p, seeds) == p + seeds,
    decreases seeds,
{
    if seeds > 0 {
        landing_in_round(following(p), (seeds - 1) as nat);
    }
}

/// Sowing puts every seed on the board.  Sowing that passes the mover's store
/// puts fewer seeds into the pits than are sown.  Sowing that ends in the
/// mover's row before the store puts all the seeds into pits, each nearer to
/// the end of the row than the step that sowing starts after.
pub proof fn sown_counts(cells: Seq<nat>, mover: Player, p: int, seeds: nat)
    requires
        cells.len() == 14,
        0 <= p <= 12,
    ensures
        sown(cells, mover, p, seeds).len() == 14,
        total(sown(cells, mover, p, seeds)) == total(cells) + seeds,
        in_play(sown(cells, mover, p, seeds)) <= in_play(cells) + seeds,
        p <= 5 && p + seeds >= 6 ==> in_play(sown(cells, mover, p, seeds)) < in_play(cells) + seeds,
        p + seeds <= 5 ==> in_play(sown(cells, mover, p, seeds)) == in_play(cells) + seeds && way(
            sown(cells, mover, p, seeds),
        ) <= way(cells) + seeds * (5 - p),
    decreases seeds,
{
    if seeds > 0 {
        let at = cell_at(mover, following(p));
        let next = cells.update(at, cells[at] + 1);
        cell_set(cells, at, cells[at] + 1);
        sown_counts(next, mover, following(p), (seeds - 1) as nat);
        if p + seeds <= 5 {
            assert(weight(at) == 5 - p);
            assert(weight(at) * (cells[at] + 1) == weight(at) * cells[at] + weight(at))
                by (nonlinear_arith);
            assert((seeds - 1) * (5 - (p + 1)) + (5 - p) <= seeds * (5 - p)) by (nonlinear_arith)
                requires
                    seeds >= 1,
                    p <= 5,
            ;
        }
    }
}

/// The pits listed as sowable are those that hold seeds, each once.
pub proof fn sowable_lists(cells: Seq<nat>, mover: Player, n: int)
    requires
        0 <= n <= 6,
    ensures
        sowable(cells, mover, n).no_duplicates(),
        forall|pit: usize|
            sowable(cells, mover, n).contains(pit) <==> pit < n && cells[mover.base() + pit] != 0,
    decreases n,
{
    if n > 0 {
        sowable_lists(cells, mover, n - 1);
        let before = sowable(cells, mover, n - 1);
        let last = (n - 1) as usize;
        if cells[mover.base() + n - 1] != 0 {
            let after = before.push(last);
            assert(!before.contains(last));
            assert forall|pit: usize|
                after.contains(pit) <==> pit < n && cells[mover.base() + pit] != 0 by {
                if after.contains(pit) {
                    let i = choose|i: int| 0 <= i < after.len() && after[i] == pit;
                    if i < before.len() {
                        assert(before[i] == pit);
                        assert(before.contains(pit));
                    }
                }
                if pit < n && cells[mover.base() + pit] != 0 {
                    if pit == last {
                        assert(after[before.len() as int] == pit);
                    } else {
                        assert(before.contains(pit));
                        let i = choose|i: int| 0 <= i < before.len() && before[i] == pit;
                        assert(after[i] == pit);
                    }
                }
            }
            assert forall|i: int, j: int|
                0 <= i < after.len() && 0 <= j < after.len() && i != j implies after[i]
                != after[j] by {
                if i < before.len() {
                    assert(before.contains(before[i]));
                }
                if j < before.len() {
                    assert(before.contains(before[j]));
                }
            }
        }
    }
}

/// A move keeps all the seeds on the board: the pits and the stores hold as
/// many after it as before.
pub proof fn move_keeps_seeds(board: Board, pit: int)
    requires
        board.well_formed(),
        0 <= pit < 6,
    ensures
        board.moved(pit).cells.len() == 14,
        total(board.moved(pit).cells) == total(board.cells),
{
    let mover = board.player;
    let from = cell_at(mover, pit);
    let seeds = board.cells[from];
    let lifted = board.cells.update(from, 0);
    cell_set(board.cells, from, 0);
    sown_counts(lifted, mover, pit, seeds);
    landing_in_round(pit, seeds);
    let cells = sown(lifted, mover, pit, seeds);
    let last = landing(pit, seeds);
    if last < 6 {
        let own = cell_at(mover, last);
        let facing = cell_at(mover.opponent(), 5 - last);
        let store = cell_at(mover, 6);
        let first = cells.update(own, 0);
        let second = first.update(facing, 0);
        cell_set(cells, own, 0);
        cell_set(first, facing, 0);
        cell_set(second, store, cells[store] + cells[facing] + 1);
    }
}

/// A move of a pit that holds seeds leaves fewer moves to play.
pub proof fn move_shortens(board: Board, pit: int)
    requires
        board.well_formed(),
        0 <= pit < 6,
        board.cells[cell_at(board.player, pit)] != 0,
    ensures
        board.moved(pit).moves_left() < board.moves_left(),
{
    let mover = board.player;
    let from = cell_at(mover, pit);
    let seeds = board.cells[from];
    let lifted = board.cells.update(from, 0);
    let cells = sown(lifted, mover, pit, seeds);
    cell_set(board.cells, from, 0);
    sown_counts(lifted, mover, pit, seeds);
    landing_in_round(pit, seeds);
    let last = landing(pit, seeds);
    let after = board.moved(pit).cells;
    assert(weight(from) == 6 - pit);
    assert(weight(from) * 0 == 0);
    assert(in_play(lifted) + seeds == in_play(board.cells));
    assert(way(lifted) + (6 - pit) * seeds == way(board.cells));
    sums_bounded(board.cells, from);
    sums_bounded(cells, from);
    if last < 6 && cells[cell_at(mover, last)] == 1 && cells[cell_at(mover.opponent(), 5 - last)]
        != 0 {
        let own = cell_at(mover, last);
        let facing = cell_at(mover.opponent(), 5 - last);
        let store = cell_at(mover, 6);
        let first = cells.update(own, 0);
        let second = first.update(facing, 0);
        cell_set(cells, own, 0);
        cell_set(first, facing, 0);
        cell_set(second, store, cells[store] + cells[facing] + 1);
        assert(in_play(after) + 2 <= in_play(cells));
        sums_bounded(after, from);
    } else {
        assert(after == cells);
        if pit + seeds <= 5 {
            assert(seeds * (5 - pit) + seeds == (6 - pit) * seeds) by (nonlinear_arith);
        }
    }
}

/// Where the game is over, one player has won and the other lost, or the game
/// is drawn: the two scores are two units and none, or one unit each.
pub proof fn scores_are_a_win_or_a_draw(board: Board)
    requires
        board.scores() is Some,
    ensures
        board.scores()->0.dom() =~= set![Player::A, Player::B],
        ({
            let a = board.scores()->0[Player::A];
            let b = board.scores()->0[Player::B];
            (a == 2 && b == 0) || (a == 0 && b == 2) || (a == 1 && b == 1)
        }),
{
}

/// The steps from step `p` of a round on to step `q`: thirteen if they are the
/// same step.
pub open spec fn steps_to(p: int, q: int) -> int {
    if q > p {
        q - p
    } else {
        q - p + 13
    }
}

/// Sowing at most thirteen seeds ends as many steps on as seeds are sown.
pub proof fn landing_within_a_round(p: int, seeds: nat)
    requires
        0 <= p <= 12,
        seeds <= 13,
    ensures
        landing(p, seeds) == (if p + seeds <= 12 {
            p + seeds
        } else {
            p + seeds - 13
        }),
        seeds >= 1 ==> steps_to(p, landing(p, seeds)) == seeds,
    decreases seeds,
{
    if seeds > 0 {
        landing_within_a_round(following(p), (seeds - 1) as nat);
    }
}

/// Sowing at most thirteen seeds puts one seed into each cell that it comes
/// to, and none into the others.
pub proof fn sown_once(cells: Seq<nat>, mover: Player, p: int, seeds: nat, q: int)
    requires
        cells.len() == 14,
        0 <= p <= 12,
        0 <= q <= 12,
        seeds <= 13,
    ensures
        sown(cells, mover, p, seeds)[cell_at(mover, q)] == cells[cell_at(mover, q)] + (if steps_to(
            p,
            q,
        ) <= seeds {
            1nat
        } else {
            0nat
        }),
    decreases seeds,
{
    if seeds > 0 {
        let at = cell_at(mover, following(p));
        sown_once(cells.update(at, cells[at] + 1), mover, following(p), (seeds - 1) as nat, q);
    }
}

/// A capture empties two pits into the mover's store.  When the last of at
/// most thirteen seeds lands in a pit of the mover that was empty, or is the
/// pit that was lifted, and the opponent's pit opposite holds seeds, the move
/// leaves both pits empty, adds the seeds of both to the mover's store, and
/// passes the turn.
pub proof fn capture_takes_both(board: Board, pit: int)
    requires
        board.well_formed(),
        0 <= pit < 6,
        1 <= board.cells[cell_at(board.player, pit)] <= 13,
        landing(pit, board.cells[cell_at(board.player, pit)]) < 6,
        board.cells[cell_at(board.player, landing(pit, board.cells[cell_at(board.player, pit)]))]
            == 0 || landing(pit, board.cells[cell_at(board.player, pit)]) == pit,
        board.cells[cell_at(
            board.player.opponent(),
            5 - landing(pit, board.cells[cell_at(board.player, pit)]),
        )] != 0,
    ensures
        ({
            let mover = board.player;
            let seeds = board.cells[cell_at(mover, pit)];
            let cells = sown(board.cells.update(cell_at(mover, pit), 0), mover, pit, seeds);
            let own = cell_at(mover, landing(pit, seeds));
            let facing = cell_at(mover.opponent(), 5 - landing(pit, seeds));
            let store = cell_at(mover, 6);
            &&& board.moved(pit).player == mover.opponent()
            &&& board.moved(pit).cells[own] == 0
            &&& board.moved(pit).cells[facing] == 0
            &&& cells[own] == 1
            &&& cells[facing] >= board.cells[facing]
            &&& board.moved(pit).cells[store] == cells[store] + cells[facing] + 1
            &&& forall|i: int|
                0 <= i < 14 && i != own && i != facing && i != store ==> board.moved(pit).cells[i]
                    == cells[i]
        }),
{
    let mover = board.player;
    let seeds = board.cells[cell_at(mover, pit)];
    let lifted = board.cells.update(cell_at(mover, pit), 0);
    let last = landing(pit, seeds);
    sown_counts(lifted, mover, pit, seeds);
    landing_in_round(pit, seeds);
    landing_within_a_round(pit, seeds);
    sown_once(lifted, mover, pit, seeds, last);
    sown_once(lifted, mover, pit, seeds, 12 - last);
    assert(cell_at(mover, 12 - last) == cell_at(mover.opponent(), 5 - last));
}

/// A position of the game.
#[derive(PartialEq, Eq, Hash, Clone)]
pub struct Mancala {
    player: Player,
    cells: Vec<u8>,
}

impl View for Mancala {
    type V = Board;

    closed spec fn view(&self) -> Board {
        Board { player: self.player, cells: counts(self.cells@) }
    }
}

impl Mancala {
    /// The position at which the game begins: four seeds in each pit, empty
    /// stores, and `A` to move.
    pub fn new() -> (game: Mancala)
        ensures
            game@.well_formed(),
            game@.player == Player::A,
            game@.cells == seq![4nat, 4, 4, 4, 4, 4, 0, 4, 4, 4, 4, 4, 4, 0],
            total(game@.cells) == 48,
    {
        let mut cells: Vec<u8> = Vec::new();
        let mut i: usize = 0;
        while i < CELLS
            invariant
                i <= CELLS,
                cells.len() == i,
                forall|k: int| 0 <= k < i ==> cells[k] == (if k == 6 || k == 13 {
                    0u8
                } else {
                    SEEDS
                }),
            decreases CELLS - i,
        {
            if i == 6 || i == 13 {
                cells.push(0);
            } else {
                cells.push(SEEDS);
            }
            i = i + 1;
        }
        let game = Mancala { player: Player::A, cells };
        proof {
            reveal(row_sum);
            assert(game@.cells =~= seq![4nat, 4, 4, 4, 4, 4, 0, 4, 4, 4, 4, 4, 4, 0]);
        }
        game
    }

    /// The position with `player` to move and the seeds of `cells`: the pits of
    /// `A`, the store of `A`, the pits of `B` and the store of `B`.  There is
    /// none unless the cells are fourteen and hold no more seeds than a cell
    /// can count.
    pub fn from_cells(player: Player, cells: Vec<u8>) -> (game: Option<Mancala>)
        ensures
            game is Some <==> cells@.len() == 14 && total(counts(cells@)) <= u8::MAX,
            game is Some ==> game->0@ == Board::with_seeds(player, cells@),
    {
        if cells.len() != CELLS {
            return None;
        }
        proof {
            reveal(row_sum);
        }
        let row_a: u32 = cells[0] as u32 + cells[1] as u32 + cells[2] as u32 + cells[3] as u32
            + cells[4] as u32 + cells[5] as u32;
        let row_b: u32 = cells[7] as u32 + cells[8] as u32 + cells[9] as u32 + cells[10] as u32
            + cells[11] as u32 + cells[12] as u32;
        if row_a + row_b + cells[6] as u32 + cells[13] as u32 > 255 {
            return None;
        }
        Some(Mancala { player, cells })
    }

    /// The seeds in pit `pit` of `player`.
    pub fn pit(&self, player: Player, pit: usize) -> (seeds: u8)
        requires
            self@.well_formed(),
            pit < 6,
        ensures
            seeds == self@.cells[cell_at(player, pit as int)],
    {
        self.cells[player.first_pit() + pit]
    }

    /// The seeds in the store of `player`.
    pub fn store(&self, player: Player) -> (seeds: u8)
        requires
            self@.well_formed(),
        ensures
            seeds == self@.cells[cell_at(player, 6)],
    {
        self.cells[player.first_pit() + 6]
    }

    /// The seeds in the row of pits that starts at cell `base`.
    fn row(&self, base: usize) -> (seeds: u8)
        requires
            self@.well_formed(),
            base == 0 || base == 7,
        ensures
            seeds == row_sum(self@.cells, base as int),
    {
        let mut seeds: u8 = 0;
        let mut i: usize = 0;
        while i < PITS
            invariant
                i <= PITS,
                self@.well_formed(),
                base == 0 || base == 7,
                seeds == (if i > 0 {
                    self@.cells[base as int]
                } else {
                    0
                }) + (if i > 1 {
                    self@.cells[base + 1]
                } else {
                    0
                }) + (if i > 2 {
                    self@.cells[base + 2]
                } else {
                    0
                }) + (if i > 3 {
                    self@.cells[base + 3]
                } else {
                    0
                }) + (if i > 4 {
                    self@.cells[base + 4]
                } else {
                    0
                }) + (if i > 5 {
                    self@.cells[base + 5]
                } else {
                    0
                }),
            decreases PITS - i,
        {
            proof {
                reveal(row_sum);
                sums_bounded(self@.cells, base + i);
            }
            seeds = seeds + self.cells[base + i];
            i = i + 1;
        }
        proof {
            reveal(row_sum);
        }
        seeds
    }
}

impl Game for Mancala {
    type Player = Player;

    type Action = usize;

    open spec fn valid(state: Board) -> bool {
        state.well_formed()
    }

    open spec fn legal(state: Board) -> Seq<usize> {
        sowable(state.cells, state.player, 6)
    }

    open spec fn mover(state: Board) -> Player {
        state.player
    }

    open spec fn outcome(state: Board) -> Option<Map<Player, nat>> {
        state.scores()
    }

    open spec fn successor(state: Board, action: usize) -> Board {
        state.moved(action as int)
    }

    open spec fn horizon(state: Board) -> nat {
        state.moves_left()
    }

    open spec fn fingerprint(state: Board) -> u64 {
        cells_print(state.cells, state.player.code() as u64)
    }

    proof fn rules(state: Board) {
        sowable_lists(state.cells, state.player, 6);
        if state.scores() is None {
            reveal(row_sum);
            let base = state.player.base();
            assert(row_sum(state.cells, base) != 0);
            let pit: usize = if state.cells[base] != 0 {
                0
            } else if state.cells[base + 1] != 0 {
                1
            } else if state.cells[base + 2] != 0 {
                2
            } else if state.cells[base + 3] != 0 {
                3
            } else if state.cells[base + 4] != 0 {
                4
            } else {
                5
            };
            assert(sowable(state.cells, state.player, 6).contains(pit));
        }
        assert forall|a: usize| #[trigger] sowable(state.cells, state.player, 6).contains(a) implies Self::valid(
            Self::successor(state, a),
        ) && Self::horizon(Self::successor(state, a)) < Self::horizon(state) by {
            move_keeps_seeds(state, a as int);
            move_shortens(state, a as int);
        }
    }

    proof fn movers_are_scored(state: Board, end: Board) {
    }

    fn list_actions(&self) -> (actions: Vec<usize>) {
        let base = self.player.first_pit();
        let mut actions: Vec<usize> = Vec::new();
        let mut i: usize = 0;
        while i < PITS
            invariant
                i <= PITS,
                self@.well_formed(),
                base == self@.player.base(),
                actions@ == sowable(self@.cells, self@.player, i as int),
            decreases PITS - i,
        {
            if self.cells[base + i] != 0 {
                actions.push(i);
            }
            i = i + 1;
        }
        actions
    }

    fn get_current_player(&self) -> (player: Player) {
        self.player
    }

    fn get_player_final_scores(&self) -> (scores: Option<Vec<(Player, u32)>>)
        ensures
            scores is Some ==> Some(scores->0@) == self@.score_list(),
    {
        let row_a = self.row(0);
        let row_b = self.row(7);
        if row_a != 0 && row_b != 0 {
            return None;
        }
        let a_score = self.cells[6] + row_a;
        let b_score = self.cells[13] + row_b;
        let mut scores: Vec<(Player, u32)> = Vec::new();
        if a_score > b_score {
            scores.push((Player::A, 2));
            scores.push((Player::B, 0));
        } else if a_score < b_score {
            scores.push((Player::B, 2));
            scores.push((Player::A, 0));
        } else {
            scores.push((Player::A, 1));
            scores.push((Player::B, 1));
        }
        proof {
            assert(scores@ =~= self@.score_list()->0);
            pair_tallies(scores@);
        }
        Some(scores)
    }

    fn do_action(self, action: usize) -> (next: Result<Mancala, InvalidAction>) {
        let ghost start = self@;
        let mover = self.player;
        let base = mover.first_pit();
        proof {
            sowable_lists(start.cells, start.player, 6);
        }
        if action >= PITS || self.cells[base + action] == 0 {
            return Err(InvalidAction);
        }
        let mut cells = self.cells;
        let mut seeds: u8 = cells[base + action];
        let ghost lifted = start.cells.update(cell_at(mover, action as int), 0);
        let ghost count = start.cells[cell_at(mover, action as int)];
        proof {
            cell_set(start.cells, cell_at(mover, action as int), 0);
        }
        cells[base + action] = 0;
        let mut step: usize = action;
        proof {
            assert(counts(cells@) =~= lifted);
        }
        while seeds > 0
            invariant
                cells.len() == 14,
                step <= 12,
                base == mover.base(),
                total(counts(cells@)) + seeds <= u8::MAX,
                sown(counts(cells@), mover, step as int, seeds as nat) == sown(
                    lifted,
                    mover,
                    action as int,
                    count,
                ),
                landing(step as int, seeds as nat) == landing(action as int, count),
            decreases seeds,
        {
            let ghost before = counts(cells@);
            step = if step >= 12 {
                0
            } else {
                step + 1
            };
            let at = if base + step >= CELLS {
                base + step - CELLS
            } else {
                base + step
            };
            proof {
                cell_set(before, at as int, before[at as int] + 1);
                sums_bounded(before, at as int);
            }
            cells[at] = cells[at] + 1;
            seeds = seeds - 1;
            proof {
                assert(counts(cells@) =~= before.update(at as int, before[at as int] + 1));
            }
        }
        let ghost after = counts(cells@);
        proof {
            sown_counts(lifted, mover, action as int, count);
            landing_in_round(action as int, count);
            assert(after == sown(lifted, mover, action as int, count));
        }
        if step == 6 {
            return Ok(Mancala { player: mover, cells });
        }
        if step < 6 {
            let own = base + step;
            let facing = mover.other().first_pit() + 5 - step;
            if cells[own] == 1 && cells[facing] != 0 {
                proof {
                    let first = after.update(own as int, 0);
                    let second = first.update(facing as int, 0);
                    cell_set(after, own as int, 0);
                    cell_set(first, facing as int, 0);
                    sums_bounded(second, base + 6);
                    sums_bounded(after, facing as int);
                }
                let prize = cells[facing] + 1;
                cells[own] = 0;
                cells[facing] = 0;
                cells[base + 6] = cells[base + 6] + prize;
                let game = Mancala { player: mover.other(), cells };
                proof {
                    assert(game@.cells =~= start.moved(action as int).cells);
                }
                return Ok(game);
            }
        }
        Ok(Mancala { player: mover.other(), cells })
    }

    fn get_fingerprint(&self) -> (print: u64) {
        let mut print: u64 = self.player.number() as u64;
        let mut i: usize = 0;
        while i < self.cells.len()
            invariant
                i <= self.cells.len(),
                print == cells_print(self@.cells.take(i as int), self.player.code() as u64),
            decreases self.cells.len() - i,
        {
            proof {
                assert(self@.cells.take(i + 1).drop_last() =~= self@.cells.take(i as int));
                assert(self@.cells.take(i + 1).last() == self.cells[i as int] as nat);
            }
            print = mix(print, self.cells[i]);
            i = i + 1;
        }
        proof {
            assert(self@.cells.take(self.cells.len() as int) =~= self@.cells);
        }
        print
    }

    fn same_state(&self, other: &Mancala) -> (same: bool) {
        if self.player != other.player {
            assert(self@.player != other@.player);
            return false;
        }
        if self.cells.len() != other.cells.len() {
            assert(self@.cells.len() != other@.cells.len());
            return false;
        }
        let mut i: usize = 0;
        while i < self.cells.len()
            invariant
                i <= self.cells.len(),
                self.cells.len() == other.cells.len(),
                self.player == other.player,
                forall|k: int| 0 <= k < i ==> self.cells[k] == other.cells[k],
            decreases self.cells.len() - i,
        {
            if self.cells[i] != other.cells[i] {
                assert(self@.cells[i as int] != other@.cells[i as int]);
                return false;
            }
            i = i + 1;
        }
        assert(self@.cells =~= other@.cells);
        true
    }

    fn same_player(one: &Player, other: &Player) -> (same: bool) {
        *one == *other
    }

    fn duplicate(&self) -> (copy: Mancala) {
        let mut cells: Vec<u8> = Vec::new();
        let mut i: usize = 0;
        while i < self.cells.len()
            invariant
                i <= self.cells.len(),
                cells.len() == i,
                forall|k: int| 0 <= k < i ==> cells[k] == self.cells[k],
            decreases self.cells.len() - i,
        {
            cells.push(self.cells[i]);
            i = i + 1;
        }
        let copy = Mancala { player: self.player, cells };
        assert(copy@.cells =~= self@.cells);
        copy
    }
}

} // verus!
