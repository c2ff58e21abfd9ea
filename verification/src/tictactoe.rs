//! Noughts and crosses on a square grid of any size: a player wins by filling
//! a whole row, column or diagonal, and a full grid without a winner is a draw.

use crate::game::{mix, mixed, pair_table, pair_tallies, Game, InvalidAction};
use vstd::prelude::*;

verus! {

/// What a cell of the grid holds.  The two marks are also the two players.
#[derive(Debug, PartialEq, Eq, Structural, Clone, Copy, Hash)]
pub enum Square {
    Empty,
    Circle,
    Cross,
}

impl Square {
    /// The mark of the opponent.
    pub open spec fn opponent(self) -> Square {
        match self {
            Square::Circle => Square::Cross,
            _ => Square::Circle,
        }
    }

    /// The number that stands for the mark in a fingerprint.
    pub open spec fn code(self) -> int {
        match self {
            Square::Empty => 0,
            Square::Circle => 1,
            Square::Cross => 2,
        }
    }

    /// The number that stands for the mark in a fingerprint.
    fn number(&self) -> (code: u8)
        ensures
            code == self.code(),
    {
        match self {
            Square::Empty => 0,
            Square::Circle => 1,
            Square::Cross => 2,
        }
    }

    /// The mark of the opponent.  An empty cell has none.
    pub fn other(&self) -> (mark: Square)
        requires
            *self != Square::Empty,
        ensures
            mark == self.opponent(),
            mark != Square::Empty,
            mark != *self,
    {
        match self {
            Square::Circle => Square::Cross,
            _ => Square::Circle,
        }
    }
}

/// A position: the player to move and the rows of the grid.
#[derive(Clone, PartialEq, Eq, Hash)]
pub struct TicTacToe {
    pub player: Square,
    pub board: Vec<Vec<Square>>,
}

/// A position as mathematics.
pub struct Grid {
    pub player: Square,
    pub board: Seq<Seq<Square>>,
}

impl Grid {
    /// The number of rows.
    pub open spec fn size(self) -> int {
        self.board.len() as int
    }

    /// Whether every row is as long as the grid is high.
    pub open spec fn square(self) -> bool {
        forall|r: int| 0 <= r < self.size() ==> (#[trigger] self.board[r]).len() == self.size()
    }

    /// Whether row `r`, column `c` is a cell of the grid.
    pub open spec fn inside(self, r: int, c: int) -> bool {
        0 <= r < self.size() && 0 <= c < self.size()
    }

    /// What the cell in row `r`, column `c` holds.
    pub open spec fn cell(self, r: int, c: int) -> Square {
        self.board[r][c]
    }

    /// Whether `who` fills row `r`.
    pub open spec fn fills_row(self, who: Square, r: int) -> bool {
        forall|c: int| 0 <= c < self.size() ==> #[trigger] self.cell(r, c) == who
    }

    /// Whether `who` fills column `c`.
    pub open spec fn fills_column(self, who: Square, c: int) -> bool {
        forall|r: int| 0 <= r < self.size() ==> #[trigger] self.cell(r, c) == who
    }

    /// Whether `who` fills the diagonal from the first cell of the first row.
    pub open spec fn fills_diagonal(self, who: Square) -> bool {
        forall|k: int| 0 <= k < self.size() ==> #[trigger] self.cell(k, k) == who
    }

    /// Whether `who` fills the diagonal from the last cell of the first row.
    pub open spec fn fills_antidiagonal(self, who: Square) -> bool {
        forall|k: int| 0 <= k < self.size() ==> #[trigger] self.cell(k, self.size() - k - 1) == who
    }

    /// Whether `who` fills some row.
    pub open spec fn has_row(self, who: Square) -> bool {
        exists|r: int| 0 <= r < self.size() && #[trigger] self.fills_row(who, r)
    }

    /// Whether `who` fills some column.
    pub open spec fn has_column(self, who: Square) -> bool {
        exists|c: int| 0 <= c < self.size() && #[trigger] self.fills_column(who, c)
    }

    /// Whether `who` has won: a row, a column or a diagonal is all theirs.
    pub open spec fn won_by(self, who: Square) -> bool {
        self.has_row(who) || self.has_column(who) || self.fills_diagonal(who)
            || self.fills_antidiagonal(who)
    }

    /// Whether no cell is empty.
    pub open spec fn full(self) -> bool {
        forall|r: int, c: int| self.inside(r, c) ==> #[trigger] self.cell(r, c) != Square::Empty
    }

    /// The empty cells among the first `c` cells of row `r`, in order.
    pub open spec fn empty_in_row(self, r: int, c: int) -> Seq<(usize, usize)>
        decreases c,
    {
        if c <= 0 {
            Seq::empty()
        } else if self.cell(r, c - 1) == Square::Empty {
            self.empty_in_row(r, c - 1).push((r as usize, (c - 1) as usize))
        } else {
            self.empty_in_row(r, c - 1)
        }
    }

    /// The empty cells of the first `r` rows, row by row.
    pub open spec fn empty_in_rows(self, r: int) -> Seq<(usize, usize)>
        decreases r,
    {
        if r <= 0 {
            Seq::empty()
        } else {
            self.empty_in_rows(r - 1) + self.empty_in_row(r - 1, self.size())
        }
    }

    /// The empty cells of the grid.
    pub open spec fn empty_cells(self) -> Seq<(usize, usize)> {
        self.empty_in_rows(self.size())
    }

    /// The position after the player to move has marked row `r`, column `c`.
    pub open spec fn marked(self, r: int, c: int) -> Grid {
        Grid {
            player: self.player.opponent(),
            board: self.board.update(r, self.board[r].update(c, self.player)),
        }
    }

    /// The list of the final scores if the last player to have moved has won,
    /// or if the grid is full: that player first.  A winner has two units and
    /// the loser none; in a draw each player has one.
    pub open spec fn score_list(self) -> Option<Seq<(Square, u32)>> {
        let last = self.player.opponent();
        if self.won_by(last) {
            Some(seq![(last, 2u32), (last.opponent(), 0u32)])
        } else if self.full() {
            Some(seq![(last, 1u32), (last.opponent(), 1u32)])
        } else {
            None
        }
    }

    /// The final scores by player, if the game is over.
    pub open spec fn scores(self) -> Option<Map<Square, nat>> {
        match self.score_list() {
            Some(list) => Some(pair_table(list)),
            None => None,
        }
    }

    /// Whether the grid is square, fits the machine, and has a player to move.
    pub open spec fn well_formed(self) -> bool {
        &&& self.player != Square::Empty
        &&& self.square()
        &&& self.size() <= usize::MAX
    }

    /// The cells listed for a row are its empty cells, each once.
    pub proof fn empty_in_row_lists(self, r: int, c: int)
        requires
            0 <= r <= usize::MAX,
            0 <= c <= usize::MAX,
        ensures
            self.empty_in_row(r, c).no_duplicates(),
            forall|a: (usize, usize)|
                self.empty_in_row(r, c).contains(a) <==> a.0 == r && a.1 < c && self.cell(
                    r,
                    a.1 as int,
                ) == Square::Empty,
        decreases c,
    {
        if c > 0 {
            self.empty_in_row_lists(r, c - 1);
            let before = self.empty_in_row(r, c - 1);
            let cell = (r as usize, (c - 1) as usize);
            if self.cell(r, c - 1) == Square::Empty {
                let after = before.push(cell);
                assert(!before.contains(cell));
                assert forall|a: (usize, usize)|
                    after.contains(a) <==> a.0 == r && a.1 < c && self.cell(r, a.1 as int)
                        == Square::Empty by {
                    if after.contains(a) {
                        let i = choose|i: int| 0 <= i < after.len() && after[i] == a;
                        if i < before.len() {
                            assert(before[i] == a);
                            assert(before.contains(a));
                        }
                    }
                    if a.0 == r && a.1 < c && self.cell(r, a.1 as int) == Square::Empty {
                        if a.1 == c - 1 {
                            assert(after[before.len() as int] == a);
                        } else {
                            assert(before.contains(a));
                            let i = choose|i: int| 0 <= i < before.len() && before[i] == a;
                            assert(after[i] == a);
                        }
                    }
                }
                assert forall|i: int, j: int|
                    0 <= i < after.len() && 0 <= j < after.len() && i != j implies after[i]
                    != after[j] by {
                    if i < before.len() {
                        assert(before.contains(before[i]));
                    }
                    if j < before.len() {
                        assert(before.contains(before[j]));
                    }
                }
            }
        }
    }

    /// The cells listed for the first rows are their empty cells, each once.
    pub proof fn empty_in_rows_lists(self, r: int)
        requires
            0 <= r <= self.size() <= usize::MAX,
        ensures
            self.empty_in_rows(r).no_duplicates(),
            forall|a: (usize, usize)|
                self.empty_in_rows(r).contains(a) <==> a.0 < r && a.1 < self.size() && self.cell(
                    a.0 as int,
                    a.1 as int,
                ) == Square::Empty,
        decreases r,
    {
        if r > 0 {
            self.empty_in_rows_lists(r - 1);
            self.empty_in_row_lists(r - 1, self.size());
            let before = self.empty_in_rows(r - 1);
            let row = self.empty_in_row(r - 1, self.size());
            let after = before + row;
            assert forall|a: (usize, usize)|
                after.contains(a) <==> a.0 < r && a.1 < self.size() && self.cell(
                    a.0 as int,
                    a.1 as int,
                ) == Square::Empty by {
                if after.contains(a) {
                    let i = choose|i: int| 0 <= i < after.len() && after[i] == a;
                    if i < before.len() {
                        assert(before[i] == a);
                        assert(before.contains(a));
                    } else {
                        assert(row[i - before.len()] == a);
                        assert(row.contains(a));
                    }
                }
                if a.0 < r && a.1 < self.size() && self.cell(a.0 as int, a.1 as int)
                    == Square::Empty {
                    if a.0 == r - 1 {
                        assert(row.contains(a));
                        let i = choose|i: int| 0 <= i < row.len() && row[i] == a;
                        assert(after[before.len() + i] == a);
                    } else {
                        assert(before.contains(a));
                        let i = choose|i: int| 0 <= i < before.len() && before[i] == a;
                        assert(after[i] == a);
                    }
                }
            }
            assert forall|i: int, j: int|
                0 <= i < after.len() && 0 <= j < after.len() && i != j implies after[i]
                != after[j] by {
                if i < before.len() {
                    assert(before.contains(before[i]));
                } else {
                    assert(row.contains(row[i - before.len()]));
                }
                if j < before.len() {
                    assert(before.contains(before[j]));
                } else {
                    assert(row.contains(row[j - before.len()]));
                }
            }
        }
    }

    /// Marking a cell leaves the other rows' lists of empty cells as long as
    /// they were, and shortens by one the lists of its row that include it.
    pub proof fn marked_row_count(self, r: int, c: int, row: int, upto: int)
        requires
            self.well_formed(),
            self.inside(r, c),
            self.cell(r, c) == Square::Empty,
            0 <= row < self.size(),
            0 <= upto <= self.size(),
        ensures
            self.marked(r, c).empty_in_row(row, upto).len() + (if row == r && c < upto {
                1int
            } else {
                0int
            }) == self.empty_in_row(row, upto).len(),
        decreases upto,
    {
        if upto > 0 {
            self.marked_row_count(r, c, row, upto - 1);
            assert(self.marked(r, c).cell(row, upto - 1) == if row == r && upto - 1 == c {
                self.player
            } else {
                self.cell(row, upto - 1)
            });
        }
    }

    /// Marking an empty cell leaves one empty cell fewer.
    pub proof fn marked_count(self, r: int, c: int, rows: int)
        requires
            self.well_formed(),
            self.inside(r, c),
            self.cell(r, c) == Square::Empty,
            0 <= rows <= self.size(),
        ensures
            self.marked(r, c).empty_in_rows(rows).len() + (if r < rows {
                1int
            } else {
                0int
            }) == self.empty_in_rows(rows).len(),
        decreases rows,
    {
        if rows > 0 {
            self.marked_count(r, c, rows - 1);
            self.marked_row_count(r, c, rows - 1, self.size());
            assert(self.marked(r, c).size() == self.size());
        }
    }
}

/// The fingerprint `print` with the cells of `row` worked into it in order.
pub open spec fn row_print(row: Seq<Square>, print: u64) -> u64
    decreases row.len(),
{
    if row.len() == 0 {
        print
    } else {
        mixed(row_print(row.drop_last(), print), row.last().code())
    }
}

/// The fingerprint `print` with the rows of `board` worked into it in order.
pub open spec fn rows_print(board: Seq<Seq<Square>>, print: u64) -> u64
    decreases board.len(),
{
    if board.len() == 0 {
        print
    } else {
        row_print(board.last(), rows_print(board.drop_last(), print))
    }
}

/// Where the game is over, one player has won and the other lost, or the game
/// is drawn: the two scores are two units and none, or one unit each.
pub proof fn scores_are_a_win_or_a_draw(grid: Grid)
    requires
        grid.player != Square::Empty,
        grid.scores() is Some,
    ensures
        grid.scores()->0.dom() =~= set![Square::Circle, Square::Cross],
        ({
            let a = grid.scores()->0[Square::Circle];
            let b = grid.scores()->0[Square::Cross];
            (a == 2 && b == 0) || (a == 0 && b == 2) || (a == 1 && b == 1)
        }),
{
}

impl View for TicTacToe {
    type V = Grid;

    open spec fn view(&self) -> Grid {
        Grid { player: self.player, board: Seq::new(self.board@.len(), |r: int| self.board@[r]@) }
    }
}

impl TicTacToe {
    /// The empty grid with `grid_size` rows and columns, with `Circle` to move.
    pub fn new(grid_size: usize) -> (game: TicTacToe)
        ensures
            game@.well_formed(),
            game@.player == Square::Circle,
            game@.size() == grid_size,
            forall|r: int, c: int| game@.inside(r, c) ==> #[trigger] game@.cell(r, c) == Square::Empty,
    {
        let mut board: Vec<Vec<Square>> = Vec::new();
        while board.len() < grid_size
            invariant
                board.len() <= grid_size,
                forall|r: int| 0 <= r < board.len() ==> (#[trigger] board[r]).len() == grid_size,
                forall|r: int, c: int|
                    0 <= r < board.len() && 0 <= c < grid_size ==> #[trigger] board[r][c]
                        == Square::Empty,
            decreases grid_size - board.len(),
        {
            let mut row: Vec<Square> = Vec::new();
            while row.len() < grid_size
                invariant
                    row.len() <= grid_size,
                    forall|c: int| 0 <= c < row.len() ==> row[c] == Square::Empty,
                decreases grid_size - row.len(),
            {
                row.push(Square::Empty);
            }
            board.push(row);
        }
        TicTacToe { player: Square::Circle, board }
    }

    /// Whether `who` fills row `r`.
    fn row_is(&self, who: Square, r: usize) -> (filled: bool)
        requires
            self@.well_formed(),
            r < self@.size(),
        ensures
            filled == self@.fills_row(who, r as int),
    {
        let size = self.board.len();
        let mut c: usize = 0;
        while c < size
            invariant
                c <= size,
                size == self@.size(),
                self@.well_formed(),
                r < size,
                forall|k: int| 0 <= k < c ==> #[trigger] self@.cell(r as int, k) == who,
            decreases size - c,
        {
            assert(self@.board[r as int].len() == size);
            if self.board[r][c] != who {
                assert(self@.cell(r as int, c as int) != who);
                return false;
            }
            c = c + 1;
        }
        true
    }

    /// Whether `who` fills column `c`.
    fn column_is(&self, who: Square, c: usize) -> (filled: bool)
        requires
            self@.well_formed(),
            c < self@.size(),
        ensures
            filled == self@.fills_column(who, c as int),
    {
        let size = self.board.len();
        let mut r: usize = 0;
        while r < size
            invariant
                r <= size,
                size == self@.size(),
                self@.well_formed(),
                c < size,
                forall|k: int| 0 <= k < r ==> #[trigger] self@.cell(k, c as int) == who,
            decreases size - r,
        {
            assert(self@.board[r as int].len() == size);
            if self.board[r][c] != who {
                assert(self@.cell(r as int, c as int) != who);
                return false;
            }
            r = r + 1;
        }
        true
    }

    /// Whether `who` fills some row.
    fn any_row(&self, who: Square) -> (found: bool)
        requires
            self@.well_formed(),
        ensures
            found == self@.has_row(who),
    {
        let size = self.board.len();
        let mut r: usize = 0;
        while r < size
            invariant
                r <= size,
                size == self@.size(),
                self@.well_formed(),
                forall|k: int| 0 <= k < r ==> !#[trigger] self@.fills_row(who, k),
            decreases size - r,
        {
            if self.row_is(who, r) {
                return true;
            }
            r = r + 1;
        }
        false
    }

    /// Whether `who` fills some column.
    fn any_column(&self, who: Square) -> (found: bool)
        requires
            self@.well_formed(),
        ensures
            found == self@.has_column(who),
    {
        let size = self.board.len();
        let mut c: usize = 0;
        while c < size
            invariant
                c <= size,
                size == self@.size(),
                self@.well_formed(),
                forall|k: int| 0 <= k < c ==> !#[trigger] self@.fills_column(who, k),
            decreases size - c,
        {
            if self.column_is(who, c) {
                return true;
            }
            c = c + 1;
        }
        false
    }

    /// Whether `who` fills the diagonal from the first cell of the first row.
    fn diagonal_is(&self, who: Square) -> (filled: bool)
        requires
            self@.well_formed(),
        ensures
            filled == self@.fills_diagonal(who),
    {
        let size = self.board.len();
        let mut k: usize = 0;
        while k < size
            invariant
                k <= size,
                size == self@.size(),
                self@.well_formed(),
                forall|i: int| 0 <= i < k ==> #[trigger] self@.cell(i, i) == who,
            decreases size - k,
        {
            assert(self@.board[k as int].len() == size);
            if self.board[k][k] != who {
                assert(self@.cell(k as int, k as int) != who);
                return false;
            }
            k = k + 1;
        }
        true
    }

    /// Whether `who` fills the diagonal from the last cell of the first row.
    fn antidiagonal_is(&self, who: Square) -> (filled: bool)
        requires
            self@.well_formed(),
        ensures
            filled == self@.fills_antidiagonal(who),
    {
        let size = self.board.len();
        let mut k: usize = 0;
        while k < size
            invariant
                k <= size,
                size == self@.size(),
                self@.well_formed(),
                forall|i: int| 0 <= i < k ==> #[trigger] self@.cell(i, size - i - 1) == who,
            decreases size - k,
        {
            assert(self@.board[k as int].len() == size);
            if self.board[k][size - k - 1] != who {
                assert(self@.cell(k as int, size - k - 1) != who);
                return false;
            }
            k = k + 1;
        }
        true
    }

    /// Whether no cell is empty.
    fn is_full(&self) -> (full: bool)
        requires
            self@.well_formed(),
        ensures
            full == self@.full(),
    {
        let size = self.board.len();
        let mut r: usize = 0;
        while r < size
            invariant
                r <= size,
                size == self@.size(),
                self@.well_formed(),
                forall|i: int, j: int|
                    0 <= i < r && 0 <= j < size ==> #[trigger] self@.cell(i, j) != Square::Empty,
            decreases size - r,
        {
            let mut c: usize = 0;
            while c < size
                invariant
                    c <= size,
                    r < size,
                    size == self@.size(),
                    self@.well_formed(),
                    forall|j: int| 0 <= j < c ==> #[trigger] self@.cell(r as int, j) != Square::Empty,
                decreases size - c,
            {
                assert(self@.board[r as int].len() == size);
                if self.board[r][c] == Square::Empty {
                    assert(self@.inside(r as int, c as int));
                    assert(self@.cell(r as int, c as int) == Square::Empty);
                    return false;
                }
                c = c + 1;
            }
            r = r + 1;
        }
        true
    }
}

impl Game for TicTacToe {
    type Player = Square;

    type Action = (usize, usize);

    open spec fn valid(state: Grid) -> bool {
        state.well_formed()
    }

    open spec fn legal(state: Grid) -> Seq<(usize, usize)> {
        state.empty_cells()
    }

    open spec fn mover(state: Grid) -> Square {
        state.player
    }

    open spec fn outcome(state: Grid) -> Option<Map<Square, nat>> {
        state.scores()
    }

    open spec fn successor(state: Grid, action: (usize, usize)) -> Grid {
        state.marked(action.0 as int, action.1 as int)
    }

    open spec fn horizon(state: Grid) -> nat {
        state.empty_cells().len()
    }

    open spec fn fingerprint(state: Grid) -> u64 {
        rows_print(state.board, state.player.code() as u64)
    }

    proof fn rules(state: Grid) {
        state.empty_in_rows_lists(state.size());
        if state.scores() is None {
            assert(!state.full());
            let (r, c) = choose|r: int, c: int|
                state.inside(r, c) && #[trigger] state.cell(r, c) == Square::Empty;
            assert(state.empty_cells().contains((r as usize, c as usize)));
        }
        assert forall|a: (usize, usize)| #[trigger] state.empty_cells().contains(a) implies Self::valid(
            Self::successor(state, a),
        ) && Self::horizon(Self::successor(state, a)) < Self::horizon(state) by {
            let next = state.marked(a.0 as int, a.1 as int);
            assert(next.size() == state.size());
            assert forall|r: int| 0 <= r < next.size() implies (#[trigger] next.board[r]).len()
                == next.size() by {
                assert(state.board[r].len() == state.size());
            }
            state.marked_count(a.0 as int, a.1 as int, state.size());
        }
    }

    proof fn movers_are_scored(state: Grid, end: Grid) {
    }

    fn list_actions(&self) -> (actions: Vec<(usize, usize)>) {
        let mut actions: Vec<(usize, usize)> = Vec::new();
        let size = self.board.len();
        let mut row: usize = 0;
        while row < size
            invariant
                row <= size,
                size == self@.size(),
                self@.well_formed(),
                actions@ == self@.empty_in_rows(row as int),
            decreases size - row,
        {
            let ghost before = actions@;
            let mut col: usize = 0;
            while col < size
                invariant
                    col <= size,
                    row < size,
                    size == self@.size(),
                    self@.well_formed(),
                    actions@ == before + self@.empty_in_row(row as int, col as int),
                decreases size - col,
            {
                assert(self@.board[row as int].len() == size);
                if self.board[row][col] == Square::Empty {
                    actions.push((row, col));
                }
                proof {
                    assert(self@.cell(row as int, col as int) == self.board[row as int][col as int]);
                    assert(actions@ =~= before + self@.empty_in_row(row as int, col + 1));
                }
                col = col + 1;
            }
            row = row + 1;
        }
        actions
    }

    fn get_current_player(&self) -> (player: Square) {
        self.player
    }

    fn get_player_final_scores(&self) -> (scores: Option<Vec<(Square, u32)>>)
        ensures
            scores is Some ==> Some(scores->0@) == self@.score_list(),
    {
        let check_for = self.player.other();
        let won = self.any_row(check_for) || self.any_column(check_for) || self.diagonal_is(
            check_for,
        ) || self.antidiagonal_is(check_for);
        if !won && !self.is_full() {
            return None;
        }
        let mut ret: Vec<(Square, u32)> = Vec::new();
        if won {
            ret.push((check_for, 2));
            ret.push((check_for.other(), 0));
        } else {
            ret.push((check_for, 1));
            ret.push((check_for.other(), 1));
        }
        proof {
            assert(ret@ =~= self@.score_list()->0);
            pair_tallies(ret@);
        }
        Some(ret)
    }

    fn do_action(self, action: (usize, usize)) -> (next: Result<TicTacToe, InvalidAction>) {
        let mut game = self;
        let size = game.board.len();
        proof {
            game@.empty_in_rows_lists(game@.size());
        }
        if action.0 < size && action.1 < size {
            assert(game@.board[action.0 as int].len() == size);
            if game.board[action.0][action.1] == Square::Empty {
                let ghost before = game@;
                let mark = game.player;
                game.board[action.0][action.1] = mark;
                game.player = mark.other();
                proof {
                    assert(game@.board =~= before.marked(action.0 as int, action.1 as int).board);
                }
                return Ok(game);
            }
        }
        Err(InvalidAction)
    }

    fn get_fingerprint(&self) -> (print: u64) {
        let mut print: u64 = self.player.number() as u64;
        let mut r: usize = 0;
        while r < self.board.len()
            invariant
                r <= self.board.len(),
                print == rows_print(self@.board.take(r as int), self.player.code() as u64),
            decreases self.board.len() - r,
        {
            let ghost before = print;
            let mut c: usize = 0;
            while c < self.board[r as usize].len()
                invariant
                    r < self.board.len(),
                    c <= self.board[r as int].len(),
                    print == row_print(self.board[r as int]@.take(c as int), before),
                decreases self.board[r as int].len() - c,
            {
                proof {
                    let row = self.board[r as int]@;
                    assert(row.take(c + 1).drop_last() =~= row.take(c as int));
                    assert(row.take(c + 1).last() == row[c as int]);
                }
                print = mix(print, self.board[r][c].number());
                c = c + 1;
            }
            proof {
                let row = self.board[r as int]@;
                assert(row.take(row.len() as int) =~= row);
                assert(self@.board.take(r + 1).drop_last() =~= self@.board.take(r as int));
                assert(self@.board.take(r + 1).last() == row);
            }
            r = r + 1;
        }
        proof {
            assert(self@.board.take(self.board.len() as int) =~= self@.board);
        }
        print
    }

    fn same_state(&self, other: &TicTacToe) -> (same: bool) {
        if self.player != other.player {
            assert(self@.player != other@.player);
            return false;
        }
        if self.board.len() != other.board.len() {
            assert(self@.board.len() != other@.board.len());
            return false;
        }
        let mut r: usize = 0;
        while r < self.board.len()
            invariant
                r <= self.board.len(),
                self.board.len() == other.board.len(),
                self.player == other.player,
                forall|k: int| 0 <= k < r ==> #[trigger] self.board[k]@ == other.board[k]@,
            decreases self.board.len() - r,
        {
            if self.board[r].len() != other.board[r].len() {
                assert(self@.board[r as int].len() != other@.board[r as int].len());
                return false;
            }
            let mut c: usize = 0;
            while c < self.board[r as usize].len()
                invariant
                    r < self.board.len(),
                    self.board.len() == other.board.len(),
                    c <= self.board[r as int].len(),
                    self.board[r as int].len() == other.board[r as int].len(),
                    forall|k: int| 0 <= k < c ==> self.board[r as int][k] == other.board[r as int][k],
                decreases self.board[r as int].len() - c,
            {
                if self.board[r][c] != other.board[r][c] {
                    assert(self@.board[r as int][c as int] != other@.board[r as int][c as int]);
                    return false;
                }
                c = c + 1;
            }
            assert(self.board[r as int]@ =~= other.board[r as int]@);
            r = r + 1;
        }
        assert(self@.board =~= other@.board);
        true
    }

    fn same_player(one: &Square, other: &Square) -> (same: bool) {
        *one == *other
    }

    fn duplicate(&self) -> (copy: TicTacToe) {
        let mut board: Vec<Vec<Square>> = Vec::new();
        let mut r: usize = 0;
        while r < self.board.len()
            invariant
                r <= self.board.len(),
                board.len() == r,
                forall|k: int| 0 <= k < r ==> #[trigger] board[k]@ == self.board[k]@,
            decreases self.board.len() - r,
        {
            let mut row: Vec<Square> = Vec::new();
            let mut c: usize = 0;
            while c < self.board[r as usize].len()
                invariant
                    r < self.board.len(),
                    c <= self.board[r as int].len(),
                    row.len() == c,
                    forall|k: int| 0 <= k < c ==> row[k] == self.board[r as int][k],
                decreases self.board[r as int].len() - c,
            {
                row.push(self.board[r][c]);
                c = c + 1;
            }
            assert(row@ =~= self.board[r as int]@);
            board.push(row);
            r = r + 1;
        }
        let copy = TicTacToe { player: self.player, board };
        assert(copy@.board =~= self@.board);
        copy
    }
}

} // verus!
