//! What a game must offer to be searched: its positions, its moves and its
//! final scores, together with the mathematical model that the search is
//! verified against.

use vstd::prelude::*;

verus! {

/// The error of a move that the rules do not allow in the position it was
/// tried in.
#[derive(Debug)]
pub struct InvalidAction;

impl InvalidAction {
    /// The text that reports the error.
    pub fn message(&self) -> (text: &'static str)
        ensures
            text@ == "Invalid Action"@,
    {
        "Invalid Action"
    }
}

/// The units of reward that make one whole point, so that half a point, the
/// reward of a draw, is a whole number of units.
pub const UNIT: u32 = 2;

/// The fingerprint `print` with the number `value` worked into it.
pub open spec fn mixed(print: u64, value: int) -> u64 {
    ((print * 1_000_003 + value) % 0x1fff_ffff_ffff_ffff) as u64
}

/// Works the number `value` into the fingerprint `print`.
pub fn mix(print: u64, value: u8) -> (next: u64)
    ensures
        next == mixed(print, value as int),
{
    assert(print * 1_000_003 + value <= 0xffff_ffff_ffff_ffff * 1_000_003 + 255) by (nonlinear_arith)
        requires
            print <= 0xffff_ffff_ffff_ffff,
            value <= 255,
    ;
    ((print as u128 * 1_000_003 + value as u128) % 0x1fff_ffff_ffff_ffff) as u64
}

/// Whether the list `scores` writes down the score table `table`: one entry for
/// each player of the table, holding that player's score.
pub open spec fn tallies<P>(scores: Seq<(P, u32)>, table: Map<P, nat>) -> bool {
    &&& forall|i: int, j: int|
        0 <= i < j < scores.len() ==> (#[trigger] scores[i]).0 != (#[trigger] scores[j]).0
    &&& forall|i: int|
        0 <= i < scores.len() ==> table.dom().contains((#[trigger] scores[i]).0) && table[scores[i].0]
            == scores[i].1
    &&& forall|p: P| #[trigger]
        table.dom().contains(p) ==> exists|i: int| 0 <= i < scores.len() && (#[trigger] scores[i]).0 == p
}

/// The score table that a list of two scores writes down.
pub open spec fn pair_table<P>(list: Seq<(P, u32)>) -> Map<P, nat> {
    Map::empty().insert(list[0].0, list[0].1 as nat).insert(list[1].0, list[1].1 as nat)
}

/// A list of the scores of two different players writes down its table.
pub proof fn pair_tallies<P>(list: Seq<(P, u32)>)
    requires
        list.len() == 2,
        list[0].0 != list[1].0,
    ensures
        tallies(list, pair_table(list)),
{
    let table = pair_table(list);
    assert forall|p: P| #[trigger] table.dom().contains(p) implies exists|i: int|
        0 <= i < list.len() && (#[trigger] list[i]).0 == p by {
        if p == list[0].0 {
        } else {
            assert(list[1].0 == p);
        }
    }
}

/// A sequential game of perfect information between several players.
///
/// The view of a value is the position it stands for.  The spec functions give
/// the rules as mathematics over positions; the executable methods compute
/// them.  Scores are counted in units of reward, `UNIT` of them to the point.
pub trait Game: Sized + View {
    /// Who moves and who is paid.
    type Player: Copy;

    /// A move.
    type Action;

    /// Whether `state` is a position of the game at all.
    spec fn valid(state: Self::V) -> bool;

    /// The moves that the rules allow in `state`, in the order in which they
    /// are listed.
    spec fn legal(state: Self::V) -> Seq<Self::Action>;

    /// The player to move in `state`.
    spec fn mover(state: Self::V) -> Self::Player;

    /// The final scores of `state`, one for each player, if the game is over
    /// there, and `None` otherwise.
    spec fn outcome(state: Self::V) -> Option<Map<Self::Player, nat>>;

    /// The position that the move `action` leads to from `state`.
    spec fn successor(state: Self::V, action: Self::Action) -> Self::V;

    /// A bound on the number of moves that can still be played from `state`.
    spec fn horizon(state: Self::V) -> nat;

    /// A number by which `state` is filed and found again.  It depends on the
    /// position alone; two positions may share one.
    spec fn fingerprint(state: Self::V) -> u64;

    /// No move is listed twice, a position where the game goes on has a move,
    /// a final score is no more than a list of final scores can hold, and every
    /// move leads to a position with fewer moves left to play.
    proof fn rules(state: Self::V)
        requires
            Self::valid(state),
        ensures
            Self::legal(state).no_duplicates(),
            Self::outcome(state) is None ==> Self::legal(state).len() > 0,
            Self::outcome(state) is Some ==> forall|p: Self::Player|
                Self::outcome(state)->0.dom().contains(p) ==> #[trigger] Self::outcome(state)->0[p]
                    <= u32::MAX,
            forall|a: Self::Action| #[trigger]
                Self::legal(state).contains(a) ==> Self::valid(Self::successor(state, a))
                    && Self::horizon(Self::successor(state, a)) < Self::horizon(state),
    ;

    /// Whoever is to move somewhere has a score wherever the game ends.
    proof fn movers_are_scored(state: Self::V, end: Self::V)
        requires
            Self::valid(state),
            Self::valid(end),
            Self::outcome(end) is Some,
        ensures
            Self::outcome(end)->0.dom().contains(Self::mover(state)),
    ;

    /// The legal moves of this position.
    fn list_actions(&self) -> (actions: Vec<Self::Action>)
        requires
            Self::valid(self@),
        ensures
            actions@ == Self::legal(self@),
    ;

    /// The player to move.
    fn get_current_player(&self) -> (player: Self::Player)
        requires
            Self::valid(self@),
        ensures
            player == Self::mover(self@),
    ;

    /// The final scores, if the game is over.
    fn get_player_final_scores(&self) -> (scores: Option<Vec<(Self::Player, u32)>>)
        requires
            Self::valid(self@),
        ensures
            scores is Some <==> Self::outcome(self@) is Some,
            scores is Some ==> tallies(scores->0@, Self::outcome(self@)->0),
    ;

    /// Plays `action`: the next position if the move is legal, the error if it
    /// is not.
    fn do_action(self, action: Self::Action) -> (next: Result<Self, InvalidAction>)
        requires
            Self::valid(self@),
        ensures
            next is Ok <==> Self::legal(self@).contains(action),
            next is Ok ==> next->Ok_0@ == Self::successor(self@, action),
    ;

    /// The number by which the position is filed.
    fn get_fingerprint(&self) -> (print: u64)
        ensures
            print == Self::fingerprint(self@),
    ;

    /// Whether two values stand for the same position.
    fn same_state(&self, other: &Self) -> (same: bool)
        ensures
            same == (self@ == other@),
    ;

    /// Whether two players are the same.
    fn same_player(one: &Self::Player, other: &Self::Player) -> (same: bool)
        ensures
            same == (*one == *other),
    ;

    /// A second value for the same position.
    fn duplicate(&self) -> (copy: Self)
        ensures
            copy@ == self@,
    ;
}

} // verus!
