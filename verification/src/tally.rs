//! Reward totals by player, kept as a list of pairs and read as a map.

use crate::game::{tallies, Game};
use vstd::prelude::*;

verus! {

/// The map that a list of totals stands for.
pub open spec fn as_map<P>(list: Seq<(P, u128)>) -> Map<P, nat>
    decreases list.len(),
{
    if list.len() == 0 {
        Map::empty()
    } else {
        as_map(list.drop_last()).insert(list.last().0, list.last().1 as nat)
    }
}

/// No player has two entries in the list.
pub open spec fn distinct<P>(list: Seq<(P, u128)>) -> bool {
    forall|i: int, j: int|
        0 <= i < j < list.len() ==> (#[trigger] list[i]).0 != (#[trigger] list[j]).0
}

/// The players of the map are those of the list.
pub proof fn as_map_players<P>(list: Seq<(P, u128)>, player: P)
    ensures
        as_map(list).dom().contains(player) <==> exists|i: int|
            0 <= i < list.len() && (#[trigger] list[i]).0 == player,
    decreases list.len(),
{
    if list.len() > 0 {
        let front = list.drop_last();
        as_map_players(front, player);
        if as_map(list).dom().contains(player) {
            if list.last().0 == player {
                assert(list[list.len() - 1].0 == player);
            } else {
                let i = choose|i: int| 0 <= i < front.len() && (#[trigger] front[i]).0 == player;
                assert(list[i].0 == player);
            }
        }
        if exists|i: int| 0 <= i < list.len() && (#[trigger] list[i]).0 == player {
            let i = choose|i: int| 0 <= i < list.len() && (#[trigger] list[i]).0 == player;
            if i < list.len() - 1 {
                assert(front[i].0 == player);
            }
        }
    }
}

/// An entry of a list without repeated players is the player's total.
pub proof fn as_map_total<P>(list: Seq<(P, u128)>, i: int)
    requires
        distinct(list),
        0 <= i < list.len(),
    ensures
        as_map(list).dom().contains(list[i].0),
        as_map(list)[list[i].0] == list[i].1,
    decreases list.len(),
{
    let front = list.drop_last();
    if i < list.len() - 1 {
        assert(front[i] == list[i]);
        as_map_total(front, i);
        assert(list[i].0 != list[list.len() - 1].0);
    }
}

/// Replacing a player's total in the list replaces it in the map.
pub proof fn as_map_replace<P>(list: Seq<(P, u128)>, i: int, total: u128)
    requires
        distinct(list),
        0 <= i < list.len(),
    ensures
        distinct(list.update(i, (list[i].0, total))),
        as_map(list.update(i, (list[i].0, total))) == as_map(list).insert(list[i].0, total as nat),
    decreases list.len(),
{
    let player = list[i].0;
    let next = list.update(i, (player, total));
    let front = list.drop_last();
    assert forall|a: int, b: int| 0 <= a < b < next.len() implies (#[trigger] next[a]).0 != (
    #[trigger] next[b]).0 by {
        assert(next[a].0 == list[a].0);
        assert(next[b].0 == list[b].0);
    }
    if i < list.len() - 1 {
        assert(front[i] == list[i]);
        as_map_replace(front, i, total);
        assert(next.drop_last() =~= front.update(i, (player, total)));
        assert(next.last() == list.last());
        assert(list[i].0 != list[list.len() - 1].0);
        assert(as_map(next) =~= as_map(list).insert(player, total as nat));
    } else {
        assert(next.drop_last() =~= front);
        assert(as_map(next) =~= as_map(list).insert(player, total as nat));
    }
}

/// The units of reward that the list holds for `player`, if it holds any.
pub fn total_of<G: Game>(list: &Vec<(G::Player, u128)>, player: &G::Player) -> (total: Option<
    (usize, u128),
>)
    requires
        distinct(list@),
    ensures
        match total {
            Some((i, t)) => i < list.len() && list[i as int] == (*player, t) && as_map(
                list@,
            ).dom().contains(*player) && as_map(list@)[*player] == t,
            None => !as_map(list@).dom().contains(*player),
        },
{
    let mut i: usize = 0;
    while i < list.len()
        invariant
            i <= list.len(),
            distinct(list@),
            forall|k: int| 0 <= k < i ==> (#[trigger] list[k]).0 != *player,
        decreases list.len() - i,
    {
        if G::same_player(&list[i].0, player) {
            proof {
                as_map_total(list@, i as int);
            }
            return Some((i, list[i].1));
        }
        i = i + 1;
    }
    proof {
        as_map_players(list@, *player);
    }
    None
}

/// Adds `amount` units of reward to the total of `player`.
pub fn credit<G: Game>(list: &mut Vec<(G::Player, u128)>, player: G::Player, amount: u32)
    requires
        distinct(old(list)@),
        as_map(old(list)@).dom().contains(player) ==> as_map(old(list)@)[player] + amount
            <= u128::MAX,
    ensures
        distinct(final(list)@),
        as_map(final(list)@) == as_map(old(list)@).insert(
            player,
            if as_map(old(list)@).dom().contains(player) {
                (as_map(old(list)@)[player] + amount) as nat
            } else {
                amount as nat
            },
        ),
{
    match total_of::<G>(list, &player) {
        Some((i, total)) => {
            proof {
                as_map_replace(list@, i as int, (total + amount) as u128);
            }
            list[i] = (player, total + amount as u128);
        },
        None => {
            proof {
                as_map_players(list@, player);
                assert(list@.push((player, amount as u128)).drop_last() =~= list@);
            }
            list.push((player, amount as u128));
        },
    }
}

/// The score that a game's list of final scores holds for `player`.
pub fn score_of<G: Game>(scores: &Vec<(G::Player, u32)>, player: &G::Player) -> (score: Option<u32>)
    ensures
        forall|table: Map<G::Player, nat>| #[trigger]
            tallies(scores@, table) ==> match score {
                Some(s) => table.dom().contains(*player) && table[*player] == s,
                None => !table.dom().contains(*player),
            },
{
    let mut i: usize = 0;
    while i < scores.len()
        invariant
            i <= scores.len(),
            forall|k: int| 0 <= k < i ==> (#[trigger] scores[k]).0 != *player,
        decreases scores.len() - i,
    {
        if G::same_player(&scores[i].0, player) {
            return Some(scores[i].1);
        }
        i = i + 1;
    }
    None
}

} // verus!
