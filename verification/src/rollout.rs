//! Rollout: a game played to its end by moves drawn at random.

use crate::game::Game;
use rand::rngs::ThreadRng;
use rand::seq::SliceRandom;
use vstd::prelude::*;

verus! {

/// The random number generator of the running thread, from the crate `rand`.
#[verifier::external_type_specification]
#[verifier::external_body]
pub struct ExThreadRng(ThreadRng);

/// `rand::thread_rng` hands out the generator of the running thread.  Nothing
/// is claimed of it.
pub assume_specification[ rand::thread_rng ]() -> (rng: ThreadRng);

/// `SliceRandom::choose` on the items of a vector: no item of an empty vector,
/// else one of the items, whichever the generator picks.
#[verifier::external_body]
fn draw<T: Copy>(items: &Vec<T>, rng: &mut ThreadRng) -> (picked: Option<T>)
    ensures
        items@.len() == 0 ==> picked is None,
        items@.len() > 0 ==> picked is Some && items@.contains(picked->0),
{
    items.choose(rng).copied()
}

/// Whether `moves` legal moves can lead from `from` to `to`, the game being
/// over in `to` and in no position before it.
pub open spec fn plays_out<G: Game>(from: G::V, to: G::V, moves: nat) -> bool
    decreases moves,
{
    if moves == 0 {
        from == to && G::outcome(to) is Some
    } else {
        G::outcome(from) is None && exists|a: G::Action|
            G::legal(from).contains(a) && plays_out::<G>(
                #[trigger] G::successor(from, a),
                to,
                (moves - 1) as nat,
            )
    }
}

/// Whether `to` is an end of the game that play can reach from `from`.
pub open spec fn playout<G: Game>(from: G::V, to: G::V) -> bool {
    exists|moves: nat| plays_out::<G>(from, to, moves)
}

/// Play from a position of the game ends in a position of the game where the
/// game is over.
pub proof fn playout_ends<G: Game>(from: G::V, to: G::V, moves: nat)
    requires
        G::valid(from),
        plays_out::<G>(from, to, moves),
    ensures
        G::valid(to),
        G::outcome(to) is Some,
    decreases moves,
{
    if moves > 0 {
        let a = choose|a: G::Action|
            G::legal(from).contains(a) && plays_out::<G>(
                #[trigger] G::successor(from, a),
                to,
                (moves - 1) as nat,
            );
        G::rules(from);
        playout_ends::<G>(G::successor(from, a), to, (moves - 1) as nat);
    }
}

/// A play that reaches an end can be entered one legal move earlier.
pub proof fn one_more_move<G: Game>(from: G::V, action: G::Action, to: G::V, moves: nat)
    requires
        G::outcome(from) is None,
        G::legal(from).contains(action),
        plays_out::<G>(G::successor(from, action), to, moves),
    ensures
        plays_out::<G>(from, to, moves + 1),
{
    assert(((moves + 1) - 1) as nat == moves);
}

/// Plays the game from `start` to an end, each move drawn at random from the
/// legal ones.
pub fn rollout<G: Game>(start: G) -> (end: G) where G::Action: Copy
    requires
        G::valid(start@),
    ensures
        G::valid(end@),
        G::outcome(end@) is Some,
        playout::<G>(start@, end@),
{
    let mut rng = rand::thread_rng();
    let mut game = start;
    let ghost played: nat = 0;
    loop
        invariant
            G::valid(game@),
            forall|to: G::V, moves: nat| #[trigger]
                plays_out::<G>(game@, to, moves) ==> plays_out::<G>(start@, to, moves + played),
        decreases G::horizon(game@),
    {
        if game.get_player_final_scores().is_some() {
            proof {
                assert(plays_out::<G>(game@, game@, 0));
                assert(plays_out::<G>(start@, game@, 0 + played));
            }
            return game;
        }
        let actions = game.list_actions();
        proof {
            G::rules(game@);
        }
        let action = match draw(&actions, &mut rng) {
            Some(action) => action,
            None => vstd::pervasive::unreached(),
        };
        let ghost before = game@;
        game = match game.do_action(action) {
            Ok(next) => next,
            Err(_) => vstd::pervasive::unreached(),
        };
        proof {
            assert forall|to: G::V, moves: nat| #[trigger]
                plays_out::<G>(game@, to, moves) implies plays_out::<G>(
                start@,
                to,
                moves + played + 1,
            ) by {
                one_more_move::<G>(before, action, to, moves);
            }
            played = played + 1;
        }
    }
}

} // verus!
