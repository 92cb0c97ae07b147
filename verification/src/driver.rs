//! The simulation driver: owns the game state and the current phase,
//! executes phases until the terminal one is reached, and returns the
//! two finalists.

use vstd::prelude::*;
use crate::errors::SimError;
use crate::game_state::GameState;
use crate::llm::LLM;
use crate::phases::Phase;
use crate::phases::PrivateChatState;
use crate::phases::lemma_step_preserves;

verus! {

/// A whole run of the game: the state of the roster and the phase that
/// executes next.
pub struct Simulation {
    pub game_state: GameState,
    pub current_state: Phase,
}

impl Simulation {
    /// The driver's invariant: the roster is well formed and the current
    /// phase is valid for it.
    pub open spec fn wf(self) -> bool {
        self.game_state.wf() && self.current_state.valid_for(self.game_state)
    }

    /// Sets up a run: a fresh game of `num_players` contestants, about
    /// to enter the first round's private chat. Rejects any request for
    /// fewer than three players with `ConfigError`.
    pub fn new(num_players: i32) -> (r: Result<Simulation, SimError>)
        ensures
            num_players < 3 ==> (r matches Err(e) && e == SimError::ConfigError),
            num_players >= 3 ==> ({
                &&& r matches Ok(s)
                &&& s.wf()
                &&& s.game_state.num_players() == num_players
                &&& forall|p: int| s.game_state.player_known(p) ==> s.game_state.is_active(p)
                &&& forall|p: int|
                    s.game_state.player_known(p) ==> s.game_state.context_of(p) == Seq::<
                        Seq<char>,
                    >::empty()
                &&& s.current_state == (Phase::PrivateChat(PrivateChatState { round: 1 }))
            }),
    {
        let game_state = match GameState::new(num_players) {
            Ok(g) => g,
            Err(e) => {
                return Err(e);
            },
        };
        let current_state = Phase::PrivateChat(PrivateChatState::new(1));
        let s = Simulation { game_state, current_state };
        proof {
            s.game_state.lemma_active_len(0, s.game_state.num_players());
            assert(s.game_state.active_count() == num_players);
        }
        Ok(s)
    }

    /// Runs the game to its end: executes the current phase and replaces
    /// it with its successor until the terminal phase is reached, then
    /// returns the finalists. Every phase is proven to succeed and every
    /// voting round to eliminate exactly one player, so a well-formed
    /// run always terminates with exactly two finalists.
    pub fn run<L: LLM>(&mut self, llm_client: &mut L) -> (r: Result<Vec<i32>, SimError>)
        requires
            old(self).wf(),
        ensures
            final(self).wf(),
            final(self).current_state is GameOver,
            r matches Ok(f) && f@ == final(self).game_state.active_seq() && f@.len() == 2,
            r matches Ok(f) && (final(self).current_state matches Phase::GameOver(g)
                && g.finalists@ == f@),
    {
        while !self.current_state.is_terminal()
            invariant
                self.wf(),
            decreases self.current_state.measure(self.game_state),
        {
            let ghost pre = self.game_state;
            let ghost phase = self.current_state;
            let result = self.current_state.execute(&mut self.game_state, llm_client);
            match result {
                Ok(next) => {
                    proof {
                        lemma_step_preserves(phase, next, pre, self.game_state);
                    }
                    self.current_state = next;
                },
                Err(e) => {
                    proof {
                        assert(false);
                    }
                    return Err(e);
                },
            }
        }
        let finalists = self.game_state.active_players();
        if finalists.len() != 2 {
            proof {
                assert(false);
            }
            return Err(SimError::InvariantViolation);
        }
        Ok(finalists)
    }
}

} // verus!
