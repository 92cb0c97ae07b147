//! Error kinds surfaced by the game core.

use vstd::prelude::*;

verus! {

/// The ways a run of the game can fail.
///
/// Structural failures (`ConfigError`, `PlayerNotFound`,
/// `InvariantViolation`, `AlreadyOver`) abort a run and surface to the
/// caller. `GenerationFailure` marks a capability that could not produce
/// text; the conversational phases recover from it locally.
#[derive(Clone, Copy, Debug, PartialEq, Eq, Structural)]
pub enum SimError {
    /// Fewer than 3 players were requested at creation.
    ConfigError,
    /// An operation addressed a player number that does not exist.
    PlayerNotFound,
    /// The generation capability could not produce text for a prompt.
    GenerationFailure,
    /// The driver reached the end of the game without exactly two finalists.
    InvariantViolation,
    /// The terminal phase was asked to execute again.
    AlreadyOver,
}

impl SimError {
    /// A short human-readable description of the error.
    pub fn describe(&self) -> (r: &'static str)
        ensures
            r@ == self.spec_describe(),
    {
        match self {
            SimError::ConfigError => "Number of players must be at least 3",
            SimError::PlayerNotFound => "Player not found",
            SimError::GenerationFailure => "Failed to generate response",
            SimError::InvariantViolation => "Expected exactly 2 finalists at the end of the game",
            SimError::AlreadyOver => "Game is already over",
        }
    }

    /// The text `describe` returns for each error kind.
    pub open spec fn spec_describe(self) -> Seq<char> {
        match self {
            SimError::ConfigError => "Number of players must be at least 3"@,
            SimError::PlayerNotFound => "Player not found"@,
            SimError::GenerationFailure => "Failed to generate response"@,
            SimError::InvariantViolation => "Expected exactly 2 finalists at the end of the game"@,
            SimError::AlreadyOver => "Game is already over"@,
        }
    }
}

} // verus!
