//! A verified core for a multi-round elimination social game.
//!
//! A fixed roster of contestants passes through scripted phases (private
//! messaging, public statements, voting, elimination, final pleas, final
//! vote) until two finalists remain. Each phase delegates text production
//! to a pluggable generation capability and folds the results into a
//! per-contestant memory that shapes future generations.

pub mod backend;
pub mod driver;
pub mod errors;
pub mod game_state;
pub mod llm;
pub mod messages;
pub mod phases;
pub mod text;
pub mod voting;

pub use backend::Config;
pub use backend::LLMClient;
pub use backend::LLMClientResponse;
pub use backend::LlamaSimulation;
pub use backend::SimulationResult;
pub use driver::Simulation;
pub use errors::SimError;
pub use game_state::ContestantStatus;
pub use game_state::GameState;
pub use game_state::Message;
pub use game_state::RoundResult;
pub use game_state::SurvivorContestant;
pub use game_state::Vote;
pub use llm::LLM;
pub use llm::MockLLMClient;
pub use phases::FinalPleaState;
pub use phases::FinalVoteState;
pub use phases::GameOverState;
pub use phases::Phase;
pub use phases::PrivateChatState;
pub use phases::PublicStatementState;
pub use phases::VotingState;
