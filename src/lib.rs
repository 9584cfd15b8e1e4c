//! Deterministic match engine and pairing generator for an iterated
//! Prisoner's Dilemma tournament.
use vstd::prelude::*;

pub mod game;
pub mod op;
pub mod pairing;
pub mod parity;
pub mod random;
pub mod strategy;
pub mod vm;

pub use game::{run_match, MatchResult, RoundConfig, RoundResult};
pub use pairing::{calculate_match_count, effective_k, generate_all_pairings, get_pairing_for_match};
pub use random::SeededRng;
pub use vm::{execute_bytecode, validate_bytecode, BytecodeError, MAX_BYTECODE_LEN};
pub use strategy::{execute_player_strategy, execute_strategy, Move, PlayerStrategy, StrategyBase};

verus! {

/// The payoff table: `(score of the first player, score of the second)`.
pub open spec fn payoff_spec(a: Move, b: Move) -> (u8, u8) {
    match (a, b) {
        (Move::Cooperate, Move::Cooperate) => (3, 3),
        (Move::Cooperate, Move::Defect) => (0, 5),
        (Move::Defect, Move::Cooperate) => (5, 0),
        (Move::Defect, Move::Defect) => (1, 1),
    }
}

/// Scores one round of the Prisoner's Dilemma: returns `(score_a, score_b)`.
pub fn payoff(a: Move, b: Move) -> (r: (u8, u8))
    ensures
        r == payoff_spec(a, b),
{
    match (a, b) {
        (Move::Cooperate, Move::Cooperate) => (3, 3),
        (Move::Cooperate, Move::Defect) => (0, 5),
        (Move::Defect, Move::Cooperate) => (5, 0),
        (Move::Defect, Move::Defect) => (1, 1),
    }
}

} // verus!
