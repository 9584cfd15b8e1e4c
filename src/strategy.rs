//! Moves, the built-in strategies, and dispatch between built-in and
//! bytecode strategies.
use vstd::prelude::*;

use crate::random::{percent_of, xorshift, SeededRng};
use crate::vm::{execute_bytecode, vm_move, vm_outcome};
use crate::{payoff, payoff_spec};

verus! {

/// A move in the Prisoner's Dilemma.
#[derive(Clone, Copy, Debug, PartialEq, Eq, Structural)]
pub enum Move {
    Cooperate,
    Defect,
}

/// The built-in fixed policies.
#[derive(Clone, Copy, Debug, PartialEq, Eq, Structural)]
pub enum StrategyBase {
    /// Copies the opponent's last move; starts by cooperating.
    TitForTat,
    /// Always defects.
    AlwaysDefect,
    /// Always cooperates.
    AlwaysCooperate,
    /// Cooperates until the opponent defects once, then always defects.
    GrimTrigger,
    /// Win-stay, lose-switch.
    Pavlov,
    /// Tit-for-Tat that starts by defecting.
    SuspiciousTitForTat,
    /// Cooperates with probability one half.
    Random,
    /// Defects only after two consecutive opponent defections.
    TitForTwoTats,
    /// Retaliates with growing bursts of defection, then forgives.
    Gradual,
}

/// A participant's strategy: a built-in policy or a bytecode program.
#[derive(Clone, Debug, PartialEq, Eq)]
pub enum PlayerStrategy {
    Builtin(StrategyBase),
    Custom(Vec<u8>),
}

/// The other move.
pub open spec fn flip(m: Move) -> Move {
    match m {
        Move::Cooperate => Move::Defect,
        Move::Defect => Move::Cooperate,
    }
}

/// Number of defections in a history.
pub open spec fn defect_count(h: Seq<Move>) -> nat
    decreases h.len(),
{
    if h.len() == 0 {
        0
    } else {
        defect_count(h.drop_last()) + if h.last() == Move::Defect { 1nat } else { 0nat }
    }
}

/// The last move of `h`, or Cooperate when `h` is empty.
pub open spec fn last_or_cooperate(h: Seq<Move>) -> Move {
    if h.len() == 0 {
        Move::Cooperate
    } else {
        h.last()
    }
}

/// Pavlov: cooperate first; then repeat the own last move when it earned at
/// least 3, else switch (a missing opponent move counts as Cooperate).
pub open spec fn pavlov_move(opp: Seq<Move>, my: Seq<Move>) -> Move {
    if my.len() == 0 {
        Move::Cooperate
    } else if payoff_spec(my.last(), last_or_cooperate(opp)).0 >= 3 {
        my.last()
    } else {
        flip(my.last())
    }
}

/// Tit-for-Two-Tats: defect only when the opponent's last two moves were defections.
pub open spec fn tit_for_two_tats_move(opp: Seq<Move>) -> Move {
    if opp.len() >= 2 && opp[opp.len() - 2] == Move::Defect && opp[opp.len() - 1] == Move::Defect {
        Move::Defect
    } else {
        Move::Cooperate
    }
}

/// Gradual: after `t` opponent defections the player has made `t(t+1)/2` of its own.
pub open spec fn gradual_move(opp: Seq<Move>, my: Seq<Move>) -> Move {
    let t = defect_count(opp);
    if defect_count(my) < t * (t + 1) / 2 {
        Move::Defect
    } else {
        Move::Cooperate
    }
}

/// The move a built-in policy makes, given the generator state `rng`.
pub open spec fn builtin_move(base: StrategyBase, opp: Seq<Move>, my: Seq<Move>, rng: u64) -> Move {
    match base {
        StrategyBase::TitForTat => last_or_cooperate(opp),
        StrategyBase::AlwaysDefect => Move::Defect,
        StrategyBase::AlwaysCooperate => Move::Cooperate,
        StrategyBase::GrimTrigger => if defect_count(opp) > 0 {
            Move::Defect
        } else {
            Move::Cooperate
        },
        StrategyBase::Pavlov => pavlov_move(opp, my),
        StrategyBase::SuspiciousTitForTat => if opp.len() == 0 {
            Move::Defect
        } else {
            opp.last()
        },
        StrategyBase::Random => if percent_of(rng) < 50 {
            Move::Cooperate
        } else {
            Move::Defect
        },
        StrategyBase::TitForTwoTats => tit_for_two_tats_move(opp),
        StrategyBase::Gradual => gradual_move(opp, my),
    }
}

/// The generator state after a built-in policy has moved: only Random draws.
pub open spec fn builtin_rng_after(base: StrategyBase, rng: u64) -> u64 {
    if base == StrategyBase::Random {
        xorshift(rng)
    } else {
        rng
    }
}

proof fn lemma_defect_count_bound(h: Seq<Move>)
    ensures
        defect_count(h) <= h.len(),
    decreases h.len(),
{
    if h.len() > 0 {
        lemma_defect_count_bound(h.drop_last());
    }
}

/// Counts the defections in a history.
pub(crate) fn count_defections(h: &[Move]) -> (r: usize)
    ensures
        r == defect_count(h@),
{
    let mut count: usize = 0;
    let mut i: usize = 0;
    while i < h.len()
        invariant
            i <= h@.len(),
            count == defect_count(h@.subrange(0, i as int)),
            count <= i,
        decreases h@.len() - i,
    {
        proof {
            let s = h@.subrange(0, i as int + 1);
            assert(s.drop_last() =~= h@.subrange(0, i as int));
        }
        if h[i] == Move::Defect {
            count = count + 1;
        }
        i = i + 1;
    }
    proof {
        assert(h@.subrange(0, h@.len() as int) =~= h@);
    }
    count
}

/// Pavlov (win-stay, lose-switch).
fn execute_pavlov(opponent_history: &[Move], my_history: &[Move]) -> (r: Move)
    ensures
        r == pavlov_move(opponent_history@, my_history@),
{
    if my_history.len() == 0 {
        return Move::Cooperate;
    }
    let my_last = my_history[my_history.len() - 1];
    let opp_last = if opponent_history.len() == 0 {
        Move::Cooperate
    } else {
        opponent_history[opponent_history.len() - 1]
    };
    let (my_score, _) = payoff(my_last, opp_last);
    if my_score >= 3 {
        my_last
    } else {
        match my_last {
            Move::Cooperate => Move::Defect,
            Move::Defect => Move::Cooperate,
        }
    }
}

/// Tit-for-Two-Tats.
fn execute_tit_for_two_tats(opponent_history: &[Move]) -> (r: Move)
    ensures
        r == tit_for_two_tats_move(opponent_history@),
{
    let n = opponent_history.len();
    if n < 2 {
        return Move::Cooperate;
    }
    if opponent_history[n - 2] == Move::Defect && opponent_history[n - 1] == Move::Defect {
        Move::Defect
    } else {
        Move::Cooperate
    }
}

/// Gradual: escalating retaliation that tapers once the opponent reforms.
fn execute_gradual(opponent_history: &[Move], my_history: &[Move]) -> (r: Move)
    ensures
        r == gradual_move(opponent_history@, my_history@),
{
    let their_defections = count_defections(opponent_history) as u128;
    let my_defections = count_defections(my_history) as u128;
    proof {
        lemma_defect_count_bound(opponent_history@);
    }
    assert(their_defections * (their_defections + 1) <= 0xFFFF_FFFF_FFFF_FFFF * 0x1_0000_0000_0000_0000)
        by (nonlinear_arith)
        requires
            their_defections <= 0xFFFF_FFFF_FFFF_FFFF,
    ;
    let expected = their_defections * (their_defections + 1) / 2;
    if my_defections < expected {
        Move::Defect
    } else {
        Move::Cooperate
    }
}

/// Evaluates a built-in policy for one round; only Random consumes `rng`.
pub fn execute_strategy(
    base: StrategyBase,
    opponent_history: &[Move],
    my_history: &[Move],
    round: u8,
    rng: &mut SeededRng,
) -> (r: Move)
    ensures
        r == builtin_move(base, opponent_history@, my_history@, old(rng)@),
        final(rng)@ == builtin_rng_after(base, old(rng)@),
{
    match base {
        StrategyBase::TitForTat => {
            if opponent_history.len() == 0 {
                Move::Cooperate
            } else {
                opponent_history[opponent_history.len() - 1]
            }
        },
        StrategyBase::AlwaysDefect => Move::Defect,
        StrategyBase::AlwaysCooperate => Move::Cooperate,
        StrategyBase::GrimTrigger => {
            if count_defections(opponent_history) > 0 {
                Move::Defect
            } else {
                Move::Cooperate
            }
        },
        StrategyBase::Pavlov => execute_pavlov(opponent_history, my_history),
        StrategyBase::SuspiciousTitForTat => {
            if opponent_history.len() == 0 {
                Move::Defect
            } else {
                opponent_history[opponent_history.len() - 1]
            }
        },
        StrategyBase::Random => {
            if rng.next_percent() < 50 {
                Move::Cooperate
            } else {
                Move::Defect
            }
        },
        StrategyBase::TitForTwoTats => execute_tit_for_two_tats(opponent_history),
        StrategyBase::Gradual => execute_gradual(opponent_history, my_history),
    }
}

/// The move a participant's strategy makes.
pub open spec fn player_move(s: PlayerStrategy, opp: Seq<Move>, my: Seq<Move>, round: u8, rng: u64) -> Move {
    match s {
        PlayerStrategy::Builtin(base) => builtin_move(base, opp, my, rng),
        PlayerStrategy::Custom(code) => vm_move(code@, opp, my, round, rng),
    }
}

/// The generator state after a participant's strategy has moved.
pub open spec fn player_rng_after(s: PlayerStrategy, opp: Seq<Move>, my: Seq<Move>, round: u8, rng: u64) -> u64 {
    match s {
        PlayerStrategy::Builtin(base) => builtin_rng_after(base, rng),
        PlayerStrategy::Custom(code) => vm_outcome(code@, opp, my, round, rng).1,
    }
}

/// Evaluates a participant's strategy, built-in or bytecode, for one round.
pub fn execute_player_strategy(
    strategy: &PlayerStrategy,
    opponent_history: &[Move],
    my_history: &[Move],
    round: u8,
    rng: &mut SeededRng,
) -> (r: Move)
    ensures
        r == player_move(*strategy, opponent_history@, my_history@, round, old(rng)@),
        final(rng)@ == player_rng_after(*strategy, opponent_history@, my_history@, round, old(rng)@),
{
    match strategy {
        PlayerStrategy::Builtin(base) => execute_strategy(*base, opponent_history, my_history, round, rng),
        PlayerStrategy::Custom(code) => execute_bytecode(code.as_slice(), opponent_history, my_history, round, rng),
    }
}

} // verus!
