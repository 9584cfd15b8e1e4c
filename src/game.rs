//! Match orchestration: round count, per-round sub-streams, scoring.
use vstd::prelude::*;

use crate::random::{percent_of, round_state, stream_state, xorshift, SeededRng};
use crate::strategy::{execute_player_strategy, player_move, Move, PlayerStrategy};
use crate::{payoff, payoff_spec};

verus! {

/// One round of a match.
#[derive(Clone, Copy, Debug, PartialEq, Eq, Structural)]
pub struct RoundResult {
    pub round: u8,
    pub move_a: Move,
    pub move_b: Move,
    pub score_a: u8,
    pub score_b: u8,
    pub cumulative_a: u32,
    pub cumulative_b: u32,
}

/// A whole match: every round, the final totals, and the round count.
#[derive(Clone, Debug)]
pub struct MatchResult {
    pub rounds: Vec<RoundResult>,
    pub total_score_a: u32,
    pub total_score_b: u32,
    pub round_count: u8,
}

/// How many rounds a match lasts: at least `min_rounds`, at most
/// `max_rounds`, and each round past the minimum ends the match with
/// probability `end_probability` percent.
#[derive(Clone, Copy, Debug, PartialEq, Eq, Structural)]
pub struct RoundConfig {
    pub min_rounds: u8,
    pub max_rounds: u8,
    pub end_probability: u8,
}

/// Largest tournament that plays the standard tier.
pub const STANDARD_TIER_LIMIT: u32 = 1000;

/// The tier of tournaments of at most 1000 participants.
pub open spec fn standard_config() -> RoundConfig {
    RoundConfig { min_rounds: 20, max_rounds: 50, end_probability: 5 }
}

/// The tier of tournaments of more than 1000 participants.
pub open spec fn compressed_config() -> RoundConfig {
    RoundConfig { min_rounds: 10, max_rounds: 30, end_probability: 7 }
}

/// The tier a tournament of `participant_count` plays.
pub open spec fn tier_config(participant_count: u32) -> RoundConfig {
    if participant_count <= STANDARD_TIER_LIMIT {
        standard_config()
    } else {
        compressed_config()
    }
}

impl RoundConfig {
    /// The tier for tournaments of at most 1000 participants.
    pub fn standard() -> (r: Self)
        ensures
            r == standard_config(),
    {
        RoundConfig { min_rounds: 20, max_rounds: 50, end_probability: 5 }
    }

    /// The tier for tournaments of more than 1000 participants.
    pub fn compressed() -> (r: Self)
        ensures
            r == compressed_config(),
    {
        RoundConfig { min_rounds: 10, max_rounds: 30, end_probability: 7 }
    }
}

/// The early-stop walk from `rounds`: the round count it settles on and the
/// generator state after it.
pub open spec fn round_walk(s: u64, rounds: int, config: RoundConfig) -> (u8, u64)
    decreases config.max_rounds - rounds,
{
    if rounds >= config.max_rounds {
        (rounds as u8, s)
    } else if percent_of(s) < config.end_probability {
        (rounds as u8, xorshift(s))
    } else {
        round_walk(xorshift(s), rounds + 1, config)
    }
}

proof fn lemma_round_walk_bounds(s: u64, rounds: int, config: RoundConfig)
    requires
        0 <= rounds,
    ensures
        rounds <= config.max_rounds ==> rounds <= round_walk(s, rounds, config).0 <= config.max_rounds,
        rounds >= config.max_rounds ==> round_walk(s, rounds, config).0 == rounds as u8,
    decreases config.max_rounds - rounds,
{
    if rounds < config.max_rounds && percent_of(s) >= config.end_probability {
        lemma_round_walk_bounds(xorshift(s), rounds + 1, config);
    }
}

/// Draws the number of rounds of a match.
pub fn determine_round_count(rng: &mut SeededRng, config: &RoundConfig) -> (r: u8)
    ensures
        (r, final(rng)@) == round_walk(old(rng)@, config.min_rounds as int, *config),
        config.min_rounds <= config.max_rounds ==> config.min_rounds <= r <= config.max_rounds,
        config.min_rounds > config.max_rounds ==> r == config.min_rounds,
{
    proof {
        lemma_round_walk_bounds(rng@, config.min_rounds as int, *config);
    }
    let mut rounds = config.min_rounds;
    while rounds < config.max_rounds
        invariant
            round_walk(rng@, rounds as int, *config) == round_walk(
                old(rng)@,
                config.min_rounds as int,
                *config,
            ),
            config.min_rounds <= config.max_rounds ==> config.min_rounds <= round_walk(
                old(rng)@,
                config.min_rounds as int,
                *config,
            ).0 <= config.max_rounds,
        decreases config.max_rounds - rounds,
    {
        if rng.next_percent() < config.end_probability {
            return rounds;
        }
        rounds = rounds + 1;
    }
    rounds
}

/// The state of the match stream once the round count has been drawn.
pub open spec fn play_state(seed: Seq<u8>, match_index: u32, participant_count: u32) -> u64 {
    round_walk(
        stream_state(seed, match_index),
        tier_config(participant_count).min_rounds as int,
        tier_config(participant_count),
    ).1
}

/// The number of rounds of the match.
pub open spec fn match_round_count(seed: Seq<u8>, match_index: u32, participant_count: u32) -> u8 {
    round_walk(
        stream_state(seed, match_index),
        tier_config(participant_count).min_rounds as int,
        tier_config(participant_count),
    ).0
}

/// Both moves of round `r`, given the histories of the rounds before it;
/// each player draws from its own sub-stream of state `s`.
pub open spec fn round_moves(
    a: PlayerStrategy,
    b: PlayerStrategy,
    s: u64,
    r: nat,
    ha: Seq<Move>,
    hb: Seq<Move>,
) -> (Move, Move) {
    (
        player_move(a, hb, ha, r as u8, round_state(s, (2 * r) as u8)),
        player_move(b, ha, hb, r as u8, round_state(s, (2 * r + 1) as u8)),
    )
}

/// The move histories of both players after `k` rounds.
pub open spec fn histories(a: PlayerStrategy, b: PlayerStrategy, s: u64, k: nat) -> (Seq<Move>, Seq<Move>)
    decreases k,
{
    if k == 0 {
        (Seq::empty(), Seq::empty())
    } else {
        let (ha, hb) = histories(a, b, s, (k - 1) as nat);
        let (ma, mb) = round_moves(a, b, s, (k - 1) as nat, ha, hb);
        (ha.push(ma), hb.push(mb))
    }
}

/// Side A's score over the first `k` rounds.
pub open spec fn score_sum_a(ha: Seq<Move>, hb: Seq<Move>, k: nat) -> nat
    decreases k,
{
    if k == 0 {
        0
    } else {
        score_sum_a(ha, hb, (k - 1) as nat) + payoff_spec(ha[k - 1], hb[k - 1]).0 as nat
    }
}

/// Side B's score over the first `k` rounds.
pub open spec fn score_sum_b(ha: Seq<Move>, hb: Seq<Move>, k: nat) -> nat
    decreases k,
{
    if k == 0 {
        0
    } else {
        score_sum_b(ha, hb, (k - 1) as nat) + payoff_spec(ha[k - 1], hb[k - 1]).1 as nat
    }
}

/// The record of round `k` of histories `ha`, `hb`.
pub open spec fn round_record(ha: Seq<Move>, hb: Seq<Move>, k: int) -> RoundResult {
    RoundResult {
        round: k as u8,
        move_a: ha[k],
        move_b: hb[k],
        score_a: payoff_spec(ha[k], hb[k]).0,
        score_b: payoff_spec(ha[k], hb[k]).1,
        cumulative_a: score_sum_a(ha, hb, (k + 1) as nat) as u32,
        cumulative_b: score_sum_b(ha, hb, (k + 1) as nat) as u32,
    }
}

/// `m` is the match of `a` against `b` for this seed, match index and tournament size.
pub open spec fn is_match_of(
    m: MatchResult,
    a: PlayerStrategy,
    b: PlayerStrategy,
    seed: Seq<u8>,
    match_index: u32,
    participant_count: u32,
) -> bool {
    let n = match_round_count(seed, match_index, participant_count);
    let (ha, hb) = histories(a, b, play_state(seed, match_index, participant_count), n as nat);
    &&& m.round_count == n
    &&& m.rounds@.len() == n
    &&& forall|k: int| 0 <= k < n ==> #[trigger] m.rounds@[k] == round_record(ha, hb, k)
    &&& m.total_score_a == score_sum_a(ha, hb, n as nat)
    &&& m.total_score_b == score_sum_b(ha, hb, n as nat)
}

proof fn lemma_histories_len(a: PlayerStrategy, b: PlayerStrategy, s: u64, k: nat)
    ensures
        histories(a, b, s, k).0.len() == k,
        histories(a, b, s, k).1.len() == k,
    decreases k,
{
    if k > 0 {
        lemma_histories_len(a, b, s, (k - 1) as nat);
    }
}

proof fn lemma_score_sums_extend(ha: Seq<Move>, hb: Seq<Move>, x: Move, y: Move, k: nat)
    requires
        k <= ha.len(),
        k <= hb.len(),
    ensures
        score_sum_a(ha.push(x), hb.push(y), k) == score_sum_a(ha, hb, k),
        score_sum_b(ha.push(x), hb.push(y), k) == score_sum_b(ha, hb, k),
        score_sum_a(ha, hb, k) <= 5 * k,
        score_sum_b(ha, hb, k) <= 5 * k,
    decreases k,
{
    if k > 0 {
        lemma_score_sums_extend(ha, hb, x, y, (k - 1) as nat);
        assert(ha.push(x)[k - 1] == ha[k - 1]);
        assert(hb.push(y)[k - 1] == hb[k - 1]);
    }
}

/// Plays a whole match between two strategies.
pub fn run_match(
    strategy_a: &PlayerStrategy,
    strategy_b: &PlayerStrategy,
    seed: &[u8; 32],
    match_index: u32,
    participant_count: u32,
) -> (r: MatchResult)
    ensures
        is_match_of(r, *strategy_a, *strategy_b, seed@, match_index, participant_count),
        tier_config(participant_count).min_rounds <= r.round_count <= tier_config(participant_count).max_rounds,
{
    proof {
        lemma_match_round_bounds(seed@, match_index, participant_count);
    }
    let mut rng = SeededRng::new(seed, match_index);
    let round_config = if participant_count <= STANDARD_TIER_LIMIT {
        RoundConfig::standard()
    } else {
        RoundConfig::compressed()
    };
    let round_count = determine_round_count(&mut rng, &round_config);
    let ghost s = rng@;
    let ghost a = *strategy_a;
    let ghost b = *strategy_b;
    let mut history_a: Vec<Move> = Vec::new();
    let mut history_b: Vec<Move> = Vec::new();
    let mut rounds: Vec<RoundResult> = Vec::new();
    let mut total_a: u32 = 0;
    let mut total_b: u32 = 0;
    let mut round: u8 = 0;
    while round < round_count
        invariant
            round <= round_count <= 50,
            rng@ == s,
            a == *strategy_a,
            b == *strategy_b,
            (history_a@, history_b@) == histories(a, b, s, round as nat),
            history_a@.len() == round,
            history_b@.len() == round,
            rounds@.len() == round,
            forall|k: int| 0 <= k < round ==> #[trigger] rounds@[k] == round_record(history_a@, history_b@, k),
            total_a == score_sum_a(history_a@, history_b@, round as nat),
            total_b == score_sum_b(history_a@, history_b@, round as nat),
        decreases round_count - round,
    {
        let mut rng_a = rng.for_round(round * 2);
        let mut rng_b = rng.for_round(round * 2 + 1);
        let move_a = execute_player_strategy(strategy_a, history_b.as_slice(), history_a.as_slice(), round, &mut rng_a);
        let move_b = execute_player_strategy(strategy_b, history_a.as_slice(), history_b.as_slice(), round, &mut rng_b);
        let (score_a, score_b) = payoff(move_a, move_b);
        proof {
            lemma_score_sums_extend(history_a@, history_b@, move_a, move_b, round as nat);
        }
        let ghost old_a = history_a@;
        let ghost old_b = history_b@;
        total_a = total_a + score_a as u32;
        total_b = total_b + score_b as u32;
        rounds.push(
            RoundResult {
                round,
                move_a,
                move_b,
                score_a,
                score_b,
                cumulative_a: total_a,
                cumulative_b: total_b,
            },
        );
        history_a.push(move_a);
        history_b.push(move_b);
        proof {
            let na = history_a@;
            let nb = history_b@;
            assert(na == old_a.push(move_a));
            assert(score_sum_a(na, nb, (round + 1) as nat) == total_a);
            assert(score_sum_b(na, nb, (round + 1) as nat) == total_b);
            assert forall|k: int| 0 <= k < round + 1 implies #[trigger] rounds@[k] == round_record(na, nb, k) by {
                if k < round {
                    lemma_score_sums_extend(old_a, old_b, move_a, move_b, (k + 1) as nat);
                    assert(round_record(na, nb, k) == round_record(old_a, old_b, k));
                }
            }
        }
        round = round + 1;
    }
    MatchResult { rounds, total_score_a: total_a, total_score_b: total_b, round_count }
}

/// The round count of every match lies within its tier's bounds.
pub proof fn lemma_match_round_bounds(seed: Seq<u8>, match_index: u32, participant_count: u32)
    ensures
        tier_config(participant_count).min_rounds <= match_round_count(seed, match_index, participant_count)
            <= tier_config(participant_count).max_rounds,
{
    let c = tier_config(participant_count);
    lemma_round_walk_bounds(stream_state(seed, match_index), c.min_rounds as int, c);
}

/// A match is a function of its inputs: two results of the same match agree
/// in every round and in every total.
pub proof fn lemma_match_deterministic(
    m1: MatchResult,
    m2: MatchResult,
    a: PlayerStrategy,
    b: PlayerStrategy,
    seed: Seq<u8>,
    match_index: u32,
    participant_count: u32,
)
    requires
        is_match_of(m1, a, b, seed, match_index, participant_count),
        is_match_of(m2, a, b, seed, match_index, participant_count),
    ensures
        m1.rounds@ == m2.rounds@,
        m1.total_score_a == m2.total_score_a,
        m1.total_score_b == m2.total_score_b,
        m1.round_count == m2.round_count,
{
    assert(m1.rounds@ =~= m2.rounds@);
}

} // verus!
