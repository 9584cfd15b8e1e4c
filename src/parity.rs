//! Bytecode programs that play exactly as the built-in policies.
use vstd::prelude::*;

use crate::op;
use crate::game::{histories, is_match_of, lemma_match_round_bounds, match_round_count, play_state, MatchResult};
use crate::random::round_state;
use crate::strategy::{builtin_move, last_or_cooperate, player_move, Move, PlayerStrategy, StrategyBase};
use crate::vm::{
    bool_bit, capped_defects, history_bit, move_bit, score_last, vm_move, vm_outcome, vm_run, vm_step,
    VmStep,
};

verus! {

/// Whether a built-in policy has a bytecode program that plays as it does:
/// all but Random and Gradual.
pub open spec fn has_program(base: StrategyBase) -> bool {
    base != StrategyBase::Random && base != StrategyBase::Gradual
}

/// The program that plays as a built-in policy.
pub open spec fn builtin_program(base: StrategyBase) -> Seq<u8> {
    match base {
        StrategyBase::AlwaysCooperate => seq![op::COOP],
        StrategyBase::AlwaysDefect => seq![op::DEFECT],
        StrategyBase::TitForTat => seq![op::OPP_LAST, op::RETURN],
        StrategyBase::GrimTrigger => seq![
            op::OPP_DEFECTS, op::PUSH, 0, op::GT, op::JMP_FWD_IF, 1, op::COOP, op::DEFECT,
        ],
        StrategyBase::SuspiciousTitForTat => seq![
            op::ROUND, op::PUSH, 0, op::EQ, op::JMP_FWD_IF, 2, op::OPP_LAST, op::RETURN, op::DEFECT,
        ],
        StrategyBase::TitForTwoTats => seq![
            op::ROUND, op::PUSH, 2, op::LT, op::JMP_FWD_IF, 8, op::PUSH, 0, op::OPP_N, op::PUSH, 1,
            op::OPP_N, op::AND, op::RETURN, op::COOP,
        ],
        StrategyBase::Pavlov => seq![
            op::ROUND, op::PUSH, 0, op::EQ, op::JMP_FWD_IF, 11, op::SCORE_LAST, op::PUSH, 3, op::LT,
            op::JMP_FWD_IF, 2, op::MY_LAST, op::RETURN, op::MY_LAST, op::NOT, op::RETURN, op::COOP,
        ],
        _ => seq![op::COOP],
    }
}

proof fn lemma_run_next(
    code: Seq<u8>,
    opp: Seq<Move>,
    my: Seq<Move>,
    round: u8,
    pc: int,
    st: Seq<u8>,
    rng: u64,
    fuel: nat,
    pc2: int,
    st2: Seq<u8>,
)
    requires
        0 <= pc < code.len(),
        fuel > 0,
        vm_step(code, opp, my, round, pc, st, rng) == VmStep::Next(pc2, st2, rng),
    ensures
        vm_run(code, opp, my, round, pc, st, rng, fuel) == vm_run(code, opp, my, round, pc2, st2, rng, (fuel - 1) as nat),
{
}

proof fn lemma_run_halt(
    code: Seq<u8>,
    opp: Seq<Move>,
    my: Seq<Move>,
    round: u8,
    pc: int,
    st: Seq<u8>,
    rng: u64,
    fuel: nat,
    m: Option<Move>,
)
    requires
        0 <= pc < code.len(),
        fuel > 0,
        vm_step(code, opp, my, round, pc, st, rng) == VmStep::Halt(m, rng),
    ensures
        vm_run(code, opp, my, round, pc, st, rng, fuel) == (m, rng),
{
}

/// The move a stack value stands for.
spec fn bit_move(b: u8) -> Move {
    if b == 0 {
        Move::Cooperate
    } else {
        Move::Defect
    }
}

proof fn lemma_tit_for_tat(opp: Seq<Move>, my: Seq<Move>, round: u8, rng: u64)
    ensures
        vm_outcome(builtin_program(StrategyBase::TitForTat), opp, my, round, rng) == (
            Some(last_or_cooperate(opp)),
            rng,
        ),
{
    let code = builtin_program(StrategyBase::TitForTat);
    assert(code.len() == 2 && code[0] == op::OPP_LAST && code[1] == op::RETURN);
    let e = Seq::<u8>::empty();
    let b = move_bit(last_or_cooperate(opp));
    lemma_run_next(code, opp, my, round, 0, e, rng, 128, 1, e.push(b));
    assert(e.push(b).last() == b);
    lemma_run_halt(code, opp, my, round, 1, e.push(b), rng, 127, Some(bit_move(b)));
}

proof fn lemma_grim_trigger(opp: Seq<Move>, my: Seq<Move>, round: u8, rng: u64)
    ensures
        vm_outcome(builtin_program(StrategyBase::GrimTrigger), opp, my, round, rng) == (
            Some(builtin_move(StrategyBase::GrimTrigger, opp, my, rng)),
            rng,
        ),
{
    let code = builtin_program(StrategyBase::GrimTrigger);
    assert(code.len() == 8 && code[0] == op::OPP_DEFECTS && code[1] == op::PUSH && code[2] == 0
        && code[3] == op::GT && code[4] == op::JMP_FWD_IF && code[5] == 1 && code[6] == op::COOP
        && code[7] == op::DEFECT);
    let e = Seq::<u8>::empty();
    let c = capped_defects(opp);
    let s1 = e.push(c);
    let s2 = s1.push(0u8);
    assert(s2.drop_last() == s1 && s2.last() == 0 && s1.last() == c && s1.drop_last() == e);
    let g = bool_bit(c > 0);
    let s3 = e.push(g);
    assert(s3.last() == g && s3.drop_last() == e);
    lemma_run_next(code, opp, my, round, 0, e, rng, 128, 1, s1);
    lemma_run_next(code, opp, my, round, 1, s1, rng, 127, 3, s2);
    lemma_run_next(code, opp, my, round, 3, s2, rng, 126, 4, s3);
    if g != 0 {
        lemma_run_next(code, opp, my, round, 4, s3, rng, 125, 7, e);
        lemma_run_halt(code, opp, my, round, 7, e, rng, 124, Some(Move::Defect));
    } else {
        lemma_run_next(code, opp, my, round, 4, s3, rng, 125, 6, e);
        lemma_run_halt(code, opp, my, round, 6, e, rng, 124, Some(Move::Cooperate));
    }
}

proof fn lemma_suspicious_tit_for_tat(opp: Seq<Move>, my: Seq<Move>, round: u8, rng: u64)
    requires
        opp.len() == round,
    ensures
        vm_outcome(builtin_program(StrategyBase::SuspiciousTitForTat), opp, my, round, rng) == (
            Some(builtin_move(StrategyBase::SuspiciousTitForTat, opp, my, rng)),
            rng,
        ),
{
    let code = builtin_program(StrategyBase::SuspiciousTitForTat);
    assert(code.len() == 9 && code[0] == op::ROUND && code[1] == op::PUSH && code[2] == 0
        && code[3] == op::EQ && code[4] == op::JMP_FWD_IF && code[5] == 2 && code[6] == op::OPP_LAST
        && code[7] == op::RETURN && code[8] == op::DEFECT);
    let e = Seq::<u8>::empty();
    let s1 = e.push(round);
    let s2 = s1.push(0u8);
    assert(s2.drop_last() == s1 && s2.last() == 0 && s1.last() == round && s1.drop_last() == e);
    let z = bool_bit(round == 0);
    let s3 = e.push(z);
    assert(s3.last() == z && s3.drop_last() == e);
    lemma_run_next(code, opp, my, round, 0, e, rng, 128, 1, s1);
    lemma_run_next(code, opp, my, round, 1, s1, rng, 127, 3, s2);
    lemma_run_next(code, opp, my, round, 3, s2, rng, 126, 4, s3);
    if z != 0 {
        lemma_run_next(code, opp, my, round, 4, s3, rng, 125, 8, e);
        lemma_run_halt(code, opp, my, round, 8, e, rng, 124, Some(Move::Defect));
    } else {
        lemma_run_next(code, opp, my, round, 4, s3, rng, 125, 6, e);
        let b = move_bit(last_or_cooperate(opp));
        let s4 = e.push(b);
        assert(s4.last() == b);
        lemma_run_next(code, opp, my, round, 6, e, rng, 124, 7, s4);
        lemma_run_halt(code, opp, my, round, 7, s4, rng, 123, Some(bit_move(b)));
    }
}

proof fn lemma_tit_for_two_tats(opp: Seq<Move>, my: Seq<Move>, round: u8, rng: u64)
    requires
        opp.len() == round,
    ensures
        vm_outcome(builtin_program(StrategyBase::TitForTwoTats), opp, my, round, rng) == (
            Some(builtin_move(StrategyBase::TitForTwoTats, opp, my, rng)),
            rng,
        ),
{
    let code = builtin_program(StrategyBase::TitForTwoTats);
    assert(code.len() == 15 && code[0] == op::ROUND && code[1] == op::PUSH && code[2] == 2
        && code[3] == op::LT && code[4] == op::JMP_FWD_IF && code[5] == 8 && code[6] == op::PUSH
        && code[7] == 0 && code[8] == op::OPP_N && code[9] == op::PUSH && code[10] == 1 && code[11]
        == op::OPP_N && code[12] == op::AND && code[13] == op::RETURN && code[14] == op::COOP);
    let e = Seq::<u8>::empty();
    let s1 = e.push(round);
    let s2 = s1.push(2u8);
    assert(s2.drop_last() == s1 && s2.last() == 2 && s1.last() == round && s1.drop_last() == e);
    let l = bool_bit(round < 2);
    let s3 = e.push(l);
    assert(s3.last() == l && s3.drop_last() == e);
    lemma_run_next(code, opp, my, round, 0, e, rng, 128, 1, s1);
    lemma_run_next(code, opp, my, round, 1, s1, rng, 127, 3, s2);
    lemma_run_next(code, opp, my, round, 3, s2, rng, 126, 4, s3);
    if l != 0 {
        lemma_run_next(code, opp, my, round, 4, s3, rng, 125, 14, e);
        lemma_run_halt(code, opp, my, round, 14, e, rng, 124, Some(Move::Cooperate));
    } else {
        lemma_run_next(code, opp, my, round, 4, s3, rng, 125, 6, e);
        let h0 = history_bit(opp, 0);
        let h1 = history_bit(opp, 1);
        let a0 = e.push(0u8);
        let a1 = e.push(h0);
        let a2 = a1.push(1u8);
        let a3 = a1.push(h1);
        let v = bool_bit(h0 != 0 && h1 != 0);
        let a4 = e.push(v);
        assert(a0.last() == 0 && a0.drop_last() == e);
        assert(a2.last() == 1 && a2.drop_last() == a1);
        assert(a3.last() == h1 && a3.drop_last() == a1 && a1.last() == h0 && a1.drop_last() == e);
        assert(a4.last() == v);
        lemma_run_next(code, opp, my, round, 6, e, rng, 124, 8, a0);
        lemma_run_next(code, opp, my, round, 8, a0, rng, 123, 9, a1);
        lemma_run_next(code, opp, my, round, 9, a1, rng, 122, 11, a2);
        lemma_run_next(code, opp, my, round, 11, a2, rng, 121, 12, a3);
        lemma_run_next(code, opp, my, round, 12, a3, rng, 120, 13, a4);
        lemma_run_halt(code, opp, my, round, 13, a4, rng, 119, Some(bit_move(v)));
    }
}

proof fn lemma_pavlov(opp: Seq<Move>, my: Seq<Move>, round: u8, rng: u64)
    requires
        my.len() == round,
    ensures
        vm_outcome(builtin_program(StrategyBase::Pavlov), opp, my, round, rng) == (
            Some(builtin_move(StrategyBase::Pavlov, opp, my, rng)),
            rng,
        ),
{
    let code = builtin_program(StrategyBase::Pavlov);
    assert(code.len() == 18 && code[0] == op::ROUND && code[1] == op::PUSH && code[2] == 0
        && code[3] == op::EQ && code[4] == op::JMP_FWD_IF && code[5] == 11 && code[6]
        == op::SCORE_LAST && code[7] == op::PUSH && code[8] == 3 && code[9] == op::LT && code[10]
        == op::JMP_FWD_IF && code[11] == 2 && code[12] == op::MY_LAST && code[13] == op::RETURN
        && code[14] == op::MY_LAST && code[15] == op::NOT && code[16] == op::RETURN && code[17]
        == op::COOP);
    let e = Seq::<u8>::empty();
    let s1 = e.push(round);
    let s2 = s1.push(0u8);
    assert(s2.drop_last() == s1 && s2.last() == 0 && s1.last() == round && s1.drop_last() == e);
    let z = bool_bit(round == 0);
    let s3 = e.push(z);
    assert(s3.last() == z && s3.drop_last() == e);
    lemma_run_next(code, opp, my, round, 0, e, rng, 128, 1, s1);
    lemma_run_next(code, opp, my, round, 1, s1, rng, 127, 3, s2);
    lemma_run_next(code, opp, my, round, 3, s2, rng, 126, 4, s3);
    if z != 0 {
        lemma_run_next(code, opp, my, round, 4, s3, rng, 125, 17, e);
        lemma_run_halt(code, opp, my, round, 17, e, rng, 124, Some(Move::Cooperate));
    } else {
        lemma_run_next(code, opp, my, round, 4, s3, rng, 125, 6, e);
        let sc = score_last(opp, my);
        let b1 = e.push(sc);
        let b2 = b1.push(3u8);
        assert(b2.last() == 3 && b2.drop_last() == b1 && b1.last() == sc && b1.drop_last() == e);
        let lo = bool_bit(sc < 3);
        let b3 = e.push(lo);
        assert(b3.last() == lo && b3.drop_last() == e);
        lemma_run_next(code, opp, my, round, 6, e, rng, 124, 7, b1);
        lemma_run_next(code, opp, my, round, 7, b1, rng, 123, 9, b2);
        lemma_run_next(code, opp, my, round, 9, b2, rng, 122, 10, b3);
        let mb = move_bit(last_or_cooperate(my));
        let c1 = e.push(mb);
        assert(c1.last() == mb && c1.drop_last() == e);
        if lo != 0 {
            lemma_run_next(code, opp, my, round, 10, b3, rng, 121, 14, e);
            lemma_run_next(code, opp, my, round, 14, e, rng, 120, 15, c1);
            let nb = bool_bit(mb == 0);
            let c2 = e.push(nb);
            assert(c2.last() == nb);
            lemma_run_next(code, opp, my, round, 15, c1, rng, 119, 16, c2);
            lemma_run_halt(code, opp, my, round, 16, c2, rng, 118, Some(bit_move(nb)));
        } else {
            lemma_run_next(code, opp, my, round, 10, b3, rng, 121, 12, e);
            lemma_run_next(code, opp, my, round, 12, e, rng, 120, 13, c1);
            lemma_run_halt(code, opp, my, round, 13, c1, rng, 119, Some(bit_move(mb)));
        }
    }
}

/// In any round whose index is the length of both histories, the program of
/// a built-in policy makes the built-in's move and draws nothing from the
/// generator.
pub proof fn lemma_program_parity(base: StrategyBase, opp: Seq<Move>, my: Seq<Move>, round: u8, rng: u64)
    requires
        has_program(base),
        opp.len() == round,
        my.len() == round,
    ensures
        vm_move(builtin_program(base), opp, my, round, rng) == builtin_move(base, opp, my, rng),
        vm_outcome(builtin_program(base), opp, my, round, rng).1 == rng,
{
    let code = builtin_program(base);
    match base {
        StrategyBase::AlwaysCooperate => {
            assert(code.len() == 1 && code[0] == op::COOP);
            lemma_run_halt(code, opp, my, round, 0, Seq::empty(), rng, 128, Some(Move::Cooperate));
        },
        StrategyBase::AlwaysDefect => {
            assert(code.len() == 1 && code[0] == op::DEFECT);
            lemma_run_halt(code, opp, my, round, 0, Seq::empty(), rng, 128, Some(Move::Defect));
        },
        StrategyBase::TitForTat => lemma_tit_for_tat(opp, my, round, rng),
        StrategyBase::GrimTrigger => lemma_grim_trigger(opp, my, round, rng),
        StrategyBase::SuspiciousTitForTat => lemma_suspicious_tit_for_tat(opp, my, round, rng),
        StrategyBase::TitForTwoTats => lemma_tit_for_two_tats(opp, my, round, rng),
        StrategyBase::Pavlov => lemma_pavlov(opp, my, round, rng),
        _ => {},
    }
}

/// `y` plays as `x`: the same strategy, or a built-in's program in place of the built-in.
pub open spec fn plays_like(x: PlayerStrategy, y: PlayerStrategy) -> bool {
    match (x, y) {
        (PlayerStrategy::Builtin(base), PlayerStrategy::Custom(code)) => has_program(base) && code@
            == builtin_program(base),
        _ => x == y,
    }
}

proof fn lemma_player_parity(x: PlayerStrategy, y: PlayerStrategy, opp: Seq<Move>, my: Seq<Move>, round: u8, rng: u64)
    requires
        plays_like(x, y),
        opp.len() == round,
        my.len() == round,
    ensures
        player_move(x, opp, my, round, rng) == player_move(y, opp, my, round, rng),
{
    match (x, y) {
        (PlayerStrategy::Builtin(base), PlayerStrategy::Custom(code)) => {
            lemma_program_parity(base, opp, my, round, rng);
        },
        _ => {},
    }
}

proof fn lemma_histories_parity(
    a1: PlayerStrategy,
    a2: PlayerStrategy,
    b1: PlayerStrategy,
    b2: PlayerStrategy,
    s: u64,
    k: nat,
)
    requires
        plays_like(a1, a2),
        plays_like(b1, b2),
        k <= 256,
    ensures
        histories(a1, b1, s, k) == histories(a2, b2, s, k),
        histories(a1, b1, s, k).0.len() == k,
        histories(a1, b1, s, k).1.len() == k,
    decreases k,
{
    if k > 0 {
        let r = (k - 1) as nat;
        lemma_histories_parity(a1, a2, b1, b2, s, r);
        let (ha, hb) = histories(a1, b1, s, r);
        lemma_player_parity(a1, a2, hb, ha, r as u8, round_state(s, (2 * r) as u8));
        lemma_player_parity(b1, b2, ha, hb, r as u8, round_state(s, (2 * r + 1) as u8));
    }
}

/// A match is unchanged when either side's built-in is replaced by its
/// program: the same round count, the same moves and scores in every round,
/// the same totals.
pub proof fn lemma_match_parity(
    m1: MatchResult,
    m2: MatchResult,
    a1: PlayerStrategy,
    a2: PlayerStrategy,
    b1: PlayerStrategy,
    b2: PlayerStrategy,
    seed: Seq<u8>,
    match_index: u32,
    participant_count: u32,
)
    requires
        plays_like(a1, a2),
        plays_like(b1, b2),
        is_match_of(m1, a1, b1, seed, match_index, participant_count),
        is_match_of(m2, a2, b2, seed, match_index, participant_count),
    ensures
        m1.round_count == m2.round_count,
        m1.rounds@ == m2.rounds@,
        m1.total_score_a == m2.total_score_a,
        m1.total_score_b == m2.total_score_b,
{
    lemma_match_round_bounds(seed, match_index, participant_count);
    let n = match_round_count(seed, match_index, participant_count);
    lemma_histories_parity(a1, a2, b1, b2, play_state(seed, match_index, participant_count), n as nat);
    assert(m1.rounds@ =~= m2.rounds@);
}

} // verus!
