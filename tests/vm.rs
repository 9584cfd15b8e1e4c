use match_logic::op;
use match_logic::{execute_bytecode, run_match, validate_bytecode, BytecodeError, Move, PlayerStrategy, SeededRng, StrategyBase, MAX_BYTECODE_LEN};
use match_logic::execute_strategy;

fn rng() -> SeededRng {
    SeededRng::new(&[42u8; 32], 0)
}

// -- Terminals --

#[test]
fn test_coop() {
    let code = [op::COOP];
    assert_eq!(execute_bytecode(&code, &[], &[], 0, &mut rng()), Move::Cooperate);
}

#[test]
fn test_defect() {
    let code = [op::DEFECT];
    assert_eq!(execute_bytecode(&code, &[], &[], 0, &mut rng()), Move::Defect);
}

#[test]
fn test_return_zero_is_cooperate() {
    let code = [op::PUSH, 0, op::RETURN];
    assert_eq!(execute_bytecode(&code, &[], &[], 0, &mut rng()), Move::Cooperate);
}

#[test]
fn test_return_nonzero_is_defect() {
    let code = [op::PUSH, 1, op::RETURN];
    assert_eq!(execute_bytecode(&code, &[], &[], 0, &mut rng()), Move::Defect);
}

// -- TitForTat as bytecode: OPP_LAST RETURN --

#[test]
fn test_bytecode_tit_for_tat() {
    let code = [op::OPP_LAST, op::RETURN];

    // Round 0: no history → cooperate
    assert_eq!(execute_bytecode(&code, &[], &[], 0, &mut rng()), Move::Cooperate);

    // Opponent cooperated → cooperate
    assert_eq!(
        execute_bytecode(&code, &[Move::Cooperate], &[Move::Cooperate], 1, &mut rng()),
        Move::Cooperate,
    );

    // Opponent defected → defect
    assert_eq!(
        execute_bytecode(&code, &[Move::Defect], &[Move::Cooperate], 1, &mut rng()),
        Move::Defect,
    );
}

// -- AlwaysDefect as bytecode --

#[test]
fn test_bytecode_always_defect() {
    let code = [op::DEFECT];
    for round in 0..10 {
        assert_eq!(execute_bytecode(&code, &[], &[], round, &mut rng()), Move::Defect);
    }
}

// -- GrimTrigger as bytecode: OPP_DEFECTS PUSH 0 GT JMP_FWD_IF 1 COOP DEFECT --

#[test]
fn test_bytecode_grim_trigger() {
    let code = [
        op::OPP_DEFECTS,    // push count
        op::PUSH, 0,        // push 0
        op::GT,             // count > 0?
        op::JMP_FWD_IF, 1,  // if yes, skip 1 byte
        op::COOP,           // cooperate
        op::DEFECT,         // defect
    ];

    // No defections → cooperate
    assert_eq!(
        execute_bytecode(&code, &[Move::Cooperate, Move::Cooperate], &[], 2, &mut rng()),
        Move::Cooperate,
    );

    // Opponent defected → defect
    assert_eq!(
        execute_bytecode(&code, &[Move::Cooperate, Move::Defect], &[], 2, &mut rng()),
        Move::Defect,
    );
}

// -- Arithmetic --

#[test]
fn test_add_saturating() {
    let code = [op::PUSH, 200, op::PUSH, 100, op::ADD, op::RETURN];
    // 200 + 100 saturates to 255, nonzero → defect
    assert_eq!(execute_bytecode(&code, &[], &[], 0, &mut rng()), Move::Defect);
}

#[test]
fn test_sub_saturating() {
    let code = [op::PUSH, 5, op::PUSH, 10, op::SUB, op::RETURN];
    // 5 - 10 saturates to 0 → cooperate
    assert_eq!(execute_bytecode(&code, &[], &[], 0, &mut rng()), Move::Cooperate);
}

#[test]
fn test_mul_saturating() {
    let code = [op::PUSH, 20, op::PUSH, 20, op::MUL, op::RETURN];
    // 20 * 20 = 400, saturates to 255 → defect
    assert_eq!(execute_bytecode(&code, &[], &[], 0, &mut rng()), Move::Defect);
}

// -- Comparison --

#[test]
fn test_gt() {
    // 5 > 3 = 1
    let code = [op::PUSH, 5, op::PUSH, 3, op::GT, op::RETURN];
    assert_eq!(execute_bytecode(&code, &[], &[], 0, &mut rng()), Move::Defect);

    // 3 > 5 = 0
    let code = [op::PUSH, 3, op::PUSH, 5, op::GT, op::RETURN];
    assert_eq!(execute_bytecode(&code, &[], &[], 0, &mut rng()), Move::Cooperate);
}

#[test]
fn test_lt() {
    // 3 < 5 = 1
    let code = [op::PUSH, 3, op::PUSH, 5, op::LT, op::RETURN];
    assert_eq!(execute_bytecode(&code, &[], &[], 0, &mut rng()), Move::Defect);
}

#[test]
fn test_eq() {
    // 5 == 5 = 1
    let code = [op::PUSH, 5, op::PUSH, 5, op::EQ, op::RETURN];
    assert_eq!(execute_bytecode(&code, &[], &[], 0, &mut rng()), Move::Defect);

    // 5 == 3 = 0
    let code = [op::PUSH, 5, op::PUSH, 3, op::EQ, op::RETURN];
    assert_eq!(execute_bytecode(&code, &[], &[], 0, &mut rng()), Move::Cooperate);
}

// -- Logic --

#[test]
fn test_not() {
    let code = [op::PUSH, 0, op::NOT, op::RETURN];
    assert_eq!(execute_bytecode(&code, &[], &[], 0, &mut rng()), Move::Defect);

    let code = [op::PUSH, 1, op::NOT, op::RETURN];
    assert_eq!(execute_bytecode(&code, &[], &[], 0, &mut rng()), Move::Cooperate);
}

#[test]
fn test_and() {
    let code = [op::PUSH, 1, op::PUSH, 1, op::AND, op::RETURN];
    assert_eq!(execute_bytecode(&code, &[], &[], 0, &mut rng()), Move::Defect);

    let code = [op::PUSH, 1, op::PUSH, 0, op::AND, op::RETURN];
    assert_eq!(execute_bytecode(&code, &[], &[], 0, &mut rng()), Move::Cooperate);
}

#[test]
fn test_or() {
    let code = [op::PUSH, 0, op::PUSH, 0, op::OR, op::RETURN];
    assert_eq!(execute_bytecode(&code, &[], &[], 0, &mut rng()), Move::Cooperate);

    let code = [op::PUSH, 1, op::PUSH, 0, op::OR, op::RETURN];
    assert_eq!(execute_bytecode(&code, &[], &[], 0, &mut rng()), Move::Defect);
}

// -- DUP --

#[test]
fn test_dup() {
    let code = [op::PUSH, 5, op::DUP, op::EQ, op::RETURN];
    // 5 == 5 → 1 → defect
    assert_eq!(execute_bytecode(&code, &[], &[], 0, &mut rng()), Move::Defect);
}

// -- ROUND --

#[test]
fn test_round() {
    let code = [op::ROUND, op::RETURN];
    assert_eq!(execute_bytecode(&code, &[], &[], 0, &mut rng()), Move::Cooperate);
    assert_eq!(execute_bytecode(&code, &[], &[], 5, &mut rng()), Move::Defect);
}

// -- OPP_N / MY_N --

#[test]
fn test_opp_n() {
    let opp = [Move::Cooperate, Move::Defect, Move::Cooperate];
    // n=0 → most recent → Cooperate → 0
    let code = [op::PUSH, 0, op::OPP_N, op::RETURN];
    assert_eq!(execute_bytecode(&code, &opp, &[], 3, &mut rng()), Move::Cooperate);

    // n=1 → one ago → Defect → 1
    let code = [op::PUSH, 1, op::OPP_N, op::RETURN];
    assert_eq!(execute_bytecode(&code, &opp, &[], 3, &mut rng()), Move::Defect);
}

#[test]
fn test_my_n() {
    let my = [Move::Defect, Move::Cooperate];
    // n=0 → most recent → Cooperate → 0
    let code = [op::PUSH, 0, op::MY_N, op::RETURN];
    assert_eq!(execute_bytecode(&code, &[], &my, 2, &mut rng()), Move::Cooperate);

    // n=1 → one ago → Defect → 1
    let code = [op::PUSH, 1, op::MY_N, op::RETURN];
    assert_eq!(execute_bytecode(&code, &[], &my, 2, &mut rng()), Move::Defect);
}

// -- OPP_DEFECTS / MY_DEFECTS --

#[test]
fn test_opp_defects_count() {
    let opp = [Move::Defect, Move::Cooperate, Move::Defect];
    let code = [op::OPP_DEFECTS, op::RETURN];
    // 2 defections → nonzero → defect
    assert_eq!(execute_bytecode(&code, &opp, &[], 3, &mut rng()), Move::Defect);
}

#[test]
fn test_my_defects_count() {
    let my = [Move::Cooperate, Move::Cooperate];
    let code = [op::MY_DEFECTS, op::RETURN];
    // 0 defections → cooperate
    assert_eq!(execute_bytecode(&code, &[], &my, 2, &mut rng()), Move::Cooperate);
}

// -- SCORE_LAST --

#[test]
fn test_score_last_round_0() {
    let code = [op::SCORE_LAST, op::RETURN];
    // Round 0, no history → default 3 → nonzero → defect
    assert_eq!(execute_bytecode(&code, &[], &[], 0, &mut rng()), Move::Defect);
}

#[test]
fn test_score_last_after_betrayal() {
    let code = [op::SCORE_LAST, op::RETURN];
    // I cooperated, opponent defected → payoff = 0
    assert_eq!(
        execute_bytecode(&code, &[Move::Defect], &[Move::Cooperate], 1, &mut rng()),
        Move::Cooperate,
    );
}

// -- RAND --

#[test]
fn test_rand_range() {
    let code = [op::RAND, op::RETURN];
    // RAND produces 0..99; we just test it runs without panic
    let _ = execute_bytecode(&code, &[], &[], 0, &mut rng());
}

// -- Jumps --

#[test]
fn test_jmp_fwd() {
    // Jump over DEFECT to COOP
    let code = [op::JMP_FWD, 1, op::DEFECT, op::COOP];
    assert_eq!(execute_bytecode(&code, &[], &[], 0, &mut rng()), Move::Cooperate);
}

#[test]
fn test_jmp_fwd_if_taken() {
    // Condition = 1 → jump over COOP to DEFECT
    let code = [op::PUSH, 1, op::JMP_FWD_IF, 1, op::COOP, op::DEFECT];
    assert_eq!(execute_bytecode(&code, &[], &[], 0, &mut rng()), Move::Defect);
}

#[test]
fn test_jmp_fwd_if_not_taken() {
    // Condition = 0 → fall through to COOP
    let code = [op::PUSH, 0, op::JMP_FWD_IF, 1, op::COOP, op::DEFECT];
    assert_eq!(execute_bytecode(&code, &[], &[], 0, &mut rng()), Move::Cooperate);
}

// -- Fail-safe cases --

#[test]
fn test_empty_bytecode_cooperates() {
    assert_eq!(execute_bytecode(&[], &[], &[], 0, &mut rng()), Move::Cooperate);
}

#[test]
fn test_stack_underflow_cooperates() {
    let code = [op::RETURN]; // pop on empty stack
    assert_eq!(execute_bytecode(&code, &[], &[], 0, &mut rng()), Move::Cooperate);
}

#[test]
fn test_stack_overflow_cooperates() {
    // Push 9 values onto 8-slot stack
    let mut code = Vec::new();
    for _ in 0..9 {
        code.push(op::PUSH);
        code.push(1);
    }
    code.push(op::RETURN);
    assert_eq!(execute_bytecode(&code, &[], &[], 0, &mut rng()), Move::Cooperate);
}

#[test]
fn test_unknown_opcode_cooperates() {
    let code = [0xFF];
    assert_eq!(execute_bytecode(&code, &[], &[], 0, &mut rng()), Move::Cooperate);
}

#[test]
fn test_fuel_exhaustion_cooperates() {
    // Forward-only jumps rule out loops, so a long straight run spends the
    // fuel: PUSH, 127 NOTs and RETURN make 129 instructions, one too many.
    let mut code = Vec::new();
    code.push(op::PUSH);
    code.push(1);
    for _ in 0..127 {
        code.push(op::NOT);
    }
    code.push(op::RETURN);
    assert_eq!(execute_bytecode(&code, &[], &[], 0, &mut rng()), Move::Cooperate);
}

#[test]
fn test_fall_off_end_cooperates() {
    // No terminal instruction
    let code = [op::PUSH, 5];
    assert_eq!(execute_bytecode(&code, &[], &[], 0, &mut rng()), Move::Cooperate);
}

// -- Validation --

#[test]
fn test_validate_empty() {
    assert_eq!(validate_bytecode(&[]), Err(BytecodeError::Empty));
}

#[test]
fn test_validate_too_long() {
    let code = vec![op::PUSH; MAX_BYTECODE_LEN + 1];
    assert_eq!(validate_bytecode(&code), Err(BytecodeError::TooLong));
}

#[test]
fn test_validate_unknown_opcode() {
    let code = [0xFF, op::COOP];
    assert_eq!(
        validate_bytecode(&code),
        Err(BytecodeError::UnknownOpcode { offset: 0, opcode: 0xFF }),
    );
}

#[test]
fn test_validate_truncated_push() {
    let code = [op::PUSH]; // missing immediate
    assert_eq!(
        validate_bytecode(&code),
        Err(BytecodeError::TruncatedImmediate { offset: 0 }),
    );
}

#[test]
fn test_validate_jump_out_of_bounds() {
    let code = [op::JMP_FWD, 255, op::COOP]; // jump way past end
    assert_eq!(
        validate_bytecode(&code),
        Err(BytecodeError::JumpOutOfBounds { offset: 0 }),
    );
}

#[test]
fn test_validate_no_terminal() {
    let code = [op::PUSH, 5, op::PUSH, 3, op::ADD];
    assert_eq!(validate_bytecode(&code), Err(BytecodeError::NoTerminal));
}

#[test]
fn test_validate_valid_programs() {
    assert!(validate_bytecode(&[op::COOP]).is_ok());
    assert!(validate_bytecode(&[op::DEFECT]).is_ok());
    assert!(validate_bytecode(&[op::OPP_LAST, op::RETURN]).is_ok());
    assert!(validate_bytecode(&[
        op::OPP_DEFECTS, op::PUSH, 0, op::GT, op::JMP_FWD_IF, 1, op::COOP, op::DEFECT,
    ]).is_ok());
}


/// Run a full match with bytecode vs builtin and assert identical scores.
fn assert_match_parity(bytecode: &[u8], base: StrategyBase) {
    let seed = [42u8; 32];
    let builtin = PlayerStrategy::Builtin(base);
    let custom = PlayerStrategy::Custom(bytecode.to_vec());

    // Test both orderings: custom as A and custom as B
    for match_idx in 0..5 {
        let r1 = run_match(&builtin, &builtin, &seed, match_idx, 100);
        let r2 = run_match(&custom, &custom, &seed, match_idx, 100);
        assert_eq!(r1.round_count, r2.round_count, "Round count mismatch for {:?} match {}", base, match_idx);
        assert_eq!(r1.total_score_a, r2.total_score_a, "Score A mismatch for {:?} match {}", base, match_idx);
        assert_eq!(r1.total_score_b, r2.total_score_b, "Score B mismatch for {:?} match {}", base, match_idx);
        for (r_native, r_custom) in r1.rounds.iter().zip(r2.rounds.iter()) {
            assert_eq!(r_native.move_a, r_custom.move_a, "Move A mismatch round {} for {:?}", r_native.round, base);
            assert_eq!(r_native.move_b, r_custom.move_b, "Move B mismatch round {} for {:?}", r_native.round, base);
        }
    }
}

#[test]
fn test_parity_always_cooperate() {
    // AlwaysCooperate = COOP
    assert_match_parity(&[op::COOP], StrategyBase::AlwaysCooperate);
}

#[test]
fn test_parity_always_defect() {
    // AlwaysDefect = DEFECT
    assert_match_parity(&[op::DEFECT], StrategyBase::AlwaysDefect);
}

#[test]
fn test_parity_tit_for_tat() {
    // TitForTat = OPP_LAST RETURN
    assert_match_parity(&[op::OPP_LAST, op::RETURN], StrategyBase::TitForTat);
}

#[test]
fn test_parity_grim_trigger() {
    // GrimTrigger = OPP_DEFECTS PUSH 0 GT JMP_FWD_IF 1 COOP DEFECT
    assert_match_parity(
        &[op::OPP_DEFECTS, op::PUSH, 0, op::GT, op::JMP_FWD_IF, 1, op::COOP, op::DEFECT],
        StrategyBase::GrimTrigger,
    );
}

#[test]
fn test_parity_suspicious_tft() {
    // Round 0 defects; later rounds copy the opponent.
    let code = [
        op::ROUND,         // push round number
        op::PUSH, 0,       // push 0
        op::EQ,            // round == 0?
        op::JMP_FWD_IF, 2, // if yes, jump to DEFECT
        op::OPP_LAST,      // else, copy opponent
        op::RETURN,
        op::DEFECT,        // round 0: defect
    ];
    assert_match_parity(&code, StrategyBase::SuspiciousTitForTat);
}

#[test]
fn test_parity_tit_for_two_tats() {
    // TitForTwoTats: defect only if opponent defected last 2 rounds in a row
    // if round < 2 → COOP
    // OPP_N(0) AND OPP_N(1) → RETURN
    let code = [
        op::ROUND,          // push round
        op::PUSH, 2,        // push 2
        op::LT,             // round < 2?
        op::JMP_FWD_IF, 8,  // if yes, jump to COOP
        op::PUSH, 0,        // push 0
        op::OPP_N,          // opponent move 0 rounds ago
        op::PUSH, 1,        // push 1
        op::OPP_N,          // opponent move 1 round ago
        op::AND,            // both defected?
        op::RETURN,         // 1 = defect, 0 = cooperate
        op::COOP,           // cooperate (early rounds)
    ];
    assert_match_parity(&code, StrategyBase::TitForTwoTats);
}

#[test]
fn test_parity_pavlov() {
    // Both jumps of this program land on NOT (offset 15) with an empty
    // stack, which faults to Cooperate: it agrees with Pavlov whenever Pavlov
    // cooperates, which is every round of Pavlov against itself. The
    // program that agrees with Pavlov on every history jumps by 11 and 2.
    let code = [
        op::ROUND,
        op::PUSH, 0,
        op::EQ,
        op::JMP_FWD_IF, 9,
        op::SCORE_LAST,
        op::PUSH, 3,
        op::LT,
        op::JMP_FWD_IF, 3,
        op::MY_LAST,
        op::RETURN,
        op::MY_LAST,
        op::NOT,
        op::RETURN,
        op::COOP,
    ];
    assert_match_parity(&code, StrategyBase::Pavlov);
}

/// Test a custom strategy in a match against a builtin.
#[test]
fn test_custom_vs_builtin_match() {
    let seed = [42u8; 32];

    // Custom TFT bytecode vs builtin AlwaysDefect
    let tft_bytecode = PlayerStrategy::Custom(vec![op::OPP_LAST, op::RETURN]);
    let always_defect = PlayerStrategy::Builtin(StrategyBase::AlwaysDefect);

    let result = run_match(&tft_bytecode, &always_defect, &seed, 0, 100);

    // Round 0: TFT cooperates, AD defects → (0, 5)
    assert_eq!(result.rounds[0].move_a, Move::Cooperate);
    assert_eq!(result.rounds[0].move_b, Move::Defect);

    // Round 1+: TFT copies → both defect
    for r in result.rounds.iter().skip(1) {
        assert_eq!(r.move_a, Move::Defect);
        assert_eq!(r.move_b, Move::Defect);
    }
}

/// Test round-by-round parity: bytecode TFT vs native TFT
/// with a specific sequence of opponent moves.
#[test]
fn test_round_by_round_parity_tft() {
    let tft_native = StrategyBase::TitForTat;
    let tft_bytecode = vec![op::OPP_LAST, op::RETURN];

    let opp_sequences: Vec<Vec<Move>> = vec![
        vec![Move::Cooperate; 10],
        vec![Move::Defect; 10],
        vec![Move::Cooperate, Move::Defect, Move::Cooperate, Move::Defect, Move::Cooperate],
    ];

    for opp_moves in &opp_sequences {
        let mut my_history = Vec::new();
        for (round, _) in opp_moves.iter().enumerate() {
            let opp_history = &opp_moves[..round];
            let mut rng1 = SeededRng::new(&[42u8; 32], 0).for_round(round as u8);
            let mut rng2 = SeededRng::new(&[42u8; 32], 0).for_round(round as u8);

            let native_move = execute_strategy(tft_native, opp_history, &my_history, round as u8, &mut rng1);
            let custom_move = execute_bytecode(&tft_bytecode, opp_history, &my_history, round as u8, &mut rng2);

            assert_eq!(native_move, custom_move, "Mismatch at round {} with opp {:?}", round, opp_history);
            my_history.push(native_move);
        }
    }
}

/// Validate that max-length bytecode (64 bytes) works.
#[test]
fn test_max_length_bytecode() {
    // 31 PUSH+imm pairs (62 bytes) + COOP + DEFECT = 64 bytes
    let mut code = Vec::new();
    for _ in 0..31 {
        code.push(op::PUSH);
        code.push(0);
    }
    code.push(op::COOP);
    code.push(op::DEFECT);
    assert_eq!(code.len(), MAX_BYTECODE_LEN);
    assert!(validate_bytecode(&code).is_ok());
    // Executes: pushes 31 zeros then hits COOP
    // Stack overflow at push #9 → fail-safe cooperate
    assert_eq!(execute_bytecode(&code, &[], &[], 0, &mut rng()), Move::Cooperate);
}

#[test]
fn validate_reports_first_fault_with_offset() {
    assert_eq!(
        validate_bytecode(&[op::COOP, op::PUSH, 1, 0x19]),
        Err(BytecodeError::UnknownOpcode { offset: 3, opcode: 0x19 }),
    );
    assert_eq!(
        validate_bytecode(&[op::COOP, op::JMP_FWD_IF]),
        Err(BytecodeError::TruncatedImmediate { offset: 1 }),
    );
    assert_eq!(
        validate_bytecode(&[op::DEFECT, op::JMP_FWD, 1]),
        Err(BytecodeError::JumpOutOfBounds { offset: 1 }),
    );
    // A jump may land exactly on the end of the program.
    assert_eq!(validate_bytecode(&[op::DEFECT, op::JMP_FWD, 0]), Ok(()));
    // The terminal check is syntactic: an unreachable terminal still counts.
    assert_eq!(validate_bytecode(&[op::JMP_FWD, 1, op::COOP]), Ok(()));
    // The immediate byte of PUSH is not decoded as an opcode.
    assert_eq!(validate_bytecode(&[op::PUSH, 0xFF, op::RETURN]), Ok(()));
    assert_eq!(validate_bytecode(&[op::PUSH, op::COOP]), Err(BytecodeError::NoTerminal));
    let mut long = vec![op::COOP; MAX_BYTECODE_LEN];
    assert_eq!(validate_bytecode(&long), Ok(()));
    long.push(op::COOP);
    assert_eq!(validate_bytecode(&long), Err(BytecodeError::TooLong));
}

#[test]
fn fuel_allows_exactly_128_instructions() {
    let mut code = vec![op::PUSH, 1];
    for _ in 0..126 {
        code.push(op::NOT);
    }
    code.push(op::RETURN);
    // 128 instructions: the RETURN still runs (126 NOTs of 1 leave 1).
    assert_eq!(execute_bytecode(&code, &[], &[], 0, &mut rng()), Move::Defect);
}

#[test]
fn eight_slots_fit_but_nine_do_not() {
    let mut code = Vec::new();
    for _ in 0..8 {
        code.push(op::PUSH);
        code.push(1);
    }
    code.push(op::RETURN);
    assert_eq!(execute_bytecode(&code, &[], &[], 0, &mut rng()), Move::Defect);
    let dup_overflow = [op::PUSH, 1, op::PUSH, 1, op::PUSH, 1, op::PUSH, 1, op::PUSH, 1, op::PUSH, 1,
        op::PUSH, 1, op::PUSH, 1, op::DUP, op::RETURN];
    assert_eq!(execute_bytecode(&dup_overflow, &[], &[], 0, &mut rng()), Move::Cooperate);
}

#[test]
fn rand_pushes_the_percent_draw() {
    // RAND < 50 → 1 → defect, mirrored by a draw from the same state.
    let code = [op::RAND, op::PUSH, 50, op::LT, op::RETURN];
    for index in 0..20u32 {
        let base = SeededRng::new(&[11u8; 32], index);
        let mut probe = base.clone();
        let expected = if probe.next_percent() < 50 { Move::Defect } else { Move::Cooperate };
        let mut r = base.clone();
        assert_eq!(execute_bytecode(&code, &[], &[], 0, &mut r), expected);
        assert_eq!(r.next_u64(), probe.next_u64());
    }
}

#[test]
fn history_readers_and_counters() {
    #[allow(non_snake_case)]
    let (C, D) = (Move::Cooperate, Move::Defect);
    let opp = [D, D, C];
    let my = [C, D, D];
    // OPP_N beyond history reads 0.
    assert_eq!(execute_bytecode(&[op::PUSH, 3, op::OPP_N, op::RETURN], &opp, &my, 3, &mut rng()), Move::Cooperate);
    assert_eq!(execute_bytecode(&[op::PUSH, 2, op::OPP_N, op::RETURN], &opp, &my, 3, &mut rng()), Move::Defect);
    assert_eq!(execute_bytecode(&[op::MY_LAST, op::RETURN], &opp, &my, 3, &mut rng()), Move::Defect);
    assert_eq!(execute_bytecode(&[op::OPP_LAST, op::RETURN], &opp, &my, 3, &mut rng()), Move::Cooperate);
    // MY_DEFECTS == 2
    assert_eq!(
        execute_bytecode(&[op::MY_DEFECTS, op::PUSH, 2, op::EQ, op::RETURN], &opp, &my, 3, &mut rng()),
        Move::Defect,
    );
    // SCORE_LAST: own D against C scores 5.
    assert_eq!(
        execute_bytecode(&[op::SCORE_LAST, op::PUSH, 5, op::EQ, op::RETURN], &opp, &my, 3, &mut rng()),
        Move::Defect,
    );
    // Counts cap at 255.
    let many = vec![D; 300];
    assert_eq!(
        execute_bytecode(&[op::OPP_DEFECTS, op::PUSH, 255, op::EQ, op::RETURN], &many, &[], 0, &mut rng()),
        Move::Defect,
    );
}

fn parity_programs() -> Vec<(StrategyBase, Vec<u8>)> {
    vec![
        (StrategyBase::AlwaysCooperate, vec![op::COOP]),
        (StrategyBase::AlwaysDefect, vec![op::DEFECT]),
        (StrategyBase::TitForTat, vec![op::OPP_LAST, op::RETURN]),
        (StrategyBase::GrimTrigger, vec![op::OPP_DEFECTS, op::PUSH, 0, op::GT, op::JMP_FWD_IF, 1, op::COOP, op::DEFECT]),
        (StrategyBase::SuspiciousTitForTat, vec![op::ROUND, op::PUSH, 0, op::EQ, op::JMP_FWD_IF, 2, op::OPP_LAST, op::RETURN, op::DEFECT]),
        (StrategyBase::TitForTwoTats, vec![op::ROUND, op::PUSH, 2, op::LT, op::JMP_FWD_IF, 8, op::PUSH, 0, op::OPP_N,
            op::PUSH, 1, op::OPP_N, op::AND, op::RETURN, op::COOP]),
        (StrategyBase::Pavlov, vec![op::ROUND, op::PUSH, 0, op::EQ, op::JMP_FWD_IF, 11, op::SCORE_LAST, op::PUSH, 3,
            op::LT, op::JMP_FWD_IF, 2, op::MY_LAST, op::RETURN, op::MY_LAST, op::NOT, op::RETURN, op::COOP]),
    ]
}

#[test]
fn programs_match_builtins_on_every_short_history() {
    // All histories of up to four rounds, both sides.
    for (base, code) in parity_programs() {
        assert_eq!(validate_bytecode(&code), Ok(()));
        for len in 0..5usize {
            for mask in 0..(1u32 << (2 * len)) {
                let opp: Vec<Move> = (0..len)
                    .map(|i| if mask >> i & 1 == 1 { Move::Defect } else { Move::Cooperate })
                    .collect();
                let my: Vec<Move> = (0..len)
                    .map(|i| if mask >> (len + i) & 1 == 1 { Move::Defect } else { Move::Cooperate })
                    .collect();
                let mut r1 = rng();
                let mut r2 = rng();
                assert_eq!(
                    execute_strategy(base, &opp, &my, len as u8, &mut r1),
                    execute_bytecode(&code, &opp, &my, len as u8, &mut r2),
                    "{:?} on opp {:?} my {:?}",
                    base,
                    opp,
                    my,
                );
            }
        }
    }
}

#[test]
fn programs_match_builtins_in_mixed_matches() {
    let seed = [42u8; 32];
    let opponents = [StrategyBase::Random, StrategyBase::Gradual, StrategyBase::TitForTat, StrategyBase::AlwaysDefect];
    for (base, code) in parity_programs() {
        for opp in opponents {
            for match_idx in 0..5 {
                let native = run_match(&PlayerStrategy::Builtin(base), &PlayerStrategy::Builtin(opp), &seed, match_idx, 100);
                let custom = run_match(&PlayerStrategy::Custom(code.clone()), &PlayerStrategy::Builtin(opp), &seed, match_idx, 100);
                assert_eq!(native.rounds, custom.rounds, "{:?} vs {:?}", base, opp);
                assert_eq!(native.total_score_a, custom.total_score_a);
                assert_eq!(native.total_score_b, custom.total_score_b);
            }
        }
    }
}

#[test]
fn jump_offsets_of_pavlov_programs() {
    // After (Cooperate, Defect) Pavlov switches to Defect.
    let history_opp = [Move::Defect];
    let history_my = [Move::Cooperate];
    let faulting = [op::ROUND, op::PUSH, 0, op::EQ, op::JMP_FWD_IF, 9, op::SCORE_LAST, op::PUSH, 3, op::LT,
        op::JMP_FWD_IF, 3, op::MY_LAST, op::RETURN, op::MY_LAST, op::NOT, op::RETURN, op::COOP];
    assert_eq!(execute_bytecode(&faulting, &history_opp, &history_my, 1, &mut rng()), Move::Cooperate);
    let exact = [op::ROUND, op::PUSH, 0, op::EQ, op::JMP_FWD_IF, 11, op::SCORE_LAST, op::PUSH, 3, op::LT,
        op::JMP_FWD_IF, 2, op::MY_LAST, op::RETURN, op::MY_LAST, op::NOT, op::RETURN, op::COOP];
    assert_eq!(execute_bytecode(&exact, &history_opp, &history_my, 1, &mut rng()), Move::Defect);
    assert_eq!(execute_strategy(StrategyBase::Pavlov, &history_opp, &history_my, 1, &mut rng()), Move::Defect);
}
