//! Stack-machine interpreter for bytecode strategies.
//!
//! Validation is strict and reports the first fault with its offset;
//! execution is total: any fault at run time resolves to Cooperate.
use vstd::prelude::*;

use crate::op;
use crate::random::{percent_of, xorshift, SeededRng};
use crate::strategy::{defect_count, last_or_cooperate, count_defections, Move};
use crate::{payoff, payoff_spec};

verus! {

/// Longest program accepted, in bytes.
pub const MAX_BYTECODE_LEN: usize = 64;

/// Instructions executed before the interpreter gives up.
pub const MAX_FUEL: u32 = 128;

/// Slots of the value stack.
pub const STACK_SIZE: usize = 8;

/// Why a program was rejected.
#[derive(Clone, Copy, Debug, PartialEq, Eq, Structural)]
pub enum BytecodeError {
    /// The program is empty.
    Empty,
    /// The program is longer than `MAX_BYTECODE_LEN` bytes.
    TooLong,
    /// A byte that is no opcode stands where an instruction starts.
    UnknownOpcode { offset: usize, opcode: u8 },
    /// An instruction's operand byte is missing.
    TruncatedImmediate { offset: usize },
    /// A forward jump lands past the end of the program.
    JumpOutOfBounds { offset: usize },
    /// No terminal instruction appears in the program.
    NoTerminal,
}

/// The terminal opcodes.
pub open spec fn is_terminal(b: u8) -> bool {
    b == op::COOP || b == op::DEFECT || b == op::RETURN
}

/// The jump opcodes, which carry an offset byte.
pub open spec fn is_jump(b: u8) -> bool {
    b == op::JMP_FWD || b == op::JMP_FWD_IF
}

/// The one-byte opcodes that are not terminals.
pub open spec fn is_plain(b: u8) -> bool {
    b == op::OPP_LAST || b == op::MY_LAST || b == op::OPP_N || b == op::MY_N || b
        == op::OPP_DEFECTS || b == op::MY_DEFECTS || b == op::ROUND || b == op::RAND || b
        == op::ADD || b == op::SUB || b == op::MUL || b == op::GT || b == op::LT || b == op::EQ
        || b == op::NOT || b == op::AND || b == op::OR || b == op::DUP || b == op::SCORE_LAST
}

/// Decodes `code` from `pc` onward, instruction by instruction; `seen` tells
/// whether a terminal was met before `pc`.
pub open spec fn scan(code: Seq<u8>, pc: int, seen: bool) -> Result<(), BytecodeError>
    decreases code.len() - pc,
{
    if pc < 0 || pc >= code.len() {
        if seen {
            Ok(())
        } else {
            Err(BytecodeError::NoTerminal)
        }
    } else {
        let b = code[pc];
        if is_terminal(b) {
            scan(code, pc + 1, true)
        } else if b == op::PUSH {
            if pc + 1 >= code.len() {
                Err(BytecodeError::TruncatedImmediate { offset: pc as usize })
            } else {
                scan(code, pc + 2, seen)
            }
        } else if is_jump(b) {
            if pc + 1 >= code.len() {
                Err(BytecodeError::TruncatedImmediate { offset: pc as usize })
            } else if pc + 2 + code[pc + 1] > code.len() {
                Err(BytecodeError::JumpOutOfBounds { offset: pc as usize })
            } else {
                scan(code, pc + 2, seen)
            }
        } else if is_plain(b) {
            scan(code, pc + 1, seen)
        } else {
            Err(BytecodeError::UnknownOpcode { offset: pc as usize, opcode: b })
        }
    }
}

/// The verdict on a program.
pub open spec fn validation(code: Seq<u8>) -> Result<(), BytecodeError> {
    if code.len() == 0 {
        Err(BytecodeError::Empty)
    } else if code.len() > MAX_BYTECODE_LEN {
        Err(BytecodeError::TooLong)
    } else {
        scan(code, 0, false)
    }
}

/// Checks a program before it may stand for a player.
pub fn validate_bytecode(bytecode: &[u8]) -> (r: Result<(), BytecodeError>)
    ensures
        r == validation(bytecode@),
{
    let len = bytecode.len();
    if len == 0 {
        return Err(BytecodeError::Empty);
    }
    if len > MAX_BYTECODE_LEN {
        return Err(BytecodeError::TooLong);
    }
    let mut pc: usize = 0;
    let mut has_terminal = false;
    while pc < len
        invariant
            len == bytecode@.len(),
            len <= MAX_BYTECODE_LEN,
            pc <= len + 1,
            validation(bytecode@) == scan(bytecode@, pc as int, has_terminal),
        decreases len + 1 - pc,
    {
        let b = bytecode[pc];
        if b == op::COOP || b == op::DEFECT || b == op::RETURN {
            has_terminal = true;
            pc = pc + 1;
        } else if b == op::PUSH {
            if pc + 1 >= len {
                return Err(BytecodeError::TruncatedImmediate { offset: pc });
            }
            pc = pc + 2;
        } else if b == op::JMP_FWD || b == op::JMP_FWD_IF {
            if pc + 1 >= len {
                return Err(BytecodeError::TruncatedImmediate { offset: pc });
            }
            let target = pc + 2 + bytecode[pc + 1] as usize;
            if target > len {
                return Err(BytecodeError::JumpOutOfBounds { offset: pc });
            }
            pc = pc + 2;
        } else if b == op::OPP_LAST || b == op::MY_LAST || b == op::OPP_N || b == op::MY_N || b
            == op::OPP_DEFECTS || b == op::MY_DEFECTS || b == op::ROUND || b == op::RAND || b
            == op::ADD || b == op::SUB || b == op::MUL || b == op::GT || b == op::LT || b
            == op::EQ || b == op::NOT || b == op::AND || b == op::OR || b == op::DUP || b
            == op::SCORE_LAST {
            pc = pc + 1;
        } else {
            return Err(BytecodeError::UnknownOpcode { offset: pc, opcode: b });
        }
    }
    if !has_terminal {
        return Err(BytecodeError::NoTerminal);
    }
    Ok(())
}

/// One move encoded as a stack value: 1 for Defect, 0 for Cooperate.
pub open spec fn move_bit(m: Move) -> u8 {
    if m == Move::Defect {
        1
    } else {
        0
    }
}

/// The move `n` rounds back in `h` as a stack value; 0 when out of range.
pub open spec fn history_bit(h: Seq<Move>, n: int) -> u8 {
    if n >= h.len() {
        0
    } else {
        move_bit(h[h.len() - 1 - n])
    }
}

/// The defection count of `h`, capped at 255.
pub open spec fn capped_defects(h: Seq<Move>) -> u8 {
    if defect_count(h) > 255 {
        255
    } else {
        defect_count(h) as u8
    }
}

/// The player's own payoff of the last round; 3 before any round.
pub open spec fn score_last(opp: Seq<Move>, my: Seq<Move>) -> u8 {
    if my.len() == 0 {
        3
    } else {
        payoff_spec(my.last(), last_or_cooperate(opp)).0
    }
}

/// The opcodes that pop two values and push one.
pub open spec fn is_binary(b: u8) -> bool {
    b == op::ADD || b == op::SUB || b == op::MUL || b == op::GT || b == op::LT || b == op::EQ
        || b == op::AND || b == op::OR
}

/// Truth as a stack value.
pub open spec fn bool_bit(c: bool) -> u8 {
    if c {
        1
    } else {
        0
    }
}

/// The value a binary opcode pushes for operands `a` (deeper) and `b` (top).
pub open spec fn binary_result(b_op: u8, a: u8, b: u8) -> u8 {
    if b_op == op::ADD {
        if a + b > 255 { 255 } else { (a + b) as u8 }
    } else if b_op == op::SUB {
        if a < b { 0 } else { (a - b) as u8 }
    } else if b_op == op::MUL {
        if a * b > 255 { 255 } else { (a * b) as u8 }
    } else if b_op == op::GT {
        bool_bit(a > b)
    } else if b_op == op::LT {
        bool_bit(a < b)
    } else if b_op == op::EQ {
        bool_bit(a == b)
    } else if b_op == op::AND {
        bool_bit(a != 0 && b != 0)
    } else {
        bool_bit(a != 0 || b != 0)
    }
}

/// Pushing onto the value stack; `None` on overflow.
pub open spec fn stack_push(st: Seq<u8>, v: u8) -> Option<Seq<u8>> {
    if st.len() >= STACK_SIZE {
        None
    } else {
        Some(st.push(v))
    }
}

/// The outcome of one instruction.
pub enum VmStep {
    /// Execution ends with a move, or with `None` on a fault; the generator state.
    Halt(Option<Move>, u64),
    /// Execution goes on at a program counter, with a stack and a generator state.
    Next(int, Seq<u8>, u64),
}

/// Goes on at `pc` with the pushed stack, or faults on overflow.
pub open spec fn then_push(st: Seq<u8>, v: u8, pc: int, rng: u64) -> VmStep {
    match stack_push(st, v) {
        Some(s) => VmStep::Next(pc, s, rng),
        None => VmStep::Halt(None, rng),
    }
}

/// Executes the instruction at `pc` (which lies inside `code`).
pub open spec fn vm_step(
    code: Seq<u8>,
    opp: Seq<Move>,
    my: Seq<Move>,
    round: u8,
    pc: int,
    st: Seq<u8>,
    rng: u64,
) -> VmStep {
    let b = code[pc];
    if b == op::COOP {
        VmStep::Halt(Some(Move::Cooperate), rng)
    } else if b == op::DEFECT {
        VmStep::Halt(Some(Move::Defect), rng)
    } else if b == op::RETURN {
        if st.len() == 0 {
            VmStep::Halt(None, rng)
        } else if st.last() == 0 {
            VmStep::Halt(Some(Move::Cooperate), rng)
        } else {
            VmStep::Halt(Some(Move::Defect), rng)
        }
    } else if b == op::PUSH {
        if pc + 1 >= code.len() {
            VmStep::Halt(None, rng)
        } else {
            then_push(st, code[pc + 1], pc + 2, rng)
        }
    } else if b == op::OPP_LAST {
        then_push(st, move_bit(last_or_cooperate(opp)), pc + 1, rng)
    } else if b == op::MY_LAST {
        then_push(st, move_bit(last_or_cooperate(my)), pc + 1, rng)
    } else if b == op::OPP_N || b == op::MY_N {
        if st.len() == 0 {
            VmStep::Halt(None, rng)
        } else {
            let h = if b == op::OPP_N { opp } else { my };
            then_push(st.drop_last(), history_bit(h, st.last() as int), pc + 1, rng)
        }
    } else if b == op::OPP_DEFECTS {
        then_push(st, capped_defects(opp), pc + 1, rng)
    } else if b == op::MY_DEFECTS {
        then_push(st, capped_defects(my), pc + 1, rng)
    } else if b == op::ROUND {
        then_push(st, round, pc + 1, rng)
    } else if b == op::RAND {
        then_push(st, percent_of(rng), pc + 1, xorshift(rng))
    } else if is_binary(b) {
        if st.len() < 2 {
            VmStep::Halt(None, rng)
        } else {
            let top = st.last();
            let below = st.drop_last().last();
            then_push(st.drop_last().drop_last(), binary_result(b, below, top), pc + 1, rng)
        }
    } else if b == op::NOT {
        if st.len() == 0 {
            VmStep::Halt(None, rng)
        } else {
            then_push(st.drop_last(), bool_bit(st.last() == 0), pc + 1, rng)
        }
    } else if b == op::DUP {
        if st.len() == 0 {
            VmStep::Halt(None, rng)
        } else {
            then_push(st, st.last(), pc + 1, rng)
        }
    } else if b == op::JMP_FWD {
        if pc + 1 >= code.len() {
            VmStep::Halt(None, rng)
        } else {
            VmStep::Next(pc + 2 + code[pc + 1], st, rng)
        }
    } else if b == op::JMP_FWD_IF {
        if st.len() == 0 || pc + 1 >= code.len() {
            VmStep::Halt(None, rng)
        } else if st.last() != 0 {
            VmStep::Next(pc + 2 + code[pc + 1], st.drop_last(), rng)
        } else {
            VmStep::Next(pc + 2, st.drop_last(), rng)
        }
    } else if b == op::SCORE_LAST {
        then_push(st, score_last(opp, my), pc + 1, rng)
    } else {
        VmStep::Halt(None, rng)
    }
}

/// Runs from `pc` with `fuel` instructions left: the move (`None` on a fault,
/// on running out of fuel, or on leaving the program) and the generator state.
pub open spec fn vm_run(
    code: Seq<u8>,
    opp: Seq<Move>,
    my: Seq<Move>,
    round: u8,
    pc: int,
    st: Seq<u8>,
    rng: u64,
    fuel: nat,
) -> (Option<Move>, u64)
    decreases fuel,
{
    if pc < 0 || pc >= code.len() || fuel == 0 {
        (None, rng)
    } else {
        match vm_step(code, opp, my, round, pc, st, rng) {
            VmStep::Halt(m, r) => (m, r),
            VmStep::Next(pc2, st2, r2) => vm_run(code, opp, my, round, pc2, st2, r2, (fuel - 1) as nat),
        }
    }
}

/// A whole run of a program from an empty stack with full fuel.
pub open spec fn vm_outcome(code: Seq<u8>, opp: Seq<Move>, my: Seq<Move>, round: u8, rng: u64) -> (
    Option<Move>,
    u64,
) {
    vm_run(code, opp, my, round, 0, Seq::empty(), rng, MAX_FUEL as nat)
}

/// The move a program makes: its outcome, or Cooperate on any fault.
pub open spec fn vm_move(code: Seq<u8>, opp: Seq<Move>, my: Seq<Move>, round: u8, rng: u64) -> Move {
    match vm_outcome(code, opp, my, round, rng).0 {
        Some(m) => m,
        None => Move::Cooperate,
    }
}

/// Pushes onto the value stack; `None` on overflow.
fn push(stack: &mut Vec<u8>, val: u8) -> (r: Option<()>)
    ensures
        r.is_none() ==> final(stack)@ == old(stack)@,
        stack_push(old(stack)@, val) == match r {
            Some(_) => Some(final(stack)@),
            None => None::<Seq<u8>>,
        },
{
    if stack.len() >= STACK_SIZE {
        return None;
    }
    stack.push(val);
    Some(())
}

/// Pops the value stack; `None` on underflow.
fn pop(stack: &mut Vec<u8>) -> (r: Option<u8>)
    ensures
        old(stack)@.len() == 0 ==> r.is_none() && final(stack)@ == old(stack)@,
        old(stack)@.len() > 0 ==> r == Some(old(stack)@.last()) && final(stack)@
            == old(stack)@.drop_last(),
{
    stack.pop()
}

/// The move as a stack value; 0 also when there is no move.
fn move_to_u8(m: Option<Move>) -> (r: u8)
    ensures
        r == match m {
            Some(x) => move_bit(x),
            None => 0u8,
        },
{
    match m {
        Some(Move::Defect) => 1,
        _ => 0,
    }
}

/// The move `n` rounds back as a stack value; 0 when out of range.
fn history_n_ago(history: &[Move], n: usize) -> (r: u8)
    ensures
        r == history_bit(history@, n as int),
{
    if n >= history.len() {
        return 0;
    }
    let idx = history.len() - 1 - n;
    match history[idx] {
        Move::Cooperate => 0,
        Move::Defect => 1,
    }
}

/// The defection count, capped at 255.
fn count_defects(history: &[Move]) -> (r: u8)
    ensures
        r == capped_defects(history@),
{
    let count = count_defections(history);
    if count > 255 {
        255
    } else {
        count as u8
    }
}

/// The last move of a history, if any.
fn last_move(h: &[Move]) -> (r: Option<Move>)
    ensures
        h@.len() == 0 ==> r.is_none(),
        h@.len() > 0 ==> r == Some(h@.last()),
{
    if h.len() == 0 {
        None
    } else {
        Some(h[h.len() - 1])
    }
}

/// What the interpreter loop does after one instruction.
enum Flow {
    Stop(Option<Move>),
    Next(usize),
}

/// Executes the instruction at `pc`.
fn step(
    bytecode: &[u8],
    opp: &[Move],
    my: &[Move],
    round: u8,
    pc: usize,
    stack: &mut Vec<u8>,
    rng: &mut SeededRng,
) -> (r: Flow)
    requires
        pc < bytecode@.len(),
        old(stack)@.len() <= STACK_SIZE,
    ensures
        final(stack)@.len() <= STACK_SIZE,
        match vm_step(bytecode@, opp@, my@, round, pc as int, old(stack)@, old(rng)@) {
            VmStep::Halt(m, g) => r == Flow::Stop(m) && final(rng)@ == g,
            VmStep::Next(p, s, g) => {
                &&& (p < bytecode@.len() ==> r == Flow::Next(p as usize))
                &&& (p >= bytecode@.len() ==> r == Flow::Stop(None))
                &&& final(stack)@ == s
                &&& final(rng)@ == g
            },
        },
{
    let b = bytecode[pc];
    let len = bytecode.len();
    let mut next = pc + 1;
    if b == op::COOP {
        return Flow::Stop(Some(Move::Cooperate));
    } else if b == op::DEFECT {
        return Flow::Stop(Some(Move::Defect));
    } else if b == op::RETURN {
        return match pop(stack) {
            None => Flow::Stop(None),
            Some(v) => Flow::Stop(Some(if v == 0 { Move::Cooperate } else { Move::Defect })),
        };
    } else if b == op::JMP_FWD || b == op::JMP_FWD_IF {
        let mut taken = true;
        if b == op::JMP_FWD_IF {
            match pop(stack) {
                None => return Flow::Stop(None),
                Some(c) => taken = c != 0,
            }
        }
        if pc + 1 >= len {
            return Flow::Stop(None);
        }
        let offset = bytecode[pc + 1] as usize;
        next = pc + 2;
        if taken {
            if offset >= len - next {
                return Flow::Stop(None);
            }
            next = next + offset;
        }
    } else {
        let value: u8;
        if b == op::PUSH {
            if pc + 1 >= len {
                return Flow::Stop(None);
            }
            value = bytecode[pc + 1];
            next = pc + 2;
        } else if b == op::OPP_LAST {
            value = move_to_u8(last_move(opp));
        } else if b == op::MY_LAST {
            value = move_to_u8(last_move(my));
        } else if b == op::OPP_N || b == op::MY_N {
            match pop(stack) {
                None => return Flow::Stop(None),
                Some(n) => {
                    value = if b == op::OPP_N {
                        history_n_ago(opp, n as usize)
                    } else {
                        history_n_ago(my, n as usize)
                    };
                },
            }
        } else if b == op::OPP_DEFECTS {
            value = count_defects(opp);
        } else if b == op::MY_DEFECTS {
            value = count_defects(my);
        } else if b == op::ROUND {
            value = round;
        } else if b == op::RAND {
            value = rng.next_percent();
        } else if b == op::ADD || b == op::SUB || b == op::MUL || b == op::GT || b == op::LT || b
            == op::EQ || b == op::AND || b == op::OR {
            let top = match pop(stack) {
                None => return Flow::Stop(None),
                Some(v) => v,
            };
            let below = match pop(stack) {
                None => return Flow::Stop(None),
                Some(v) => v,
            };
            value = binary(b, below, top);
        } else if b == op::NOT {
            match pop(stack) {
                None => return Flow::Stop(None),
                Some(v) => value = if v == 0 { 1 } else { 0 },
            }
        } else if b == op::DUP {
            match pop(stack) {
                None => return Flow::Stop(None),
                Some(v) => {
                    push(stack, v);
                    value = v;
                },
            }
        } else if b == op::SCORE_LAST {
            value = if my.len() == 0 {
                3
            } else {
                let my_last = my[my.len() - 1];
                let opp_last = if opp.len() == 0 {
                    Move::Cooperate
                } else {
                    opp[opp.len() - 1]
                };
                payoff(my_last, opp_last).0
            };
        } else {
            return Flow::Stop(None);
        }
        if push(stack, value).is_none() {
            return Flow::Stop(None);
        }
    }
    if next >= len {
        Flow::Stop(None)
    } else {
        Flow::Next(next)
    }
}

/// The value a binary opcode pushes.
fn binary(b_op: u8, a: u8, b: u8) -> (r: u8)
    requires
        is_binary(b_op),
    ensures
        r == binary_result(b_op, a, b),
{
    if b_op == op::ADD {
        a.saturating_add(b)
    } else if b_op == op::SUB {
        a.saturating_sub(b)
    } else if b_op == op::MUL {
        assert(a as u16 * b as u16 <= 255 * 255) by (nonlinear_arith)
            requires
                a <= 255,
                b <= 255,
        ;
        let p = a as u16 * b as u16;
        if p > 255 {
            255
        } else {
            p as u8
        }
    } else if b_op == op::GT {
        if a > b { 1 } else { 0 }
    } else if b_op == op::LT {
        if a < b { 1 } else { 0 }
    } else if b_op == op::EQ {
        if a == b { 1 } else { 0 }
    } else if b_op == op::AND {
        if a != 0 && b != 0 { 1 } else { 0 }
    } else {
        if a != 0 || b != 0 { 1 } else { 0 }
    }
}

/// Runs a program; `None` on any fault.
fn execute_inner(
    bytecode: &[u8],
    opponent_history: &[Move],
    my_history: &[Move],
    round: u8,
    rng: &mut SeededRng,
) -> (r: Option<Move>)
    ensures
        (r, final(rng)@) == vm_outcome(bytecode@, opponent_history@, my_history@, round, old(rng)@),
{
    let mut stack: Vec<u8> = Vec::new();
    let mut pc: usize = 0;
    let mut fuel: u32 = 0;
    let ghost code = bytecode@;
    let ghost start = rng@;
    while pc < bytecode.len()
        invariant
            fuel <= MAX_FUEL,
            stack@.len() <= STACK_SIZE,
            vm_run(code, opponent_history@, my_history@, round, pc as int, stack@, rng@, (MAX_FUEL - fuel) as nat)
                == vm_outcome(code, opponent_history@, my_history@, round, start),
            code == bytecode@,
            start == old(rng)@,
        decreases MAX_FUEL - fuel,
    {
        if fuel >= MAX_FUEL {
            assert(vm_run(code, opponent_history@, my_history@, round, pc as int, stack@, rng@, 0)
                == (None::<Move>, rng@));
            return None;
        }
        let ghost st0 = stack@;
        let ghost g0 = rng@;
        let ghost left = (MAX_FUEL - fuel) as nat;
        fuel = fuel + 1;
        let flow = step(bytecode, opponent_history, my_history, round, pc, &mut stack, rng);
        proof {
            match vm_step(code, opponent_history@, my_history@, round, pc as int, st0, g0) {
                VmStep::Halt(m, g) => {},
                VmStep::Next(p2, s2, g2) => {
                    assert(vm_run(code, opponent_history@, my_history@, round, p2, s2, g2, (left - 1) as nat)
                        == vm_run(code, opponent_history@, my_history@, round, pc as int, st0, g0, left));
                    if p2 >= code.len() {
                        assert(vm_run(code, opponent_history@, my_history@, round, p2, s2, g2, (left - 1) as nat)
                            == (None::<Move>, g2));
                    }
                },
            }
        }
        match flow {
            Flow::Stop(m) => return m,
            Flow::Next(p) => pc = p,
        }
    }
    None
}

/// Runs a program and returns its move; any fault resolves to Cooperate.
pub fn execute_bytecode(
    bytecode: &[u8],
    opponent_history: &[Move],
    my_history: &[Move],
    round: u8,
    rng: &mut SeededRng,
) -> (r: Move)
    ensures
        r == vm_move(bytecode@, opponent_history@, my_history@, round, old(rng)@),
        final(rng)@ == vm_outcome(bytecode@, opponent_history@, my_history@, round, old(rng)@).1,
{
    match execute_inner(bytecode, opponent_history, my_history, round, rng) {
        Some(m) => m,
        None => Move::Cooperate,
    }
}

} // verus!
