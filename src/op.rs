//! Opcodes of the strategy bytecode.
use vstd::prelude::*;

verus! {

/// Terminal: cooperate.
pub const COOP: u8 = 0x00;
/// Push the immediate byte that follows.
pub const PUSH: u8 = 0x01;
/// Push the opponent's last move (0 cooperate or no history, 1 defect).
pub const OPP_LAST: u8 = 0x02;
/// Push the player's own last move.
pub const MY_LAST: u8 = 0x03;
/// Pop `n`; push the opponent's move `n` rounds back (0 when out of range).
pub const OPP_N: u8 = 0x04;
/// Pop `n`; push the player's own move `n` rounds back (0 when out of range).
pub const MY_N: u8 = 0x05;
/// Push the opponent's defection count (capped at 255).
pub const OPP_DEFECTS: u8 = 0x06;
/// Push the player's own defection count (capped at 255).
pub const MY_DEFECTS: u8 = 0x07;
/// Push the round index.
pub const ROUND: u8 = 0x08;
/// Push a random percentage (0..=99).
pub const RAND: u8 = 0x09;
/// Saturating addition.
pub const ADD: u8 = 0x0A;
/// Saturating subtraction.
pub const SUB: u8 = 0x0B;
/// Saturating multiplication.
pub const MUL: u8 = 0x0C;
/// Greater than (0 or 1).
pub const GT: u8 = 0x0D;
/// Less than (0 or 1).
pub const LT: u8 = 0x0E;
/// Equal (0 or 1).
pub const EQ: u8 = 0x0F;
/// Logical not (0 or 1).
pub const NOT: u8 = 0x10;
/// Logical and (0 or 1).
pub const AND: u8 = 0x11;
/// Logical or (0 or 1).
pub const OR: u8 = 0x12;
/// Duplicate the top of the stack.
pub const DUP: u8 = 0x13;
/// Jump forward by the offset byte that follows: target `pc + 2 + offset`.
pub const JMP_FWD: u8 = 0x14;
/// Pop a condition; jump forward when it is nonzero.
pub const JMP_FWD_IF: u8 = 0x15;
/// Terminal: defect.
pub const DEFECT: u8 = 0x16;
/// Push the player's own payoff of the last round (3 before any round).
pub const SCORE_LAST: u8 = 0x17;
/// Terminal: pop; nonzero defects, zero cooperates.
pub const RETURN: u8 = 0x18;

} // verus!
