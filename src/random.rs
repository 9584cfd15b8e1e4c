//! Seeded pseudo-random stream (xorshift64*), keyed by a 32-byte seed and a
//! stream index.
use vstd::prelude::*;
use vstd::wrapping::u64_specs::{wrapping_add, wrapping_mul};

verus! {

/// Multiplier that folds the stream index into the initial state.
pub const STREAM_MIX: u64 = 0x517cc1b727220a95;

/// Multiplier that folds a round index into a derived sub-stream.
pub const ROUND_MIX: u64 = 0x9e3779b97f4a7c15;

/// Odd multiplier applied to the state to form each output.
pub const OUTPUT_MUL: u64 = 0x2545f4914f6cdd1d;

/// Number of outputs discarded after seeding.
pub const WARM_UP: u64 = 8;

/// The xorshift state transition (three shift-xor steps).
pub open spec fn xorshift(s: u64) -> u64 {
    let a = s ^ (s >> 12u64);
    let b = a ^ (a << 25u64);
    b ^ (b >> 27u64)
}

/// The state after `n` transitions from `s`.
pub open spec fn advance(s: u64, n: nat) -> u64
    decreases n,
{
    if n == 0 {
        s
    } else {
        advance(xorshift(s), (n - 1) as nat)
    }
}

/// The 64-bit output drawn from state `s`: the next state times the odd constant.
pub open spec fn output_of(s: u64) -> u64 {
    wrapping_mul(xorshift(s), OUTPUT_MUL)
}

/// The 32-bit output drawn from state `s`: the high half of the 64-bit output.
pub open spec fn output32_of(s: u64) -> u32 {
    (output_of(s) >> 32u64) as u32
}

/// A percentage (0..=99) drawn from state `s`.
pub open spec fn percent_of(s: u64) -> u8 {
    (output32_of(s) % 100) as u8
}

/// Little-endian value of `len` bytes of `s` starting at `start`.
pub open spec fn le_value(s: Seq<u8>, start: int, len: nat) -> nat
    decreases len,
{
    if len == 0 {
        0
    } else {
        s[start] as nat + 256 * le_value(s, start + 1, (len - 1) as nat)
    }
}

/// 256 to the power `n`.
pub open spec fn pow256(n: nat) -> nat
    decreases n,
{
    if n == 0 {
        1
    } else {
        256 * pow256((n - 1) as nat)
    }
}

/// Chunk `i` of the seed, read as a little-endian word and tagged with its position.
pub open spec fn seed_chunk(seed: Seq<u8>, i: int) -> u64 {
    wrapping_add(le_value(seed, 8 * i, 8) as u64, i as u64)
}

/// XOR of the first `count` tagged seed chunks.
pub open spec fn fold_seed(seed: Seq<u8>, count: nat) -> u64
    decreases count,
{
    if count == 0 {
        0
    } else {
        fold_seed(seed, (count - 1) as nat) ^ seed_chunk(seed, count - 1)
    }
}

/// The state of the stream keyed by `seed` and `stream`, after the warm-up.
pub open spec fn stream_state(seed: Seq<u8>, stream: u32) -> u64 {
    advance(fold_seed(seed, 4) ^ wrapping_mul(stream as u64, STREAM_MIX), WARM_UP as nat)
}

/// The state of the sub-stream that `round` derives from state `s`.
pub open spec fn round_state(s: u64, round: u8) -> u64 {
    xorshift(s ^ wrapping_mul(round as u64, ROUND_MIX))
}

proof fn lemma_le_value_bound(s: Seq<u8>, start: int, len: nat)
    requires
        0 <= start,
        start + len <= s.len(),
    ensures
        le_value(s, start, len) < pow256(len),
    decreases len,
{
    if len > 0 {
        lemma_le_value_bound(s, start + 1, (len - 1) as nat);
        let rest = le_value(s, start + 1, (len - 1) as nat);
        let p = pow256((len - 1) as nat);
        let b = s[start] as nat;
        assert(b + 256 * rest < 256 * p) by (nonlinear_arith)
            requires
                b < 256,
                rest < p,
        ;
    }
}

/// Deterministic generator; same seed and stream index, same sequence.
#[derive(Clone, Copy, Debug)]
pub struct SeededRng {
    state: u64,
}

impl View for SeededRng {
    type V = u64;

    /// The generator's current state.
    closed spec fn view(&self) -> u64 {
        self.state
    }
}

/// Reads eight bytes of `seed` from `start` as a little-endian word.
fn read_le_word(seed: &[u8; 32], start: usize) -> (r: u64)
    requires
        start + 8 <= 32,
    ensures
        r as nat == le_value(seed@, start as int, 8),
{
    let mut v: u64 = 0;
    let mut j: usize = 8;
    proof {
        assert(pow256(0) == 1);
    }
    while j > 0
        invariant
            j <= 8,
            start + 8 <= 32,
            seed@.len() == 32,
            v as nat == le_value(seed@, start + j, (8 - j) as nat),
            v < pow256((8 - j) as nat),
        decreases j,
    {
        j = j - 1;
        let b = seed[start + j];
        proof {
            let p = pow256((7 - j) as nat);
            assert(pow256((8 - j) as nat) == 256 * p);
            lemma_pow256_eight();
            assert((b as nat) + 256 * (v as nat) < 256 * p) by (nonlinear_arith)
                requires
                    b < 256,
                    v < p,
            ;
            assert(256 * p <= pow256(8)) by {
                lemma_pow256_mono((8 - j) as nat, 8);
            }
        }
        v = b as u64 + 256 * v;
    }
    v
}

proof fn lemma_pow256_eight()
    ensures
        pow256(8) == 0x1_0000_0000_0000_0000,
{
    reveal_with_fuel(pow256, 9);
}

proof fn lemma_pow256_mono(a: nat, b: nat)
    requires
        a <= b,
    ensures
        pow256(a) <= pow256(b),
    decreases b,
{
    if a < b {
        lemma_pow256_mono(a, (b - 1) as nat);
    }
}

impl SeededRng {
    /// Creates the stream keyed by `seed` and `match_index`.
    pub fn new(seed: &[u8; 32], match_index: u32) -> (r: Self)
        ensures
            r@ == stream_state(seed@, match_index),
    {
        let mut state: u64 = 0;
        let mut i: usize = 0;
        while i < 4
            invariant
                i <= 4,
                seed@.len() == 32,
                state == fold_seed(seed@, i as nat),
            decreases 4 - i,
        {
            let word = read_le_word(seed, 8 * i);
            state = state ^ word.wrapping_add(i as u64);
            i = i + 1;
        }
        state = state ^ (match_index as u64).wrapping_mul(STREAM_MIX);
        let ghost start = state;
        let mut rng = SeededRng { state };
        let mut n: u64 = 0;
        while n < WARM_UP
            invariant
                n <= WARM_UP,
                rng@ == advance(start, n as nat),
            decreases WARM_UP - n,
        {
            proof {
                lemma_advance_succ(start, n as nat);
            }
            rng.next_u64();
            n = n + 1;
        }
        rng
    }

    /// Derives the independent sub-stream for `round`.
    pub fn for_round(&self, round: u8) -> (r: Self)
        ensures
            r@ == round_state(self@, round),
    {
        let new_state = self.state ^ (round as u64).wrapping_mul(ROUND_MIX);
        let mut rng = SeededRng { state: new_state };
        rng.next_u64();
        rng
    }

    /// Draws the next 64-bit output.
    pub fn next_u64(&mut self) -> (r: u64)
        ensures
            final(self)@ == xorshift(old(self)@),
            r == output_of(old(self)@),
    {
        self.state = self.state ^ (self.state >> 12u64);
        self.state = self.state ^ (self.state << 25u64);
        self.state = self.state ^ (self.state >> 27u64);
        self.state.wrapping_mul(OUTPUT_MUL)
    }

    /// Draws the next 32-bit output (the high half of a 64-bit draw).
    pub fn next_u32(&mut self) -> (r: u32)
        ensures
            final(self)@ == xorshift(old(self)@),
            r == output32_of(old(self)@),
    {
        (self.next_u64() >> 32u64) as u32
    }

    /// Draws a percentage in 0..=99.
    pub fn next_percent(&mut self) -> (r: u8)
        ensures
            final(self)@ == xorshift(old(self)@),
            r == percent_of(old(self)@),
            r < 100,
    {
        (self.next_u32() % 100) as u8
    }

    /// Draws a value in `[0, max)`; returns 0 without drawing when `max` is 0.
    pub fn next_range(&mut self, max: u32) -> (r: u32)
        ensures
            max == 0 ==> r == 0 && final(self)@ == old(self)@,
            max > 0 ==> r == output32_of(old(self)@) % max && final(self)@ == xorshift(old(self)@),
            max > 0 ==> r < max,
    {
        if max == 0 {
            return 0;
        }
        self.next_u32() % max
    }
}

pub proof fn lemma_advance_succ(s: u64, n: nat)
    ensures
        advance(s, n + 1) == xorshift(advance(s, n)),
    decreases n,
{
    assert(advance(s, n + 1) == advance(xorshift(s), n));
    if n > 0 {
        lemma_advance_succ(xorshift(s), (n - 1) as nat);
        assert(advance(s, n) == advance(xorshift(s), (n - 1) as nat));
    }
}

} // verus!
