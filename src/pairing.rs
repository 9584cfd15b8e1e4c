//! Deterministic pairing: which two participants meet in a given match.
//!
//! A seed-keyed Feistel permutation scrambles the match order; the permuted
//! index is then turned into a pair directly, with no enumeration.
use vstd::prelude::*;
use vstd::wrapping::u64_specs::{wrapping_add, wrapping_mul};

use vstd::arithmetic::div_mod::{lemma_mod_add_multiples_vanish, lemma_small_mod};

use crate::random::{advance, lemma_advance_succ, output32_of, output_of, stream_state, xorshift, SeededRng};

verus! {

/// Participant counts up to this play a full round robin.
pub const FULL_ROUND_ROBIN_LIMIT: u32 = 200;

/// Smallest matches-per-player in larger tournaments.
pub const MIN_K: u16 = 49;

/// Largest matches-per-player in larger tournaments.
pub const MAX_K: u16 = 99;

/// The matches-per-player a tournament of `n` plays when `k` is asked for.
pub open spec fn effective_k_spec(n: u32, k: u16) -> u16 {
    if n < 2 {
        0
    } else if n <= FULL_ROUND_ROBIN_LIMIT {
        (n - 1) as u16
    } else if k < MIN_K {
        MIN_K
    } else if k > MAX_K {
        MAX_K
    } else {
        k
    }
}

/// Matches per player for a tournament of `participant_count`: none below
/// two participants, a full round robin up to 200, else `config_k` clamped
/// to `[49, 99]`.
pub fn effective_k(participant_count: u32, config_k: u16) -> (r: u16)
    ensures
        r == effective_k_spec(participant_count, config_k),
{
    if participant_count < 2 {
        return 0;
    }
    if participant_count <= FULL_ROUND_ROBIN_LIMIT {
        (participant_count - 1) as u16
    } else {
        if config_k < MIN_K {
            MIN_K
        } else if config_k > MAX_K {
            MAX_K
        } else {
            config_k
        }
    }
}

/// `a / b` rounded up.
pub open spec fn ceil_div(a: int, b: int) -> int {
    (a + b - 1) / b
}

/// The largest circular offset usable with `n` players: `n/2`, less one
/// when `n` is even (offset `n/2` would pair everyone twice).
pub open spec fn available_offsets(n: u32) -> int {
    if n % 2 == 0 && n > 0 {
        n / 2 - 1
    } else {
        (n / 2) as int
    }
}

/// The number of circular offsets in use.
pub open spec fn offsets_in_use(n: u32, k: u32) -> int {
    let want = ceil_div(k as int, 2);
    if want < available_offsets(n) {
        want
    } else {
        available_offsets(n)
    }
}

/// `C(b, 2)`, the number of pairs among `b` players.
pub open spec fn tri(b: int) -> int {
    b * (b - 1) / 2
}

/// Whether `n` players with `k` matches each play repeated round robins.
pub open spec fn is_round_robin(n: u32, k: u32) -> bool {
    n <= k + 1
}

/// The number of matches of a tournament of `n` players with `k` matches each.
pub open spec fn match_count_spec(n: u32, k: u32) -> int {
    if n < 2 || k == 0 {
        0
    } else if is_round_robin(n, k) {
        tri(n as int) * ceil_div(k as int, n - 1)
    } else {
        offsets_in_use(n, k) * n
    }
}

/// Whether the match count of `n` players with `k` matches each fits in a `u32`.
pub open spec fn match_count_fits(n: u32, k: u16) -> bool {
    match_count_spec(n, k as u32) <= u32::MAX
}

proof fn lemma_tri_bound(n: u32)
    requires
        n <= 65536,
    ensures
        n * (n - 1) <= 65536 * 65535,
{
    if n > 0 {
        assert(n * (n - 1) <= 65536 * 65535) by (nonlinear_arith)
            requires
                1 <= n <= 65536,
        ;
    }
}

proof fn lemma_available_bound(n: u32)
    ensures
        0 <= available_offsets(n) <= n / 2,
{
}

/// The match count, by formula.
fn calculate_match_count_inner(n: u32, k: u32) -> (r: u32)
    requires
        k <= u16::MAX,
        match_count_spec(n, k) <= u32::MAX,
    ensures
        r == match_count_spec(n, k),
{
    if n < 2 || k == 0 {
        return 0;
    }
    if n <= k + 1 {
        proof {
            lemma_tri_bound(n);
        }
        let c_n_2 = n * (n - 1) / 2;
        let cycles = (k + (n - 1) - 1) / (n - 1);
        assert(c_n_2 * cycles == match_count_spec(n, k));
        c_n_2 * cycles
    } else {
        let available = if n % 2 == 0 { n / 2 - 1 } else { n / 2 };
        let want = (k + 1) / 2;
        let offsets_to_use = if want < available { want } else { available };
        assert(offsets_to_use * n == match_count_spec(n, k));
        offsets_to_use * n
    }
}

/// Tells whether the match count of a tournament fits in a `u32`, as the
/// pairing functions require.
pub fn match_count_in_range(participant_count: u32, matches_per_player: u16) -> (r: bool)
    ensures
        r == match_count_fits(participant_count, matches_per_player),
{
    let n = participant_count as u64;
    let k = matches_per_player as u64;
    if n < 2 || k == 0 {
        return true;
    }
    if n <= k + 1 {
        proof {
            lemma_tri_bound(participant_count);
        }
        let c_n_2 = n * (n - 1) / 2;
        let cycles = (k + (n - 1) - 1) / (n - 1);
        assert(cycles <= 0x2_0000) by (nonlinear_arith)
            requires
                cycles == (k + (n - 1) - 1) / (n - 1),
                n >= 2,
                k + n <= 0x2_0000,
        ;
        assert(c_n_2 * cycles <= 0x1_0000_0000 * 0x2_0000) by (nonlinear_arith)
            requires
                c_n_2 <= 0x1_0000_0000,
                cycles <= 0x2_0000,
        ;
        let total = c_n_2 * cycles;
        assert(total == match_count_spec(participant_count, matches_per_player as u32)) by (nonlinear_arith)
            requires
                n == participant_count,
                k == matches_per_player,
                total == c_n_2 * cycles,
                c_n_2 == n * (n - 1) / 2,
                cycles == (k + (n - 1) - 1) / (n - 1),
                n <= k + 1,
                n >= 2,
                match_count_spec(participant_count, matches_per_player as u32)
                    == tri(n as int) * ceil_div(k as int, n - 1),
        ;
        total <= u32::MAX as u64
    } else {
        let available = if n % 2 == 0 { n / 2 - 1 } else { n / 2 };
        let want = (k + 1) / 2;
        let offsets_to_use = if want < available { want } else { available };
        assert(offsets_to_use * n <= 0x1_0000 * 0x1_0000_0000) by (nonlinear_arith)
            requires
                offsets_to_use <= 0x1_0000,
                n <= 0x1_0000_0000,
        ;
        offsets_to_use * n <= u32::MAX as u64
    }
}

/// Total number of matches of a tournament, by formula.
pub fn calculate_match_count(participant_count: u32, matches_per_player: u16, _seed: &[u8; 32]) -> (r: u32)
    requires
        match_count_fits(participant_count, matches_per_player),
    ensures
        r == match_count_spec(participant_count, matches_per_player as u32),
{
    calculate_match_count_inner(participant_count, matches_per_player as u32)
}

/// The least `r` from `r0` on with `r * r >= n`.
pub open spec fn ceil_sqrt_from(n: nat, r: nat) -> nat
    decreases n - r,
{
    if r >= n || r * r >= n {
        r
    } else {
        ceil_sqrt_from(n, r + 1)
    }
}

/// The ceiling of the square root of `n`.
pub open spec fn ceil_sqrt(n: nat) -> nat {
    ceil_sqrt_from(n, 0)
}

proof fn lemma_ceil_sqrt_unique(n: nat, r: nat, j: nat)
    requires
        r * r >= n,
        r == 0 || (r - 1) * (r - 1) < n,
        j <= r,
    ensures
        ceil_sqrt_from(n, j) == r,
    decreases r - j,
{
    if j < r {
        assert(j * j < n) by (nonlinear_arith)
            requires
                j < r,
                (r - 1) * (r - 1) < n,
        ;
        assert(j < n) by (nonlinear_arith)
            requires
                j * j < n,
        ;
        lemma_ceil_sqrt_unique(n, r, j + 1);
    } else {
        if r > 0 && r < n {
        }
    }
}

/// Ceiling of the integer square root, in integer arithmetic only.
pub fn isqrt_ceil(n: u32) -> (r: u32)
    ensures
        r == ceil_sqrt(n as nat),
        r * r >= n,
        r == 0 || (r - 1) * (r - 1) < n,
        r <= 65536,
{
    if n <= 1 {
        proof {
            assert(n == 0 || (n - 1) * (n - 1) == 0);
            lemma_ceil_sqrt_unique(n as nat, n as nat, 0);
        }
        return n;
    }
    let m = n as u64;
    // Newton's iteration from above for the floor of the root.
    let mut x: u64 = m;
    let mut y: u64 = (x + 1) / 2;
    while y < x
        invariant
            1 <= x <= m,
            m >= 2,
            m <= u32::MAX,
            y >= 1,
        decreases x,
    {
        x = y;
        assert(x + m / x >= 2) by (nonlinear_arith)
            requires
                x >= 1,
                m >= 2,
        ;
        y = (x + m / x) / 2;
    }
    // Settle on the floor of the root exactly.
    assert(x * x <= u32::MAX * u32::MAX) by (nonlinear_arith)
        requires
            x <= u32::MAX,
    ;
    while x * x > m
        invariant
            x <= m,
            m <= u32::MAX,
            x * x <= u32::MAX * u32::MAX,
        decreases x,
    {
        assert(x > 0);
        x = x - 1;
        assert(x * x <= u32::MAX * u32::MAX) by (nonlinear_arith)
            requires
                x <= u32::MAX,
        ;
    }
    assert(x < 65536) by (nonlinear_arith)
        requires
            x * x <= m,
            m <= u32::MAX,
    ;
    assert((x + 1) * (x + 1) <= 65536 * 65536) by (nonlinear_arith)
        requires
            x < 65536,
    ;
    while (x + 1) * (x + 1) <= m
        invariant
            x * x <= m,
            m <= u32::MAX,
            x < 65536,
            (x + 1) * (x + 1) <= 65536 * 65536,
        decreases m - x,
    {
        x = x + 1;
        assert(x < 65536) by (nonlinear_arith)
            requires
                x * x <= m,
                m <= u32::MAX,
        ;
        assert(x <= m) by (nonlinear_arith)
            requires
                x * x <= m,
                x >= 1,
        ;
        assert((x + 1) * (x + 1) <= 65536 * 65536) by (nonlinear_arith)
            requires
                x < 65536,
        ;
    }
    let r: u64 = if x * x == m { x } else { x + 1 };
    proof {
        assert(r * r >= m && (r - 1) * (r - 1) < m) by (nonlinear_arith)
            requires
                x * x <= m,
                (x + 1) * (x + 1) > m,
                x * x == m ==> r == x,
                x * x != m ==> r == x + 1,
                x >= 1 || m >= 2,
        ;
        lemma_ceil_sqrt_unique(m as nat, r as nat, 0);
    }
    r as u32
}

/// The largest `b` from `b0` on with `C(b, 2) <= rank`.
pub open spec fn colex_from(rank: nat, b: nat) -> nat
    decreases rank + 1 - b,
{
    if b > rank || tri(b + 1 as int) > rank {
        b
    } else {
        colex_from(rank, b + 1)
    }
}

/// The pair `(a, b)`, `a < b`, of colexicographic rank `rank`:
/// `b` is the largest with `C(b, 2) <= rank`, and `a = rank - C(b, 2)`.
pub open spec fn unrank_spec(rank: nat) -> (u32, u32) {
    let b = colex_from(rank, 0);
    ((rank - tri(b as int)) as u32, b as u32)
}

proof fn lemma_tri_monotone(x: int, y: int)
    requires
        0 <= x <= y,
    ensures
        tri(x) <= tri(y),
{
    assert(x * (x - 1) <= y * (y - 1)) by (nonlinear_arith)
        requires
            0 <= x <= y,
    ;
    assert(x * (x - 1) / 2 <= y * (y - 1) / 2) by (nonlinear_arith)
        requires
            x * (x - 1) <= y * (y - 1),
    ;
}

proof fn lemma_tri_succ(b: int)
    requires
        b >= 0,
    ensures
        tri(b + 1) == tri(b) + b,
{
    assert((b + 1) * b / 2 == b * (b - 1) / 2 + b) by (nonlinear_arith)
        requires
            b >= 0,
    ;
}

proof fn lemma_colex_unique(rank: nat, b: nat, j: nat)
    requires
        b >= 1,
        tri(b as int) <= rank < tri(b + 1 as int),
        j <= b,
    ensures
        colex_from(rank, j) == b,
    decreases b - j,
{
    lemma_tri_succ(b as int);
    lemma_tri_succ(b - 1);
    if j < b {
        lemma_tri_monotone(j + 1 as int, b as int);
        lemma_tri_monotone(j as int, b - 1);
        assert(j <= rank);
        lemma_colex_unique(rank, b, j + 1);
    }
}

/// Colexicographic unranking: `rank = C(b, 2) + a` with `a < b`.
pub fn unrank_pair(rank: u32) -> (r: (u32, u32))
    ensures
        r == unrank_spec(rank as nat),
        r.0 < r.1,
        tri(r.1 as int) <= rank < tri(r.1 + 1 as int),
{
    let rank64 = rank as u64;
    // Estimate b from the floor of sqrt(1 + 8 rank), by Newton's iteration.
    let val: u64 = 1 + 8 * rank64;
    let mut s: u64 = val;
    let mut t: u64 = (s + 1) / 2;
    while t < s
        invariant
            1 <= s <= val,
            val <= 8 * 0x1_0000_0000,
            t >= 1,
        decreases s,
    {
        s = t;
        assert(s + val / s >= 2) by (nonlinear_arith)
            requires
                s >= 1,
                val >= 1,
        ;
        t = (s + val / s) / 2;
    }
    let mut b: u64 = (1 + s) / 2;
    if b > 0x2_0000 {
        b = 0x2_0000;
    }
    assert((b + 1) * b <= 0x2_0000 * 0x2_0001 && b * (b - 1) <= 0x2_0000 * 0x2_0001) by (nonlinear_arith)
        requires
            b <= 0x2_0000,
    ;
    // Correct the estimate.
    while b > 0 && b * (b - 1) / 2 > rank64
        invariant
            b <= 0x2_0000,
            (b + 1) * b <= 0x2_0000 * 0x2_0001 && b * (b - 1) <= 0x2_0000 * 0x2_0001,
            rank64 <= u32::MAX,
        decreases b,
    {
        b = b - 1;
        assert((b + 1) * b <= 0x2_0000 * 0x2_0001 && b * (b - 1) <= 0x2_0000 * 0x2_0001) by (nonlinear_arith)
            requires
                b < 0x2_0000,
        ;
    }
    proof {
        if b >= 2 {
            assert(b - 1 <= b * (b - 1) / 2) by (nonlinear_arith)
                requires
                    b >= 2,
            ;
        }
    }
    while (b + 1) * b / 2 <= rank64
        invariant
            b <= rank64 + 1,
            b <= 0x2_0000,
            (b + 1) * b <= 0x2_0000 * 0x2_0001 && b * (b - 1) <= 0x2_0000 * 0x2_0001,
            rank64 <= u32::MAX,
            b == 0 || tri(b as int) <= rank64,
        decreases rank64 + 1 - b,
    {
        proof {
            lemma_tri_succ(b as int);
        }
        b = b + 1;
        assert(b <= 0x2_0000) by (nonlinear_arith)
            requires
                (b * (b - 1)) / 2 <= rank64,
                rank64 <= u32::MAX,
                b >= 1,
        ;
        assert((b + 1) * b <= 0x2_0000 * 0x2_0001 && b * (b - 1) <= 0x2_0000 * 0x2_0001) by (nonlinear_arith)
            requires
                b <= 0x2_0000,
        ;
    }
    proof {
        lemma_tri_succ(b as int);
        assert(b >= 1);
        lemma_colex_unique(rank as nat, b as nat, 0);
    }
    let a = rank64 - b * (b - 1) / 2;
    (a as u32, b as u32)
}

/// The pair of canonical index `c` in the round-robin regime.
pub open spec fn round_robin_pair(c: u32, n: u32) -> (u32, u32) {
    unrank_spec((c as int % tri(n as int)) as nat)
}

/// The pair of canonical index `c` in the circular regime: player `c mod n`
/// and the player `offsets[c / n]` places after it, smaller index first.
pub open spec fn circular_pair(c: u32, n: u32, offsets: Seq<u32>) -> (u32, u32) {
    let i = c as int % n as int;
    let j = (i + offsets[c as int / n as int]) % (n as int);
    if i < j {
        (i as u32, j as u32)
    } else {
        (j as u32, i as u32)
    }
}

proof fn lemma_mod_once(x: int, n: int)
    requires
        0 <= x < 2 * n,
    ensures
        x < n ==> x % n == x,
        x >= n ==> x % n == x - n,
{
    if x < n {
        lemma_small_mod(x as nat, n as nat);
    } else {
        lemma_small_mod((x - n) as nat, n as nat);
        lemma_mod_add_multiples_vanish(x - n, n);
    }
}

/// Round-robin regime: canonical index to pair by colexicographic unranking.
fn canonical_to_pair_round_robin(canonical_idx: u32, n: u32) -> (r: (u32, u32))
    requires
        2 <= n <= 65536,
    ensures
        r == round_robin_pair(canonical_idx, n),
        r.0 < r.1 < n,
{
    proof {
        lemma_tri_bound(n);
        lemma_tri_monotone(2, n as int);
    }
    let c_n_2 = n * (n - 1) / 2;
    let pair_rank = canonical_idx % c_n_2;
    let r = unrank_pair(pair_rank);
    proof {
        if r.1 >= n {
            lemma_tri_monotone(n as int, r.1 as int);
        }
    }
    r
}

/// Circular regime: canonical index to pair through its offset group.
fn canonical_to_pair_circular(canonical_idx: u32, n: u32, offsets: &Vec<u32>) -> (r: (u32, u32))
    requires
        n > 0,
        (canonical_idx / n) < offsets@.len(),
        forall|g: int| 0 <= g < offsets@.len() ==> 1 <= #[trigger] offsets@[g] < n,
    ensures
        r == circular_pair(canonical_idx, n, offsets@),
        r.0 < r.1 < n,
{
    let group = canonical_idx / n;
    let i = canonical_idx % n;
    let d = offsets[group as usize];
    let j = ((i as u64 + d as u64) % n as u64) as u32;
    proof {
        lemma_mod_once((i + d) as int, n as int);
    }
    if i < j {
        (i, j)
    } else {
        (j, i)
    }
}

/// The state of the stream that keys the Feistel rounds.
pub open spec fn key_stream(seed: Seq<u8>) -> u64 {
    stream_state(seed, u32::MAX)
}

/// The six Feistel round keys of a seed: the first six outputs of its key stream.
pub open spec fn feistel_keys(seed: Seq<u8>) -> Seq<u64> {
    Seq::new(6, |i: int| output_of(advance(key_stream(seed), i as nat)))
}

/// Derives the six Feistel round keys from a seed, on a stream of their own.
pub fn derive_feistel_keys(seed: &[u8; 32]) -> (r: [u64; 6])
    ensures
        r@ == feistel_keys(seed@),
{
    let mut rng = SeededRng::new(seed, u32::MAX);
    let ghost s = rng@;
    proof {
        lemma_advance_succ(s, 0);
        lemma_advance_succ(s, 1);
        lemma_advance_succ(s, 2);
        lemma_advance_succ(s, 3);
        lemma_advance_succ(s, 4);
    }
    assert(advance(s, 0) == s);
    let k0 = rng.next_u64();
    let k1 = rng.next_u64();
    let k2 = rng.next_u64();
    let k3 = rng.next_u64();
    let k4 = rng.next_u64();
    let k5 = rng.next_u64();
    let keys = [k0, k1, k2, k3, k4, k5];
    assert(keys@ =~= feistel_keys(seed@));
    keys
}

/// The Feistel round function: mixes `input` with `key`, into `[0, modulus)`.
pub open spec fn round_fn_spec(input: u32, key: u64, modulus: u32) -> u32 {
    ((wrapping_add(wrapping_mul(input as u64, key | 1), key >> 32u64) >> 16u64) as u32) % modulus
}

/// The Feistel round function.
fn feistel_round_fn(input: u32, key: u64, modulus: u32) -> (r: u32)
    requires
        modulus > 0,
    ensures
        r == round_fn_spec(input, key, modulus),
        r < modulus,
{
    (((input as u64).wrapping_mul(key | 1).wrapping_add(key >> 32u64)) >> 16u64) as u32 % modulus
}

/// The halves after the first `i` Feistel rounds: even rounds update the
/// right half from the left, odd rounds the left from the right.
pub open spec fn feistel_rounds(l: u32, r: u32, keys: Seq<u64>, h: u32, i: nat) -> (u32, u32)
    decreases i,
{
    if i == 0 {
        (l, r)
    } else {
        let (l0, r0) = feistel_rounds(l, r, keys, h, (i - 1) as nat);
        if (i - 1) % 2 == 0 {
            (l0, ((r0 + round_fn_spec(l0, keys[i - 1], h)) % (h as int)) as u32)
        } else {
            (((l0 + round_fn_spec(r0, keys[i - 1], h)) % (h as int)) as u32, r0)
        }
    }
}

/// One pass of the six-round network over `[0, h * h)`.
pub open spec fn feistel_pass(v: u32, keys: Seq<u64>, h: u32) -> u32 {
    let (l, r) = feistel_rounds(v / h, v % h, keys, h, 6);
    (l * h + r) as u32
}

/// Cycle-walking: passes through the network until the value lands below
/// `domain`, at most `tries` times.
pub open spec fn cycle_walk(v: u32, domain: u32, keys: Seq<u64>, h: u32, tries: nat) -> Option<u32>
    decreases tries,
{
    if tries == 0 {
        None
    } else {
        let w = feistel_pass(v, keys, h);
        if w < domain {
            Some(w)
        } else {
            cycle_walk(w, domain, keys, h, (tries - 1) as nat)
        }
    }
}

/// Passes a cycle walk may take before it gives up.
pub const MAX_WALK: u32 = 1000;

/// The permuted position of `idx` in `[0, domain)`.
pub open spec fn permute_spec(idx: u32, domain: u32, keys: Seq<u64>) -> Option<u32> {
    if domain <= 1 {
        Some(0)
    } else {
        cycle_walk(idx, domain, keys, ceil_sqrt(domain as nat) as u32, MAX_WALK as nat)
    }
}

/// One pass of the network.
fn feistel_pass_exec(val: u32, half: u32, round_keys: &[u64; 6]) -> (r: u32)
    requires
        1 <= half <= 65536,
    ensures
        r == feistel_pass(val, round_keys@, half),
        r < half * half,
{
    let mut left = val / half;
    let mut right = val % half;
    let mut i: usize = 0;
    while i < 6
        invariant
            1 <= half <= 65536,
            i <= 6,
            (left, right) == feistel_rounds(val / half, val % half, round_keys@, half, i as nat),
            right < half,
            i >= 2 ==> left < half,
        decreases 6 - i,
    {
        if i % 2 == 0 {
            let f = feistel_round_fn(left, round_keys[i], half);
            right = ((right as u64 + f as u64) % half as u64) as u32;
        } else {
            let f = feistel_round_fn(right, round_keys[i], half);
            left = ((left as u64 + f as u64) % half as u64) as u32;
        }
        i = i + 1;
    }
    assert(left * half + right < half * half) by (nonlinear_arith)
        requires
            left < half,
            right < half,
    ;
    assert(half * half <= 65536 * 65536) by (nonlinear_arith)
        requires
            half <= 65536,
    ;
    left * half + right
}

/// The Feistel permutation of `[0, domain_size)` with cycle-walking; `None`
/// when the walk has not landed in range after its last try.
pub fn feistel_permute(idx: u32, domain_size: u32, round_keys: &[u64; 6]) -> (r: Option<u32>)
    ensures
        r == permute_spec(idx, domain_size, round_keys@),
{
    if domain_size <= 1 {
        return Some(0);
    }
    let half = isqrt_ceil(domain_size);
    let mut val = idx;
    let mut tries: u32 = 0;
    while tries < MAX_WALK
        invariant
            1 <= half <= 65536,
            half == ceil_sqrt(domain_size as nat),
            domain_size > 1,
            tries <= MAX_WALK,
            cycle_walk(val, domain_size, round_keys@, half, (MAX_WALK - tries) as nat)
                == permute_spec(idx, domain_size, round_keys@),
        decreases MAX_WALK - tries,
    {
        val = feistel_pass_exec(val, half, round_keys);
        if val < domain_size {
            return Some(val);
        }
        tries = tries + 1;
    }
    None
}

/// Floyd's choice at step `j` from draw state `g`: a uniform `t` in
/// `[1, j]`, or `j` itself when `t` was already chosen.
pub open spec fn floyd_pick(chosen: Seq<u32>, j: u32, g: u64) -> u32 {
    let t = (output32_of(g) % j + 1) as u32;
    if chosen.contains(t) {
        j
    } else {
        t
    }
}

/// The first position from `i` on whose value is not below `v`.
pub open spec fn insert_position(s: Seq<u32>, v: u32, i: int) -> int
    decreases s.len() - i,
{
    if i < 0 || i >= s.len() || s[i] >= v {
        i
    } else {
        insert_position(s, v, i + 1)
    }
}

/// `s` with `v` inserted before the first value not below it.
pub open spec fn insert_sorted(s: Seq<u32>, v: u32) -> Seq<u32> {
    s.insert(insert_position(s, v, 0), v)
}

/// Floyd's sampling over steps `first, first + 1, ...` (`count` of them),
/// from draw state `g`: the chosen values in ascending order, and the
/// draw state after.
pub open spec fn floyd_sample(first: u32, count: nat, g: u64) -> (Seq<u32>, u64)
    decreases count,
{
    if count == 0 {
        (Seq::empty(), g)
    } else {
        let (s, g0) = floyd_sample(first, (count - 1) as nat, g);
        let j = (first + count - 1) as u32;
        (insert_sorted(s, floyd_pick(s, j, g0)), xorshift(g0))
    }
}

/// The circular offsets of a tournament, drawn without replacement from
/// `[1, available_offsets(n)]` on stream 0 of the seed, ascending.
pub open spec fn offsets_spec(n: u32, k: u32, seed: Seq<u8>) -> Seq<u32> {
    let m = offsets_in_use(n, k);
    floyd_sample((available_offsets(n) - m + 1) as u32, m as nat, stream_state(seed, 0)).0
}

proof fn lemma_insert_position_bound(s: Seq<u32>, v: u32, i: int)
    requires
        0 <= i <= s.len(),
    ensures
        i <= insert_position(s, v, i) <= s.len(),
    decreases s.len() - i,
{
    if i < s.len() && s[i] < v {
        lemma_insert_position_bound(s, v, i + 1);
    }
}

/// Chooses the circular offsets by Floyd's sampling without replacement:
/// returns them ascending, with their count.
pub fn select_offsets(n: u32, k: u32, seed: &[u8; 32]) -> (r: (Vec<u32>, usize))
    ensures
        r.0@ == offsets_spec(n, k, seed@),
        r.1 == r.0@.len(),
        r.1 == offsets_in_use(n, k),
        forall|g: int| 0 <= g < r.0@.len() ==> 1 <= #[trigger] r.0@[g] <= available_offsets(n),
{
    let available = if n % 2 == 0 && n > 0 { n / 2 - 1 } else { n / 2 };
    let want = k / 2 + k % 2;
    let m = if want < available { want } else { available };
    let big_n = available;
    let first = big_n - m + 1;
    let mut rng = SeededRng::new(seed, 0);
    let ghost g_start = rng@;
    let mut result: Vec<u32> = Vec::new();
    let mut j = first;
    while j <= big_n
        invariant
            big_n == available_offsets(n),
            first == big_n - m + 1,
            big_n < 0x8000_0000,
            first <= j <= big_n + 1,
            first >= 1,
            (result@, rng@) == floyd_sample(first, (j - first) as nat, g_start),
            forall|g: int| 0 <= g < result@.len() ==> 1 <= #[trigger] result@[g] < j,
            result@.len() == j - first,
        decreases big_n + 1 - j,
    {
        let ghost before = result@;
        let ghost g0 = rng@;
        let t = rng.next_range(j) + 1;
        let mut found = false;
        let mut q: usize = 0;
        while q < result.len()
            invariant
                q <= result@.len(),
                result@ == before,
                found == before.subrange(0, q as int).contains(t),
            decreases result@.len() - q,
        {
            let ghost prefix = before.subrange(0, q as int);
            let ghost longer = before.subrange(0, q as int + 1);
            proof {
                assert(longer =~= prefix.push(before[q as int]));
            }
            if result[q] == t {
                found = true;
                proof {
                    assert(longer[q as int] == t);
                }
            } else {
                proof {
                    if longer.contains(t) {
                        let x = choose|x: int| 0 <= x < longer.len() && longer[x] == t;
                        assert(prefix[x] == t);
                    }
                    if prefix.contains(t) {
                        let x = choose|x: int| 0 <= x < prefix.len() && prefix[x] == t;
                        assert(longer[x] == t);
                    }
                }
            }
            q = q + 1;
        }
        proof {
            assert(before.subrange(0, before.len() as int) =~= before);
        }
        let v = if found { j } else { t };
        let mut p: usize = 0;
        while p < result.len() && result[p] < v
            invariant
                p <= result@.len(),
                result@ == before,
                insert_position(before, v, p as int) == insert_position(before, v, 0),
            decreases result@.len() - p,
        {
            p = p + 1;
        }
        proof {
            lemma_insert_position_bound(before, v, 0);
        }
        result.insert(p, v);
        proof {
            let after = result@;
            assert(after == before.insert(p as int, v));
            assert(j == (first + (j - first + 1) - 1) as u32);
            assert forall|g: int| 0 <= g < after.len() implies 1 <= #[trigger] after[g] < j + 1 by {
                if g < p {
                    assert(after[g] == before[g]);
                } else if g > p {
                    assert(after[g] == before[g - 1]);
                }
            }
        }
        j = j + 1;
    }
    let count = result.len();
    (result, count)
}

/// The pair that canonical index `c` denotes.
pub open spec fn canonical_pair(n: u32, k: u16, seed: Seq<u8>, c: u32) -> (u32, u32) {
    if is_round_robin(n, k as u32) {
        round_robin_pair(c, n)
    } else {
        circular_pair(c, n, offsets_spec(n, k as u32, seed))
    }
}

/// The pair that plays match `idx`, or `None` past the last match (or when
/// the cycle walk gives up).
pub open spec fn pairing_at(n: u32, k: u16, seed: Seq<u8>, idx: u32) -> Option<(u32, u32)> {
    let total = match_count_spec(n, k as u32);
    if idx >= total {
        None
    } else {
        match permute_spec(idx, total as u32, feistel_keys(seed)) {
            Some(c) => Some(canonical_pair(n, k, seed, c)),
            None => None,
        }
    }
}

proof fn lemma_walk_in_range(v: u32, domain: u32, keys: Seq<u64>, h: u32, tries: nat)
    ensures
        cycle_walk(v, domain, keys, h, tries) matches Some(c) ==> c < domain,
    decreases tries,
{
    if tries > 0 {
        lemma_walk_in_range(feistel_pass(v, keys, h), domain, keys, h, (tries - 1) as nat);
    }
}

/// A permuted index lands inside a nonempty domain.
pub proof fn lemma_permute_in_range(idx: u32, domain: u32, keys: Seq<u64>)
    requires
        domain >= 1,
    ensures
        permute_spec(idx, domain, keys) matches Some(c) ==> c < domain,
{
    if domain > 1 {
        lemma_walk_in_range(idx, domain, keys, ceil_sqrt(domain as nat) as u32, MAX_WALK as nat);
    }
}

/// The pair of canonical index `c`, with the offsets already drawn.
fn pair_for_canonical(n: u32, k: u32, c: u32, total: u32, offsets: &Vec<u32>) -> (r: (u32, u32))
    requires
        k <= u16::MAX,
        n >= 2,
        k >= 1,
        total == match_count_spec(n, k),
        c < total,
        !is_round_robin(n, k) ==> offsets@.len() == offsets_in_use(n, k),
        !is_round_robin(n, k) ==> forall|g: int|
            0 <= g < offsets@.len() ==> 1 <= #[trigger] offsets@[g] <= available_offsets(n),
    ensures
        is_round_robin(n, k) ==> r == round_robin_pair(c, n),
        !is_round_robin(n, k) ==> r == circular_pair(c, n, offsets@),
        r.0 < r.1 < n,
{
    if n <= k + 1 {
        canonical_to_pair_round_robin(c, n)
    } else {
        proof {
            let m = offsets_in_use(n, k);
            assert(c / n < m) by (nonlinear_arith)
                requires
                    c < m * n,
                    n >= 1,
                    m >= 0,
            ;
        }
        canonical_to_pair_circular(c, n, offsets)
    }
}

/// The pairing for match `match_index`, computed on its own in constant memory.
pub fn get_pairing_for_match(
    participant_count: u32,
    matches_per_player: u16,
    seed: &[u8; 32],
    match_index: u32,
) -> (r: Option<(u32, u32)>)
    requires
        match_count_fits(participant_count, matches_per_player),
    ensures
        r == pairing_at(participant_count, matches_per_player, seed@, match_index),
        r matches Some(p) ==> p.0 < p.1 < participant_count,
{
    let n = participant_count;
    let k = matches_per_player as u32;
    let total = calculate_match_count_inner(n, k);
    if match_index >= total {
        return None;
    }
    let round_keys = derive_feistel_keys(seed);
    let canonical_idx = match feistel_permute(match_index, total, &round_keys) {
        Some(c) => c,
        None => return None,
    };
    proof {
        lemma_permute_in_range(match_index, total, round_keys@);
    }
    if n <= k + 1 {
        let empty: Vec<u32> = Vec::new();
        Some(pair_for_canonical(n, k, canonical_idx, total, &empty))
    } else {
        let (offsets, _count) = select_offsets(n, k, seed);
        Some(pair_for_canonical(n, k, canonical_idx, total, &offsets))
    }
}

/// The pairings of matches `0..i` in order, leaving out any index whose
/// cycle walk gave up.
pub open spec fn collected_pairs(n: u32, k: u16, seed: Seq<u8>, i: nat) -> Seq<(u32, u32)>
    decreases i,
{
    if i == 0 {
        Seq::empty()
    } else {
        let prev = collected_pairs(n, k, seed, (i - 1) as nat);
        match pairing_at(n, k, seed, (i - 1) as u32) {
            Some(p) => prev.push(p),
            None => prev,
        }
    }
}

/// Every pairing of the tournament, in match order.
pub fn generate_all_pairings(participant_count: u32, matches_per_player: u16, seed: &[u8; 32]) -> (r: Vec<(u32, u32)>)
    requires
        match_count_fits(participant_count, matches_per_player),
    ensures
        r@ == collected_pairs(
            participant_count,
            matches_per_player,
            seed@,
            match_count_spec(participant_count, matches_per_player as u32) as nat,
        ),
        forall|x: int| 0 <= x < r@.len() ==> #[trigger] r@[x].0 < r@[x].1 < participant_count,
{
    let n = participant_count;
    let k = matches_per_player as u32;
    let mut pairs: Vec<(u32, u32)> = Vec::new();
    if n < 2 {
        return pairs;
    }
    let total = calculate_match_count_inner(n, k);
    if total == 0 {
        return pairs;
    }
    let round_keys = derive_feistel_keys(seed);
    let offsets = if n <= k + 1 {
        Vec::new()
    } else {
        select_offsets(n, k, seed).0
    };
    let mut i: u32 = 0;
    while i < total
        invariant
            n >= 2,
            k == matches_per_player,
            total == match_count_spec(n, k),
            total > 0,
            i <= total,
            round_keys@ == feistel_keys(seed@),
            !is_round_robin(n, k) ==> offsets@ == offsets_spec(n, k, seed@),
            !is_round_robin(n, k) ==> offsets@.len() == offsets_in_use(n, k),
            !is_round_robin(n, k) ==> forall|g: int|
                0 <= g < offsets@.len() ==> 1 <= #[trigger] offsets@[g] <= available_offsets(n),
            pairs@ == collected_pairs(n, matches_per_player, seed@, i as nat),
            forall|x: int| 0 <= x < pairs@.len() ==> #[trigger] pairs@[x].0 < pairs@[x].1 < n,
        decreases total - i,
    {
        proof {
            lemma_permute_in_range(i, total, round_keys@);
        }
        match feistel_permute(i, total, &round_keys) {
            Some(c) => {
                let p = pair_for_canonical(n, k, c, total, &offsets);
                pairs.push(p);
            },
            None => {},
        }
        i = i + 1;
    }
    pairs
}

/// Enumeration and lookup agree: when no cycle walk among the first `i`
/// match indices gives up, the first `i` enumerated pairings are exactly
/// the lookups of indices `0..i`, in order; past the last match, lookup
/// returns nothing.
pub proof fn lemma_enumeration_matches_lookup(n: u32, k: u16, seed: Seq<u8>, i: nat)
    requires
        i <= match_count_spec(n, k as u32),
        forall|x: u32| x < i ==> (#[trigger] pairing_at(n, k, seed, x)) is Some,
    ensures
        collected_pairs(n, k, seed, i).len() == i,
        forall|x: int| 0 <= x < i ==> Some(#[trigger] collected_pairs(n, k, seed, i)[x]) == pairing_at(n, k, seed, x as u32),
        forall|x: u32| x >= match_count_spec(n, k as u32) ==> (#[trigger] pairing_at(n, k, seed, x)) is None,
    decreases i,
{
    if i > 0 {
        let j = (i - 1) as nat;
        lemma_enumeration_matches_lookup(n, k, seed, j);
        assert(pairing_at(n, k, seed, j as u32) is Some);
        let prev = collected_pairs(n, k, seed, j);
        let cur = collected_pairs(n, k, seed, i);
        assert(cur == prev.push(pairing_at(n, k, seed, j as u32).unwrap()));
        assert forall|x: int| 0 <= x < i implies Some(#[trigger] cur[x]) == pairing_at(n, k, seed, x as u32) by {
            if x < j {
                assert(cur[x] == prev[x]);
            }
        }
    }
}

proof fn lemma_ceil_sqrt_from(n: nat, j: nat)
    requires
        j <= 65536,
        n <= u32::MAX,
    ensures
        ceil_sqrt_from(n, j) * ceil_sqrt_from(n, j) >= n,
        ceil_sqrt_from(n, j) <= 65536 || ceil_sqrt_from(n, j) == j,
        j >= 1 ==> ceil_sqrt_from(n, j) >= 1,
    decreases n - j,
{
    if j >= n || j * j >= n {
        if j >= n && j * j < n {
            assert(false) by (nonlinear_arith)
                requires
                    j >= n,
                    j * j < n,
            ;
        }
    } else {
        if j == 65536 {
            assert(j * j >= n);
        }
        lemma_ceil_sqrt_from(n, j + 1);
    }
}

proof fn lemma_ceil_sqrt_props(n: u32)
    requires
        n >= 2,
    ensures
        1 <= ceil_sqrt(n as nat) <= 65536,
        ceil_sqrt(n as nat) * ceil_sqrt(n as nat) >= n,
{
    lemma_ceil_sqrt_from(n as nat, 0);
    assert(ceil_sqrt_from(n as nat, 0) == ceil_sqrt_from(n as nat, 1));
    lemma_ceil_sqrt_from(n as nat, 1);
}

proof fn lemma_mod_add_cancel(x: int, y: int, f: int, h: int)
    requires
        0 <= x < h,
        0 <= y < h,
        0 <= f < h,
        (x + f) % h == (y + f) % h,
    ensures
        x == y,
{
    lemma_mod_once(x + f, h);
    lemma_mod_once(y + f, h);
}

proof fn lemma_rounds_bound(l: u32, r: u32, keys: Seq<u64>, h: u32, i: nat)
    requires
        h >= 1,
        r < h,
    ensures
        feistel_rounds(l, r, keys, h, i).1 < h,
        i >= 2 ==> feistel_rounds(l, r, keys, h, i).0 < h,
        i < 2 || l < h ==> feistel_rounds(l, r, keys, h, i).0 < h || i == 0 || (i == 1 && l >= h),
    decreases i,
{
    if i > 0 {
        lemma_rounds_bound(l, r, keys, h, (i - 1) as nat);
    }
}

proof fn lemma_rounds_small(l: u32, r: u32, keys: Seq<u64>, h: u32, i: nat)
    requires
        h >= 1,
        l < h,
        r < h,
    ensures
        feistel_rounds(l, r, keys, h, i).0 < h,
        feistel_rounds(l, r, keys, h, i).1 < h,
    decreases i,
{
    if i > 0 {
        lemma_rounds_small(l, r, keys, h, (i - 1) as nat);
    }
}

proof fn lemma_rounds_injective(l1: u32, r1: u32, l2: u32, r2: u32, keys: Seq<u64>, h: u32, i: nat)
    requires
        h >= 1,
        l1 < h,
        r1 < h,
        l2 < h,
        r2 < h,
        feistel_rounds(l1, r1, keys, h, i) == feistel_rounds(l2, r2, keys, h, i),
    ensures
        l1 == l2,
        r1 == r2,
    decreases i,
{
    if i > 0 {
        let j = (i - 1) as nat;
        lemma_rounds_small(l1, r1, keys, h, j);
        lemma_rounds_small(l2, r2, keys, h, j);
        let (a1, b1) = feistel_rounds(l1, r1, keys, h, j);
        let (a2, b2) = feistel_rounds(l2, r2, keys, h, j);
        if j % 2 == 0 {
            assert(a1 == a2);
            let f = round_fn_spec(a1, keys[j as int], h);
            lemma_mod_add_cancel(b1 as int, b2 as int, f as int, h as int);
        } else {
            assert(b1 == b2);
            let f = round_fn_spec(b1, keys[j as int], h);
            lemma_mod_add_cancel(a1 as int, a2 as int, f as int, h as int);
        }
        lemma_rounds_injective(l1, r1, l2, r2, keys, h, j);
    }
}

proof fn lemma_pass_bound(v: u32, keys: Seq<u64>, h: u32)
    requires
        1 <= h <= 65536,
    ensures
        feistel_pass(v, keys, h) < h * h,
        feistel_pass(v, keys, h) == feistel_rounds(v / h, v % h, keys, h, 6).0 * h
            + feistel_rounds(v / h, v % h, keys, h, 6).1,
{
    lemma_rounds_bound(v / h, v % h, keys, h, 6);
    let (l, r) = feistel_rounds(v / h, v % h, keys, h, 6);
    assert(l * h + r < h * h) by (nonlinear_arith)
        requires
            l < h,
            r < h,
    ;
    assert(h * h <= 65536 * 65536) by (nonlinear_arith)
        requires
            h <= 65536,
    ;
}

proof fn lemma_pass_injective(v1: u32, v2: u32, keys: Seq<u64>, h: u32)
    requires
        1 <= h <= 65536,
        v1 < h * h,
        v2 < h * h,
        feistel_pass(v1, keys, h) == feistel_pass(v2, keys, h),
    ensures
        v1 == v2,
{
    lemma_pass_bound(v1, keys, h);
    lemma_pass_bound(v2, keys, h);
    let (a1, b1) = feistel_rounds(v1 / h, v1 % h, keys, h, 6);
    let (a2, b2) = feistel_rounds(v2 / h, v2 % h, keys, h, 6);
    assert(v1 / h < h && v2 / h < h) by (nonlinear_arith)
        requires
            v1 < h * h,
            v2 < h * h,
            h >= 1,
    ;
    lemma_rounds_small(v1 / h, v1 % h, keys, h, 6);
    lemma_rounds_small(v2 / h, v2 % h, keys, h, 6);
    assert(a1 == a2 && b1 == b2) by (nonlinear_arith)
        requires
            a1 * h + b1 == a2 * h + b2,
            a1 < h,
            b1 < h,
            a2 < h,
            b2 < h,
            h >= 1,
    ;
    lemma_rounds_injective(v1 / h, v1 % h, v2 / h, v2 % h, keys, h, 6);
    assert(v1 == h * (v1 / h) + v1 % h) by (nonlinear_arith)
        requires
            h >= 1,
    ;
    assert(v2 == h * (v2 / h) + v2 % h) by (nonlinear_arith)
        requires
            h >= 1,
    ;
}

/// `n` passes of the network from `v`.
spec fn iter_pass(v: u32, keys: Seq<u64>, h: u32, n: nat) -> u32
    decreases n,
{
    if n == 0 {
        v
    } else {
        iter_pass(feistel_pass(v, keys, h), keys, h, (n - 1) as nat)
    }
}

proof fn lemma_iter_succ(v: u32, keys: Seq<u64>, h: u32, n: nat)
    ensures
        iter_pass(v, keys, h, n + 1) == feistel_pass(iter_pass(v, keys, h, n), keys, h),
    decreases n,
{
    assert(iter_pass(v, keys, h, n + 1) == iter_pass(feistel_pass(v, keys, h), keys, h, n));
    if n > 0 {
        lemma_iter_succ(feistel_pass(v, keys, h), keys, h, (n - 1) as nat);
        assert(iter_pass(v, keys, h, n) == iter_pass(feistel_pass(v, keys, h), keys, h, (n - 1) as nat));
    } else {
        assert(iter_pass(feistel_pass(v, keys, h), keys, h, 0) == feistel_pass(v, keys, h));
    }
}

proof fn lemma_iter_bound(v: u32, keys: Seq<u64>, h: u32, n: nat)
    requires
        1 <= h <= 65536,
        v < h * h,
    ensures
        iter_pass(v, keys, h, n) < h * h,
    decreases n,
{
    if n > 0 {
        lemma_pass_bound(v, keys, h);
        lemma_iter_bound(feistel_pass(v, keys, h), keys, h, (n - 1) as nat);
    }
}

proof fn lemma_walk_witness(v: u32, domain: u32, keys: Seq<u64>, h: u32, tries: nat) -> (i: nat)
    requires
        cycle_walk(v, domain, keys, h, tries) is Some,
    ensures
        1 <= i <= tries,
        Some(iter_pass(v, keys, h, i)) == cycle_walk(v, domain, keys, h, tries),
        iter_pass(v, keys, h, i) < domain,
        forall|j: nat| 1 <= j < i ==> #[trigger] iter_pass(v, keys, h, j) >= domain,
    decreases tries,
{
    let w = feistel_pass(v, keys, h);
    assert(iter_pass(w, keys, h, 0) == w);
    assert(iter_pass(v, keys, h, 1) == w);
    if w < domain {
        1
    } else {
        let i0 = lemma_walk_witness(w, domain, keys, h, (tries - 1) as nat);
        assert forall|j: nat| 1 <= j < i0 + 1 implies #[trigger] iter_pass(v, keys, h, j) >= domain by {
            assert(iter_pass(v, keys, h, j) == iter_pass(w, keys, h, (j - 1) as nat));
        }
        i0 + 1
    }
}

proof fn lemma_iter_peel(x: u32, y: u32, keys: Seq<u64>, h: u32, i: nat, j: nat)
    requires
        1 <= h <= 65536,
        x < h * h,
        y < h * h,
        i <= j,
        iter_pass(x, keys, h, i) == iter_pass(y, keys, h, j),
    ensures
        x == iter_pass(y, keys, h, (j - i) as nat),
    decreases i,
{
    if i > 0 {
        lemma_iter_succ(x, keys, h, (i - 1) as nat);
        lemma_iter_succ(y, keys, h, (j - 1) as nat);
        lemma_iter_bound(x, keys, h, (i - 1) as nat);
        lemma_iter_bound(y, keys, h, (j - 1) as nat);
        lemma_pass_injective(iter_pass(x, keys, h, (i - 1) as nat), iter_pass(y, keys, h, (j - 1) as nat), keys, h);
        lemma_iter_peel(x, y, keys, h, (i - 1) as nat, (j - 1) as nat);
    }
}

proof fn lemma_walk_injective_ordered(x: u32, y: u32, domain: u32, keys: Seq<u64>, h: u32, i: nat, j: nat)
    requires
        1 <= h <= 65536,
        domain <= h * h,
        x < domain,
        y < domain,
        1 <= i <= j,
        iter_pass(x, keys, h, i) == iter_pass(y, keys, h, j),
        forall|t: nat| 1 <= t < j ==> #[trigger] iter_pass(y, keys, h, t) >= domain,
    ensures
        x == y,
{
    lemma_iter_peel(x, y, keys, h, i, j);
    if j > i {
        assert(iter_pass(y, keys, h, (j - i) as nat) >= domain);
    }
}

/// The Feistel permutation is injective on `[0, domain)` and stays inside
/// it: two distinct indices never land on the same position.
pub proof fn lemma_feistel_injective(x: u32, y: u32, domain: u32, keys: Seq<u64>)
    requires
        x < domain,
        y < domain,
        x != y,
    ensures
        permute_spec(x, domain, keys) matches Some(a) ==> a < domain,
        permute_spec(x, domain, keys) is Some && permute_spec(y, domain, keys) is Some ==> permute_spec(
            x,
            domain,
            keys,
        ) != permute_spec(y, domain, keys),
{
    lemma_permute_in_range(x, domain, keys);
    if domain > 1 && permute_spec(x, domain, keys) is Some && permute_spec(y, domain, keys) is Some {
        lemma_ceil_sqrt_props(domain);
        let h = ceil_sqrt(domain as nat) as u32;
        let t = MAX_WALK as nat;
        let i = lemma_walk_witness(x, domain, keys, h, t);
        let j = lemma_walk_witness(y, domain, keys, h, t);
        if permute_spec(x, domain, keys) == permute_spec(y, domain, keys) {
            if i <= j {
                lemma_walk_injective_ordered(x, y, domain, keys, h, i, j);
            } else {
                lemma_walk_injective_ordered(y, x, domain, keys, h, j, i);
            }
        }
    }
}

} // verus!
