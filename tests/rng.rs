use match_logic::SeededRng;

#[test]
fn test_determinism() {
    let seed = [42u8; 32];
    let rng1 = SeededRng::new(&seed, 0);
    let rng2 = SeededRng::new(&seed, 0);

    let mut r1 = rng1.clone();
    let mut r2 = rng2.clone();

    for _ in 0..100 {
        assert_eq!(r1.next_u64(), r2.next_u64());
    }
}

#[test]
fn test_different_seeds() {
    let seed1 = [1u8; 32];
    let seed2 = [2u8; 32];

    let mut rng1 = SeededRng::new(&seed1, 0);
    let mut rng2 = SeededRng::new(&seed2, 0);

    let vals1: Vec<u64> = (0..10).map(|_| rng1.next_u64()).collect();
    let vals2: Vec<u64> = (0..10).map(|_| rng2.next_u64()).collect();

    assert_ne!(vals1, vals2);
}

#[test]
fn test_different_match_index() {
    let seed = [42u8; 32];

    let mut rng1 = SeededRng::new(&seed, 0);
    let mut rng2 = SeededRng::new(&seed, 1);

    assert_ne!(rng1.next_u64(), rng2.next_u64());
}

#[test]
fn test_percent_range() {
    let seed = [42u8; 32];
    let mut rng = SeededRng::new(&seed, 0);

    for _ in 0..1000 {
        let p = rng.next_percent();
        assert!(p < 100);
    }
}

#[test]
fn test_next_range() {
    let seed = [42u8; 32];
    let mut rng = SeededRng::new(&seed, 0);

    for max in [1, 10, 100, 1000].iter() {
        for _ in 0..100 {
            let val = rng.next_range(*max);
            assert!(val < *max, "next_range({}) returned {}", max, val);
        }
    }

    assert_eq!(rng.next_range(0), 0);
}

/// Reference xorshift64* written out independently of the library.
fn reference_step(state: &mut u64) -> u64 {
    *state ^= *state >> 12;
    *state ^= *state << 25;
    *state ^= *state >> 27;
    state.wrapping_mul(0x2545f4914f6cdd1d)
}

fn reference_seeded(seed: &[u8; 32], index: u32) -> u64 {
    let mut state = 0u64;
    for (i, chunk) in seed.chunks(8).enumerate() {
        let mut bytes = [0u8; 8];
        bytes.copy_from_slice(chunk);
        state ^= u64::from_le_bytes(bytes).wrapping_add(i as u64);
    }
    state ^= (index as u64).wrapping_mul(0x517cc1b727220a95);
    for _ in 0..8 {
        reference_step(&mut state);
    }
    state
}

#[test]
fn seeding_reads_little_endian_chunks() {
    let mut seed = [0u8; 32];
    for (i, b) in seed.iter_mut().enumerate() {
        *b = (i as u8).wrapping_mul(37).wrapping_add(11);
    }
    for index in [0u32, 1, 7, u32::MAX] {
        let mut state = reference_seeded(&seed, index);
        let mut rng = SeededRng::new(&seed, index);
        for _ in 0..20 {
            assert_eq!(rng.next_u64(), reference_step(&mut state));
        }
    }
}

#[test]
fn next_u32_is_high_half_and_percent_is_mod_100() {
    let seed = [9u8; 32];
    let mut a = SeededRng::new(&seed, 3);
    let mut b = a.clone();
    let mut c = a.clone();
    let full = a.next_u64();
    assert_eq!(b.next_u32(), (full >> 32) as u32);
    assert_eq!(c.next_percent() as u32, ((full >> 32) as u32) % 100);
}

#[test]
fn next_range_zero_draws_nothing() {
    let seed = [5u8; 32];
    let mut a = SeededRng::new(&seed, 0);
    let mut b = a.clone();
    assert_eq!(a.next_range(0), 0);
    assert_eq!(a.next_u64(), b.next_u64());
}

#[test]
fn for_round_mixes_round_index() {
    let seed = [42u8; 32];
    let base = SeededRng::new(&seed, 0);
    let mut state = reference_seeded(&seed, 0) ^ 5u64.wrapping_mul(0x9e3779b97f4a7c15);
    reference_step(&mut state);
    let mut sub = base.for_round(5);
    assert_eq!(sub.next_u64(), reference_step(&mut state));
    let mut other = base.for_round(6);
    let mut again = base.for_round(5);
    assert_ne!(other.next_u64(), again.next_u64());
}
