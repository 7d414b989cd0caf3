use extrinsic_shuffler::rng::{rotl, Xoshiro256PlusPlus};

fn counting_seed() -> [u8; 32] {
    let mut seed = [0u8; 32];
    for i in 0..32 {
        seed[i] = i as u8;
    }
    seed
}

#[test]
fn rotl_matches_rotate_left() {
    let values = [0u64, 1, 0x0123_4567_89ab_cdef, 0x8000_0000_0000_0001, u64::MAX, 0xdead_beef];
    for &x in values.iter() {
        for k in 1..64u64 {
            assert_eq!(rotl(x, k), x.rotate_left(k as u32));
        }
    }
}

#[test]
fn rotl_exact_values() {
    assert_eq!(rotl(0x0123_4567_89ab_cdef, 45), 0x79bd_e024_68ac_f135);
    assert_eq!(rotl(0x8000_0000_0000_0001, 1), 3);
    assert_eq!(rotl(1, 45), 1u64 << 45);
    assert_eq!(rotl(1, 63), 1u64 << 63);
}

#[test]
fn from_seed_reads_words_little_endian() {
    let g = Xoshiro256PlusPlus::from_seed(counting_seed());
    assert_eq!(
        g.state(),
        [0x0706_0504_0302_0100, 0x0f0e_0d0c_0b0a_0908, 0x1716_1514_1312_1110, 0x1f1e_1d1c_1b1a_1918]
    );
}

#[test]
fn from_seed_zero_and_ones() {
    assert_eq!(Xoshiro256PlusPlus::from_seed([0u8; 32]).state(), [0, 0, 0, 0]);
    assert_eq!(Xoshiro256PlusPlus::from_seed([0xffu8; 32]).state(), [u64::MAX; 4]);
}

#[test]
fn next_u32_sequence() {
    let mut g = Xoshiro256PlusPlus::from_seed(counting_seed());
    let outs: Vec<u32> = (0..5).map(|_| g.next_u32()).collect();
    assert_eq!(outs, vec![1640707405, 3409223349, 3055426605, 1370298653, 2754485341]);
    assert_eq!(
        g.state(),
        [0xf616_b19b_188c_3365, 0x324a_61c9_cc70_200c, 0x9c48_4fc3_e7fb_e925, 0x000f_7526_96e6_1a3f]
    );
}

#[test]
fn next_u32_zero_state_stays_zero() {
    let mut g = Xoshiro256PlusPlus::from_seed([0u8; 32]);
    for _ in 0..10 {
        assert_eq!(g.next_u32(), 0);
    }
    assert_eq!(g.state(), [0, 0, 0, 0]);
}

#[test]
fn next_u32_reads_state_before_step() {
    // State [1, 0, 0, 0]: the output comes from the second word (0) before
    // the step.
    let mut seed = [0u8; 32];
    seed[0] = 1;
    let mut g = Xoshiro256PlusPlus::from_seed(seed);
    assert_eq!(g.next_u32(), 0);

    // Second word 2^57: rotl(5 * 2^57 mod 2^64, 7) = 2, times 9.
    let mut seed = [0u8; 32];
    seed[15] = 2;
    let mut g = Xoshiro256PlusPlus::from_seed(seed);
    assert_eq!(g.next_u32(), 45);
}

#[test]
fn next_u32_matches_scrambler_formula() {
    let mut g = Xoshiro256PlusPlus::from_seed(counting_seed());
    for _ in 0..20 {
        let s = g.state();
        let expected = (s[1].wrapping_mul(5).rotate_left(7).wrapping_mul(9)) as u32;
        assert_eq!(g.next_u32(), expected);
    }
}

#[test]
fn same_seed_same_stream() {
    let mut a = Xoshiro256PlusPlus::from_seed([42u8; 32]);
    let mut b = Xoshiro256PlusPlus::from_seed([42u8; 32]);
    for _ in 0..100 {
        assert_eq!(a.next_u32(), b.next_u32());
    }
}

#[test]
fn step_is_one_to_one_on_examples() {
    let seeds: Vec<[u8; 32]> = (0..16u8).map(|b| [b; 32]).collect();
    let mut after: Vec<[u64; 4]> = Vec::new();
    for seed in seeds.iter() {
        let mut g = Xoshiro256PlusPlus::from_seed(*seed);
        g.next_u32();
        after.push(g.state());
    }
    for i in 0..after.len() {
        for j in 0..after.len() {
            if i != j {
                assert_ne!(after[i], after[j]);
            }
        }
        if i != 0 {
            assert_ne!(after[i], [0u64; 4]);
        }
    }
    assert_eq!(after[0], [0u64; 4]);
}
