use extrinsic_shuffler::fisher_yates::fisher_yates;

fn counting_seed() -> [u8; 32] {
    let mut seed = [0u8; 32];
    for i in 0..32 {
        seed[i] = i as u8;
    }
    seed
}

#[test]
fn fisher_yates_exact_order() {
    let mut v: Vec<u32> = (0..10).collect();
    fisher_yates(&mut v, counting_seed());
    assert_eq!(v, vec![4, 6, 2, 0, 7, 1, 8, 9, 3, 5]);

    let mut w: Vec<u32> = (0..10).collect();
    fisher_yates(&mut w, [7u8; 32]);
    assert_eq!(w, vec![9, 4, 0, 6, 1, 2, 8, 3, 7, 5]);
}

#[test]
fn fisher_yates_zero_seed_rotates() {
    // The all-zero seed makes every draw zero, so each step exchanges
    // position i with position 0.
    let mut v: Vec<u32> = (0..10).collect();
    fisher_yates(&mut v, [0u8; 32]);
    assert_eq!(v, vec![1, 2, 3, 4, 5, 6, 7, 8, 9, 0]);
}

#[test]
fn fisher_yates_two_elements_may_stay() {
    // The first draw is 45, odd: j = 45 % 2 = 1 = i, so nothing moves.
    let mut seed = [0u8; 32];
    seed[15] = 2;
    let mut v = vec!['a', 'b'];
    fisher_yates(&mut v, seed);
    assert_eq!(v, vec!['a', 'b']);

    // The first draw is 0, even: the two elements change places.
    let mut seed = [0u8; 32];
    seed[0] = 1;
    let mut w = vec!['a', 'b'];
    fisher_yates(&mut w, seed);
    assert_eq!(w, vec!['b', 'a']);
}

#[test]
fn fisher_yates_order_ignores_values() {
    for s in 0..10u8 {
        let mut idx: Vec<usize> = (0..20).collect();
        fisher_yates(&mut idx, [s; 32]);
        let words: Vec<String> = (0..20).map(|k| format!("w{}", k * 7)).collect();
        let mut shuffled = words.clone();
        fisher_yates(&mut shuffled, [s; 32]);
        let expected: Vec<String> = idx.iter().map(|&k| words[k].clone()).collect();
        assert_eq!(shuffled, expected);
    }
}

#[test]
fn fisher_yates_short_inputs_unchanged() {
    let mut empty: Vec<u8> = Vec::new();
    fisher_yates(&mut empty, counting_seed());
    assert!(empty.is_empty());

    let mut one = vec![String::from("only")];
    fisher_yates(&mut one, counting_seed());
    assert_eq!(one, vec![String::from("only")]);
}

#[test]
fn fisher_yates_is_permutation() {
    for s in 0..20u8 {
        let mut v: Vec<u32> = (0..37).map(|x| x % 5).collect();
        fisher_yates(&mut v, [s; 32]);
        let mut sorted = v.clone();
        sorted.sort();
        let mut expected: Vec<u32> = (0..37).map(|x| x % 5).collect();
        expected.sort();
        assert_eq!(sorted, expected);
    }
}

#[test]
fn fisher_yates_reproducible() {
    let mut a: Vec<u32> = (0..50).collect();
    let mut b: Vec<u32> = (0..50).collect();
    fisher_yates(&mut a, [9u8; 32]);
    fisher_yates(&mut b, [9u8; 32]);
    assert_eq!(a, b);
}
