use extrinsic_shuffler::shuffle::{shuffle, Signer};

fn counting_seed() -> [u8; 32] {
    let mut seed = [0u8; 32];
    for i in 0..32 {
        seed[i] = i as u8;
    }
    seed
}

fn account(b: u8) -> Signer {
    Some([b; 32])
}

fn sample() -> Vec<(Signer, u32)> {
    let a = account(0xaa);
    let b = account(0xbb);
    let c = account(0xcc);
    vec![(a, 1), (b, 2), (a, 3), (None, 4), (b, 5), (a, 6), (None, 7), (c, 8)]
}

fn signer_of_tx(xs: &[(Signer, u32)], tx: u32) -> Signer {
    xs.iter().find(|p| p.1 == tx).unwrap().0
}

#[test]
fn shuffle_exact_order() {
    assert_eq!(shuffle(sample(), counting_seed()), vec![2, 1, 4, 5, 8, 7, 3, 6]);
    assert_eq!(shuffle(sample(), [7u8; 32]), vec![1, 8, 4, 7, 3, 6, 2, 5]);
}

#[test]
fn shuffle_keeps_order_within_each_signer() {
    let xs = sample();
    for s in 0..30u8 {
        let out = shuffle(sample(), [s; 32]);
        for who in [account(0xaa), account(0xbb), account(0xcc), None].iter() {
            let before: Vec<u32> = xs.iter().filter(|p| p.0 == *who).map(|p| p.1).collect();
            let after: Vec<u32> =
                out.iter().cloned().filter(|tx| signer_of_tx(&xs, *tx) == *who).collect();
            assert_eq!(before, after);
        }
    }
}

#[test]
fn shuffle_is_permutation() {
    for s in 0..30u8 {
        let mut out = shuffle(sample(), [s; 32]);
        out.sort();
        assert_eq!(out, vec![1, 2, 3, 4, 5, 6, 7, 8]);
    }
}

#[test]
fn shuffle_single_signer_unchanged() {
    let a = account(1);
    let xs: Vec<(Signer, u32)> = (0..12).map(|i| (a, i)).collect();
    assert_eq!(shuffle(xs, counting_seed()), (0..12).collect::<Vec<u32>>());
}

#[test]
fn shuffle_empty_and_one() {
    let empty: Vec<(Signer, u32)> = Vec::new();
    assert!(shuffle(empty, counting_seed()).is_empty());
    assert_eq!(shuffle(vec![(None, 5u32)], counting_seed()), vec![5]);
}

#[test]
fn shuffle_accounts_differing_in_one_byte_are_distinct() {
    let mut k1 = [3u8; 32];
    let k2 = [3u8; 32];
    k1[31] = 4;
    let xs = vec![(Some(k1), 10u32), (Some(k2), 20), (Some(k1), 11), (Some(k2), 21)];
    for s in 0..20u8 {
        let out = shuffle(xs.clone(), [s; 32]);
        let p10 = out.iter().position(|&t| t == 10).unwrap();
        let p11 = out.iter().position(|&t| t == 11).unwrap();
        let p20 = out.iter().position(|&t| t == 20).unwrap();
        let p21 = out.iter().position(|&t| t == 21).unwrap();
        assert!(p10 < p11);
        assert!(p20 < p21);
    }
}

#[test]
fn shuffle_non_copy_payload() {
    let a = account(9);
    let xs = vec![(a, String::from("x")), (None, String::from("y")), (a, String::from("z"))];
    let out = shuffle(xs, counting_seed());
    assert_eq!(out.len(), 3);
    let px = out.iter().position(|t| t == "x").unwrap();
    let pz = out.iter().position(|t| t == "z").unwrap();
    assert!(px < pz);
}
