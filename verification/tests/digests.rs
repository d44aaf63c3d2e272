//! Digests, keys and generator seeds.

use rand::{RngCore, SeedableRng};
use tailbench::digest::{fold_digest, splitmix64};
use tailbench::rng::{
    arrival_rng, call_digest, call_key, call_rng, class_rng, payload_nonce, unit_draw,
};

#[test]
fn splitmix64_has_known_values() {
    // The first outputs of the splitmix64 generator seeded with 0, whose state
    // after each step is a multiple of the increment.
    assert_eq!(splitmix64(0), 0xE220_A839_7B1D_CDAF);
    assert_eq!(splitmix64(0x9E37_79B9_7F4A_7C15), 0x6E78_9E6A_A1B9_65F4);
    assert_eq!(splitmix64(0x3C6E_F372_FE94_F82A), 0x06C4_5D18_8009_454F);
}

#[test]
fn fold_ignores_call_order() {
    let mut a = vec![5, 1, 9, 1];
    let mut b = vec![1, 9, 1, 5];
    assert_eq!(fold_digest(7, &mut a), fold_digest(7, &mut b));
    assert_eq!(a, vec![1, 1, 5, 9]);
    let mut c = vec![1, 9, 5];
    assert_ne!(fold_digest(7, &mut c), fold_digest(7, &mut a));
}

#[test]
fn fold_has_a_known_value() {
    let mut none: Vec<u64> = Vec::new();
    assert_eq!(fold_digest(3, &mut none), splitmix64(3));
    let mut two = vec![20, 10];
    assert_eq!(
        fold_digest(3, &mut two),
        splitmix64(splitmix64(splitmix64(3) ^ 10) ^ 20)
    );
}

#[test]
fn fold_separates_nonces() {
    let digests: Vec<u64> = vec![11, 22, 33];
    assert_ne!(
        fold_digest(1, &mut digests.clone()),
        fold_digest(2, &mut digests.clone())
    );
}

#[test]
fn mixing_does_not_collide() {
    let mut seen = std::collections::HashSet::new();
    for z in 0..20_000u64 {
        assert!(seen.insert(splitmix64(z)));
    }
}

#[test]
fn keys_pack_their_fields() {
    assert_eq!(call_key(0, 0, 0), 0);
    assert_eq!(call_key(1, 2, 3), (1 << 24) | (2 << 8) | 3);
    assert_eq!(call_key((1 << 40) - 1, u16::MAX, 255), u64::MAX);
    // Beyond its width a field is cut off.
    assert_eq!(call_key(1 << 40, 0, 256), 0);
}

#[test]
fn call_digests_follow_the_formula() {
    let (seed, id, ds) = (42, 17, 3);
    assert_eq!(
        call_digest(seed, id, ds),
        splitmix64(seed ^ 0xD16E_5700_D16E_5700 ^ splitmix64((17 << 24) | (3 << 8)))
    );
    assert_eq!(
        payload_nonce(seed, id),
        splitmix64(seed ^ splitmix64(id ^ 0x9051_0AD9_0510_AD90))
    );
}

#[test]
fn call_digests_and_nonces_are_distinct() {
    let mut digests = std::collections::HashSet::new();
    let mut nonces = std::collections::HashSet::new();
    for id in 0..200 {
        assert!(nonces.insert(payload_nonce(9, id)));
        for ds in 0..8 {
            assert!(digests.insert(call_digest(9, id, ds)));
        }
    }
}

#[test]
fn streams_are_separate_and_repeatable() {
    let first = |mut rng: rand_chacha::ChaCha8Rng| rng.next_u64();
    let a = first(arrival_rng(5));
    let c = first(class_rng(5));
    let k = first(call_rng(5, 0, 0, 0));
    assert_ne!(a, c);
    assert_ne!(a, k);
    assert_ne!(c, k);
    assert_eq!(a, first(arrival_rng(5)));
    assert_ne!(a, first(arrival_rng(6)));
}

#[test]
fn generators_start_from_the_mixed_seed() {
    let mut ours = call_rng(42, 7, 1, 2);
    let key = (7 << 24) | (1 << 8) | 2;
    let mut theirs =
        rand_chacha::ChaCha8Rng::seed_from_u64(splitmix64(42 ^ splitmix64(key)));
    for _ in 0..10 {
        assert_eq!(ours.next_u64(), theirs.next_u64());
    }
}

#[test]
fn unit_draws_lie_below_one() {
    let mut rng = call_rng(1, 2, 3, 4);
    for _ in 0..1000 {
        let x = f64::from_bits(unit_draw(&mut rng).to_bits());
        assert!((0.0..1.0).contains(&x));
    }
}
