use microgpt::rng::Rng;
use microgpt::rounding::{round_to_double, scaled_index};

#[test]
fn next_u64_follows_the_recurrence() {
    let mut rng = Rng::new(42);
    assert_eq!(rng.next_u64(), 9039304369631583587);
    assert_eq!(rng.next_u64(), 8647191391818483560);
    assert_eq!(rng.next_u64(), 10334312345110439241);
}

#[test]
fn next_u64_wraps_modulo_two_to_the_64() {
    let mut rng = Rng::new(u64::MAX);
    let expected = u64::MAX.wrapping_mul(6364136223846793005).wrapping_add(1);
    assert_eq!(rng.next_u64(), expected);
    let mut zero = Rng::new(0);
    assert_eq!(zero.next_u64(), 1);
}

#[test]
fn same_seed_same_stream() {
    let mut a = Rng::new(1234);
    let mut b = Rng::new(1234);
    for _ in 0..100 {
        assert_eq!(a.next_u64(), b.next_u64());
    }
}

#[test]
fn shuffle_matches_double_precision_reference() {
    let mut rng = Rng::new(42);
    let mut xs: Vec<u32> = (0..10).collect();
    rng.shuffle(&mut xs);
    assert_eq!(xs, vec![2, 7, 1, 5, 3, 6, 0, 8, 9, 4]);
    // nine draws were made
    let mut check = Rng::new(42);
    for _ in 0..9 {
        check.next_u64();
    }
    assert_eq!(rng.next_u64(), check.next_u64());
}

#[test]
fn shuffle_small_and_empty() {
    let mut rng = Rng::new(7);
    let mut xs = vec!["a", "b", "c", "d", "e"];
    rng.shuffle(&mut xs);
    assert_eq!(xs, vec!["e", "b", "d", "a", "c"]);

    let mut rng = Rng::new(42);
    let mut one = vec![5u8];
    rng.shuffle(&mut one);
    assert_eq!(one, vec![5u8]);
    assert_eq!(rng.next_u64(), 9039304369631583587);

    let mut empty: Vec<u8> = Vec::new();
    let mut rng = Rng::new(42);
    rng.shuffle(&mut empty);
    assert!(empty.is_empty());
    assert_eq!(rng.next_u64(), 9039304369631583587);
}

#[test]
fn shuffle_is_a_permutation() {
    let mut rng = Rng::new(99);
    let mut xs: Vec<u32> = (0..200).map(|i| i % 17).collect();
    let mut before = xs.clone();
    rng.shuffle(&mut xs);
    let mut after = xs.clone();
    before.sort();
    after.sort();
    assert_eq!(before, after);
}

#[test]
fn scaled_index_agrees_with_double_arithmetic() {
    let cases: [(u64, usize); 8] = [
        (6004799503160661, 3),
        (6573756178236063, 781),
        (732211075274045, 898),
        (4278419646001971, 80),
        (12345, 10),
        ((1u64 << 53) - 1, 2),
        ((1u64 << 53) - 1, usize::MAX),
        (0, 1),
    ];
    for &(bits, n) in cases.iter() {
        let expected = ((bits as f64 / (1u64 << 53) as f64) * (n as f64)) as usize;
        assert_eq!(scaled_index(bits, n), expected);
        assert!(scaled_index(bits, n) < n);
    }
}

#[test]
fn scaled_index_rounds_like_a_double_not_like_exact_division() {
    // exact arithmetic gives floor(6004799503160661 * 3 / 2^53) = 1
    assert_eq!(scaled_index(6004799503160661, 3), 2);
    assert_eq!(scaled_index(6573756178236063, 781), 570);
}

#[test]
fn round_to_double_ties_to_even() {
    let two53: u128 = 1 << 53;
    assert_eq!(round_to_double(two53 - 1), two53 - 1);
    assert_eq!(round_to_double(two53 + 1), two53);
    assert_eq!(round_to_double(two53 + 3), two53 + 4);
    assert_eq!(round_to_double(two53 + 2), two53 + 2);
    assert_eq!(round_to_double(u64::MAX as u128), 1u128 << 64);
    assert_eq!(round_to_double(u64::MAX as u128), (u64::MAX as f64) as u128);
}
