use primes::{is_prime, Prime};

const PRIMES: [u64; 100] = [
    2, 3, 5, 7, 11, 13, 17, 19, 23, 29, 31, 37, 41, 43, 47, 53, 59, 61, 67, 71, 73, 79, 83, 89,
    97, 101, 103, 107, 109, 113, 127, 131, 137, 139, 149, 151, 157, 163, 167, 173, 179, 181, 191,
    193, 197, 199, 211, 223, 227, 229, 233, 239, 241, 251, 257, 263, 269, 271, 277, 281, 283, 293,
    307, 311, 313, 317, 331, 337, 347, 349, 353, 359, 367, 373, 379, 383, 389, 397, 401, 409, 419,
    421, 431, 433, 439, 443, 449, 457, 461, 463, 467, 479, 487, 491, 499, 503, 509, 521, 523, 541,
];

#[test]
fn check_prime_iterator() {
    let mut prime_it = Prime::new();
    for idx in 0..PRIMES.len() {
        assert_eq!(prime_it.next().unwrap(), PRIMES[idx]);
    }
}

#[test]
fn the_first_value_is_two() {
    let mut g = Prime::new();
    assert_eq!(g.next(), Some(2));
    assert_eq!(g.next(), Some(3));
    assert_eq!(g.next(), Some(5));
    assert_eq!(g.next(), Some(7));
    assert_eq!(g.next(), Some(11));
}

#[test]
fn the_values_after_the_table() {
    let mut g = Prime::new();
    for _ in 0..100 {
        g.next();
    }
    assert_eq!(g.next(), Some(547));
    assert_eq!(g.next(), Some(557));
}

#[test]
fn two_generators_hand_out_the_same_values() {
    let mut a = Prime::new();
    let mut b = Prime::new();
    for _ in 0..2000 {
        assert_eq!(a.next(), b.next());
    }
}

#[test]
fn a_generator_driven_ahead_does_not_disturb_another() {
    let mut a = Prime::new();
    for _ in 0..50 {
        a.next();
    }
    let mut b = Prime::new();
    for idx in 0..50 {
        assert_eq!(b.next(), Some(PRIMES[idx]));
    }
    for idx in 50..100 {
        assert_eq!(a.next(), Some(PRIMES[idx]));
    }
}

#[test]
fn the_values_ascend_strictly() {
    let mut g = Prime::new();
    let mut last = g.next().unwrap();
    for _ in 0..5000 {
        let v = g.next().unwrap();
        assert!(v > last);
        last = v;
    }
}

#[test]
fn every_value_is_prime() {
    let mut g = Prime::new();
    for _ in 0..5000 {
        assert!(is_prime(g.next().unwrap()));
    }
}

#[test]
fn no_prime_is_passed_over() {
    let mut g = Prime::new();
    let mut v = g.next().unwrap();
    for n in 0..20000u64 {
        if n == v {
            assert!(is_prime(n));
            v = g.next().unwrap();
        } else {
            assert!(!is_prime(n));
        }
    }
}

#[test]
fn the_thousandth_and_the_ten_thousandth_prime() {
    let mut g = Prime::new();
    let mut v = 0;
    for _ in 0..1000 {
        v = g.next().unwrap();
    }
    assert_eq!(v, 7919);
    for _ in 1000..10000 {
        v = g.next().unwrap();
    }
    assert_eq!(v, 104729);
}
