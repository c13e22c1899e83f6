use prime_sweep::primality::is_prime;
use prime_sweep::sweep::{candidates, primes_upto, sort_ascending};

#[test]
fn identifies_prime_number() {
    let test_n = 59;
    assert_eq!(is_prime(test_n), true);
}

#[test]
fn identifies_non_prime_number() {
    let test_n = 100;
    assert_eq!(is_prime(test_n), false);
}

#[test]
fn zero_and_one_are_not_prime() {
    assert_eq!(is_prime(0), false);
    assert_eq!(is_prime(1), false);
}

#[test]
fn two_and_three_are_prime() {
    assert_eq!(is_prime(2), true);
    assert_eq!(is_prime(3), true);
}

#[test]
fn even_numbers_above_two_are_not_prime() {
    assert_eq!(is_prime(4), false);
    assert_eq!(is_prime(6), false);
    assert_eq!(is_prime(1000), false);
    assert_eq!(is_prime(4294967294), false);
}

#[test]
fn squares_of_trial_divisors_are_not_prime() {
    assert_eq!(is_prime(25), false);
    assert_eq!(is_prime(49), false);
    assert_eq!(is_prime(121), false);
}

#[test]
fn larger_primes_are_recognised() {
    assert_eq!(is_prime(37), true);
    assert_eq!(is_prime(97), true);
    assert_eq!(is_prime(7919), true);
    assert_eq!(is_prime(4294967291), true);
}

#[test]
fn sweep_upto_ten() {
    assert_eq!(primes_upto(10), vec![2, 3, 5, 7]);
}

#[test]
fn sweep_upto_one_is_empty() {
    assert_eq!(primes_upto(1), Vec::<u32>::new());
    assert_eq!(primes_upto(0), Vec::<u32>::new());
}

#[test]
fn sweep_upto_twenty() {
    assert_eq!(primes_upto(20), vec![2, 3, 5, 7, 11, 13, 17, 19]);
}

#[test]
fn sweep_upto_two() {
    assert_eq!(primes_upto(2), vec![2]);
}

#[test]
fn candidates_cover_range_exactly_once() {
    let c = candidates(10);
    assert_eq!(c.len(), 9);
    assert_eq!(c, vec![2, 3, 4, 5, 6, 7, 8, 9, 10]);
    assert_eq!(candidates(2), vec![2]);
    assert_eq!(candidates(1), Vec::<u32>::new());
    assert_eq!(candidates(0), Vec::<u32>::new());
}

#[test]
fn sorting_orders_ascending_and_keeps_duplicates() {
    assert_eq!(sort_ascending(vec![3, 1, 3, 2]), vec![1, 2, 3, 3]);
    assert_eq!(sort_ascending(Vec::new()), Vec::<u32>::new());
    assert_eq!(sort_ascending(vec![5]), vec![5]);
}

#[test]
fn sweep_result_is_independent_of_arrival_order() {
    // Two simulated runs whose tasks report in different orders.
    let mut run_one = Vec::new();
    for c in candidates(20) {
        if is_prime(c) {
            run_one.push(c);
        }
    }
    let mut run_two = Vec::new();
    for c in candidates(20).into_iter().rev() {
        if is_prime(c) {
            run_two.push(c);
        }
    }
    let sorted_one = sort_ascending(run_one);
    let sorted_two = sort_ascending(run_two);
    assert_eq!(sorted_one, sorted_two);
    assert_eq!(sorted_one, primes_upto(20));
}
