use katas::bit_counter::{count_bits, test_shift};
use katas::count_digits::nb_dig;
use katas::dig_pow::dig_pow;
use katas::dont_give_me_five::dont_give_me_five;
use katas::factorial_decomp::{decomp, factorize, wrapped_factorial};
use katas::k_primes::kprimes_step;
use katas::prime_gap::gap;
use katas::primes::{factor, is_prime};
use katas::proper::{buddy, sum_propers};
use katas::sum_probability::rolldice_sum_count;

#[test]
fn count_bits_returns_expected() {
    assert_eq!(count_bits(0), 0);
    assert_eq!(count_bits(4), 1);
    assert_eq!(count_bits(7), 3);
    assert_eq!(count_bits(9), 2);
    assert_eq!(count_bits(10), 2);
    assert_eq!(count_bits(1234), 5);
}

#[test]
fn gradually_adding_examples() {
    assert_eq!(katas::gradually_adding::add(&[]), 0);
    assert_eq!(katas::gradually_adding::add(&[4, -3, -2]), -8);
}

#[test]
fn shift_halves() {
    assert_eq!(test_shift(), 3);
}

#[test]
fn nb_dig_basic_tests() {
    assert_eq!(nb_dig(550, 5), 213);
    assert_eq!(nb_dig(5750, 0), 4700);
}

#[test]
fn dig_pow_examples() {
    assert_eq!(dig_pow(89, 1), 1);
    assert_eq!(dig_pow(92, 1), -1);
    assert_eq!(dig_pow(695, 2), 2);
    assert_eq!(dig_pow(46288, 3), 51);
}

#[test]
fn dont_give_me_five_returns_expected() {
    assert_eq!(dont_give_me_five(1, 9), 8);
    assert_eq!(dont_give_me_five(4, 17), 12);
}

#[test]
fn prime_gap_examples() {
    assert_eq!(gap(2, 100, 110), Some((101, 103)));
    assert_eq!(gap(4, 100, 110), Some((103, 107)));
    assert_eq!(gap(6, 100, 110), None);
    assert_eq!(gap(8, 300, 400), Some((359, 367)));
}

#[test]
fn primality_small() {
    assert!(!is_prime(0));
    assert!(!is_prime(1));
    assert!(is_prime(2));
    assert!(is_prime(3));
    assert!(!is_prime(4));
    assert!(is_prime(101));
    assert!(!is_prime(1001));
}

#[test]
fn factor_counts_prime_factors() {
    assert_eq!(factor(10), 2);
    assert_eq!(factor(2), 1);
    assert_eq!(factor(8), 3);
    assert_eq!(factor(97), 1);
    assert_eq!(factor(1), 0);
}

#[test]
fn kprimes_step_finds_pairs() {
    assert_eq!(kprimes_step(2, 2, 0, 50), Some(vec![(4, 6), (33, 35)]));
}

#[test]
fn sum_propers_examples() {
    assert_eq!(sum_propers(2), 1);
    assert_eq!(sum_propers(4), 3);
    assert_eq!(sum_propers(48), 76);
    assert_eq!(sum_propers(1), 1);
}

#[test]
fn buddy_finds_pair() {
    assert_eq!(buddy(10, 50), Some((48, 75)));
}

#[test]
fn decomp_examples() {
    assert_eq!(decomp(5), "2^3 * 3 * 5");
    assert_eq!(decomp(12), "2^10 * 3^5 * 5^2 * 7 * 11");
    assert_eq!(decomp(20), "2^18 * 3^8 * 5^4 * 7^2 * 11 * 13 * 17 * 19");
    assert_eq!(decomp(1), "");
}

#[test]
fn wrapped_factorial_and_factorize() {
    assert_eq!(wrapped_factorial(5), 120);
    assert_eq!(factorize(120), vec![(2, 3), (3, 1), (5, 1)]);
    assert_eq!(factorize(1), vec![]);
    assert_eq!(factorize(97), vec![(97, 1)]);
}

#[test]
fn rolldice_counts() {
    assert_eq!(rolldice_sum_count(11, 2), (2, 36));
    assert_eq!(rolldice_sum_count(8, 2), (5, 36));
    assert_eq!(rolldice_sum_count(8, 3), (21, 216));
    assert_eq!(rolldice_sum_count(13, 7), (917, 279936));
    assert_eq!(rolldice_sum_count(3, 1), (1, 6));
    assert_eq!(rolldice_sum_count(-1, 2), (0, 36));
}

fn rolldice_sum_prob(sum: i32, dice_amount: i32) -> f64 {
    let (times, all_comb) = rolldice_sum_count(sum, dice_amount);
    times as f64 / all_comb as f64
}

fn assert_fuzzy_eq(actual: f64, expected: f64, eps: f64) {
    assert!((actual - expected).abs() < eps, "Expected {}, but got {}", expected, actual);
}

#[test]
fn returns_expected() {
    assert_fuzzy_eq(rolldice_sum_prob(11, 2), 0.055555555555, 1e-10);
    assert_fuzzy_eq(rolldice_sum_prob(8, 2), 0.13888888889, 1e-10);
    assert_fuzzy_eq(rolldice_sum_prob(8, 3), 0.0972222222222, 1e-10);
    assert_fuzzy_eq(rolldice_sum_prob(13, 7), 0.0032757487425697303, 1e-10);
}
