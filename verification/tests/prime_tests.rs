use flat_hashmap::prime::make_prime;
use flat_hashmap::prime::PRIME_BOUND;

#[test]
fn small_inputs_round_up_to_two() {
    assert_eq!(make_prime(0), 2);
    assert_eq!(make_prime(1), 2);
    assert_eq!(make_prime(2), 2);
}

#[test]
fn four_rounds_up_to_five() {
    assert_eq!(make_prime(4), 5);
}

#[test]
fn eight_rounds_up_to_eleven() {
    // trial division finds 9 divisible by 3, 10 by 2, and 11 prime
    assert_eq!(make_prime(8), 11);
}

#[test]
fn a_prime_input_is_returned_unchanged() {
    assert_eq!(make_prime(3), 3);
    assert_eq!(make_prime(7), 7);
    assert_eq!(make_prime(17), 17);
}

#[test]
fn doubled_capacities_reach_the_next_primes() {
    // the capacity ladder a growing bucket climbs
    assert_eq!(make_prime(6), 7);
    assert_eq!(make_prime(14), 17);
    assert_eq!(make_prime(34), 37);
    assert_eq!(make_prime(74), 79);
}

#[test]
fn the_search_bound_is_a_fixed_point() {
    assert_eq!(make_prime(PRIME_BOUND), PRIME_BOUND);
    assert_eq!(make_prime(PRIME_BOUND - 1), PRIME_BOUND);
}
