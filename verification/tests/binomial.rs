use num_bigint::BigUint;
use wordsets::binomial::big_bionmial;

#[test]
fn binomial_of_small_numbers() {
    assert_eq!(big_bionmial(5, 2), BigUint::from(10u32));
    assert_eq!(big_bionmial(52, 5), BigUint::from(2598960u32));
    assert_eq!(big_bionmial(6, 3), BigUint::from(20u32));
    assert_eq!(big_bionmial(7, 7), BigUint::from(1u32));
    assert_eq!(big_bionmial(7, 1), BigUint::from(7u32));
}

#[test]
fn binomial_of_nothing_chosen_is_one() {
    assert_eq!(big_bionmial(0, 0), BigUint::from(1u32));
    assert_eq!(big_bionmial(9, 0), BigUint::from(1u32));
    assert_eq!(big_bionmial(u32::MAX, 0), BigUint::from(1u32));
}

#[test]
fn binomial_beyond_the_number_of_things_is_zero() {
    assert_eq!(big_bionmial(4, 5), BigUint::from(0u32));
    assert_eq!(big_bionmial(0, 1), BigUint::from(0u32));
    assert_eq!(big_bionmial(3, u32::MAX), BigUint::from(0u32));
}

#[test]
fn binomial_outgrows_the_machine_integers() {
    // 12972 five-letter words, five of them
    let expected: BigUint = "3058571387612503224".parse().unwrap();
    assert_eq!(big_bionmial(12972, 5), expected);
    let huge = big_bionmial(u32::MAX, 5);
    let expected: BigUint = "12179180268555561842700014086063459901856808959".parse().unwrap();
    assert_eq!(huge, expected);
}

#[test]
fn binomial_follows_pascal() {
    for n in 1..30u32 {
        for k in 1..=n {
            assert_eq!(big_bionmial(n, k), big_bionmial(n - 1, k - 1) + big_bionmial(n - 1, k));
        }
    }
}
