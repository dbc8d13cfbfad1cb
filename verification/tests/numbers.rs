use decision_tree::bignat::BigNat;
use decision_tree::information::Information;

#[test]
fn bignat_orders_small_numbers() {
    assert!(BigNat::from_u64(3).le(&BigNat::from_u64(4)));
    assert!(BigNat::from_u64(4).le(&BigNat::from_u64(4)));
    assert!(!BigNat::from_u64(5).le(&BigNat::from_u64(4)));
    assert!(BigNat::one().le(&BigNat::from_u64(1)));
    assert!(BigNat::from_u64(1).le(&BigNat::one()));
    assert!(BigNat::from_u64(0).le(&BigNat::one()));
}

#[test]
fn bignat_multiplies_past_one_limb() {
    // (2^64 - 1) * 2 = 2^65 - 2 and 2^32 * 2^32 * 2 = 2^65.
    let mut a = BigNat::from_u64(u64::MAX);
    a.mul_small(2);
    let mut b = BigNat::from_u64(1 << 32);
    b.mul_small(1 << 32);
    b.mul_small(2);
    assert!(a.le(&b));
    assert!(!b.le(&a));
    // 2^65 - 2 + ... : 3 * (2^64 - 1) > 2^65.
    let mut c = BigNat::from_u64(u64::MAX);
    c.mul_small(3);
    assert!(b.le(&c));
    assert!(!c.le(&b));
    assert!(!c.le(&BigNat::from_u64(u64::MAX)));
}

#[test]
fn bignat_products_agree_whatever_the_order() {
    let factors = [u64::MAX, 12345678901234567, 3, 1 << 63, 99];
    let mut forward = BigNat::one();
    for f in factors.iter() {
        forward.mul_small(*f);
    }
    let mut backward = BigNat::one();
    for f in factors.iter().rev() {
        backward.mul_small(*f);
    }
    assert!(forward.le(&backward) && backward.le(&forward));
    backward.mul_small(1);
    assert!(forward.le(&backward) && backward.le(&forward));
    forward.mul_small(2);
    assert!(!forward.le(&backward));
}

#[test]
fn bignat_times_zero_is_zero() {
    let mut a = BigNat::from_u64(u64::MAX);
    a.mul_small(u64::MAX);
    a.mul_small(0);
    assert!(a.le(&BigNat::from_u64(0)));
}

#[test]
fn balanced_binary_entropy_is_ln_two_per_row() {
    // exp(4 H) = 4^4 / (2^2 * 2^2) = 16 = 2^4, so H = ln 2.
    let h = Information::of_counts(4, vec![2, 2]);
    let sixteen = Information { up: vec![2, 2], down: vec![] };
    assert!(h.le(&sixteen) && sixteen.le(&h));
    let nats: f64 = (4.0f64 * 4.0f64.ln() - 2.0 * 2.0 * 2.0f64.ln()) / 4.0;
    assert!((nats - std::f64::consts::LN_2).abs() < 1e-12);
}

#[test]
fn amounts_are_ordered_as_real_numbers() {
    // H(1,3) = 0.5623 < H(2,2) = 0.6931, both over four rows.
    let skewed = Information::of_counts(4, vec![1, 3]);
    let even = Information::of_counts(4, vec![2, 2]);
    assert!(skewed.lt(&even));
    assert!(skewed.le(&even));
    assert!(!even.le(&skewed));
    assert!(!skewed.is_zero());
    let pure = Information::of_counts(4, vec![0, 4]);
    assert!(pure.is_zero());
    assert!(pure.le(&skewed));
    assert!(Information::zero().is_zero());
    assert!(Information::zero().le(&pure) && pure.le(&Information::zero()));
}

#[test]
fn sums_and_differences_of_amounts() {
    let a = Information::of_counts(4, vec![2, 2]);
    let b = Information::of_counts(4, vec![1, 3]);
    let sum = a.plus(&b);
    assert_eq!(sum.up, vec![4, 4]);
    assert_eq!(sum.down, vec![2, 2, 1, 3]);
    let difference = a.minus(&b);
    assert_eq!(difference.up, vec![4, 1, 3]);
    assert_eq!(difference.down, vec![2, 2, 4]);
    assert!(difference.is_nonnegative());
    assert!(!difference.is_zero());
    assert!(!b.minus(&a).is_nonnegative());
    assert!(a.minus(&a).is_zero());
}

#[test]
fn large_counts_are_compared_exactly() {
    // 300 rows: 150/150 against 149/151; the entropies differ in the fifth
    // decimal place, the products in their last digits.
    let even = Information::of_counts(300, vec![150, 150]);
    let nearly = Information::of_counts(300, vec![149, 151]);
    assert!(nearly.lt(&even));
    assert!(!even.le(&nearly));
    assert!(even.le(&even));
}
