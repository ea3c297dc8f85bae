use payment_engine::amount::{Amount, MAX_SCALE};

fn amt(mantissa: i128, scale: u32) -> Amount {
    Amount::new(mantissa, scale).unwrap()
}

#[test]
fn new_keeps_representation() {
    let a = amt(1500, 3);
    assert_eq!(a.mantissa(), 1500);
    assert_eq!(a.scale(), 3);
}

#[test]
fn new_rejects_scale_beyond_max() {
    assert!(Amount::new(1, MAX_SCALE + 1).is_none());
}

#[test]
fn new_rejects_unrepresentable_value() {
    assert!(Amount::new(i128::MAX, 0).is_none());
    assert!(Amount::new(i128::MAX, MAX_SCALE).is_some());
}

#[test]
fn add_is_exact_across_scales() {
    // 0.1 + 0.02 == 0.12
    let c = amt(1, 1).checked_add(amt(2, 2)).unwrap();
    assert_eq!(c.mantissa(), 12);
    assert_eq!(c.scale(), 2);
}

#[test]
fn sub_is_exact() {
    // 3 - 1.5 == 1.5
    let c = amt(3, 0).checked_sub(amt(15, 1)).unwrap();
    assert_eq!(c.mantissa(), 15);
    assert_eq!(c.scale(), 1);
}

#[test]
fn add_out_of_range_is_none() {
    let top = amt(i128::MAX, MAX_SCALE);
    assert!(top.checked_add(amt(1, MAX_SCALE)).is_none());
}

#[test]
fn neg_flips_sign() {
    let a = amt(-25, 2).neg();
    assert_eq!(a.mantissa(), 25);
    assert_eq!(a.scale(), 2);
}

#[test]
fn ge_compares_values_not_representations() {
    assert!(amt(10, 1).ge(amt(100, 2)));
    assert!(amt(100, 2).ge(amt(10, 1)));
    assert!(amt(11, 1).ge(amt(100, 2)));
    assert!(!amt(100, 2).ge(amt(11, 1)));
    assert!(amt(0, 0).ge(amt(-5, 1)));
}

#[test]
fn eq_value_ignores_trailing_zeros() {
    assert!(amt(10, 1).eq_value(amt(100, 2)));
    assert!(!amt(10, 1).eq_value(amt(101, 2)));
    // The representations themselves stay distinct.
    assert_ne!(amt(10, 1), amt(100, 2));
}

#[test]
fn normalize_trims_trailing_zeros() {
    let a = amt(1500, 3).normalize();
    assert_eq!(a.mantissa(), 15);
    assert_eq!(a.scale(), 1);
    let b = amt(1000, 3).normalize();
    assert_eq!(b.mantissa(), 1);
    assert_eq!(b.scale(), 0);
    let c = amt(123, 2).normalize();
    assert_eq!(c.mantissa(), 123);
    assert_eq!(c.scale(), 2);
}

#[test]
fn normalize_zero_and_negative() {
    let z = amt(0, 5).normalize();
    assert_eq!(z.mantissa(), 0);
    assert_eq!(z.scale(), 0);
    let n = amt(-100, 2).normalize();
    assert_eq!(n.mantissa(), -1);
    assert_eq!(n.scale(), 0);
}

#[test]
fn zero_is_canonical() {
    let z = Amount::zero();
    assert_eq!(z.mantissa(), 0);
    assert_eq!(z.scale(), 0);
}
