use std::cmp::Ordering;

use gugolpi::bignum::balanced::{normalize_product, Operand};
use gugolpi::bignum::fixed::Fixed;

fn fx(limbs: &[u32]) -> Fixed {
    Fixed::from_limbs(limbs.to_vec())
}

#[test]
fn add_carries() {
    let a = fx(&[1, 9999, 9999]);
    let b = fx(&[0, 0, 1]);
    assert_eq!(a.add(&b), fx(&[2, 0, 0]));
}

#[test]
fn abs_diff_both_directions() {
    let a = fx(&[1, 0, 0]);
    let b = fx(&[0, 9999, 9999]);
    let (d, ord) = a.abs_diff(&b);
    assert_eq!(ord, Ordering::Greater);
    assert_eq!(d, fx(&[0, 0, 1]));
    let (d, ord) = b.abs_diff(&a);
    assert_eq!(ord, Ordering::Less);
    assert_eq!(d, fx(&[0, 0, 1]));
    assert_eq!(a.abs_diff(&a).1, Ordering::Equal);
}

#[test]
fn half_and_mul_small() {
    let one = Fixed::from_u32(1, 3);
    assert_eq!(one.half(), fx(&[0, 5000, 0]));
    assert_eq!(one.half().half(), fx(&[0, 2500, 0]));
    assert_eq!(fx(&[0, 2500, 0]).mul_small(4), one);
    assert_eq!(fx(&[0, 3333, 3333]).mul_small(3), fx(&[0, 9999, 9999]));
}

#[test]
fn different_lengths_are_zero_extended() {
    let a = fx(&[1, 5000]);
    let b = fx(&[0, 0, 5000]);
    assert_eq!(a.add(&b), fx(&[1, 5000, 5000]));
    assert_eq!(a.cmp_value(&fx(&[1, 5000, 0, 0])), Ordering::Equal);
    assert_eq!(a.resized(4).len(), 4);
    assert_eq!(fx(&[0, 0, 7, 1]).leading_zero_limbs(), 2);
}

#[test]
fn balanced_operand_preserves_value() {
    // 1.9999 → balanced digits [2, -1] with offset 0.
    let op = Operand::balanced(&[1, 9999], 2);
    assert_eq!(op.digits, vec![2, -1]);
    assert_eq!(op.offset, 0);
    // 0.0000 5000 → [0, 0, 5000] → balanced [0, 1, -5000] → [1, -5000] with offset 1.
    let op = Operand::balanced(&[0, 0, 5000], 3);
    assert_eq!(op.digits, vec![1, -5000]);
    assert_eq!(op.offset, 1);
    assert!(Operand::balanced(&[0, 0, 0], 3).digits.is_empty());
}

#[test]
fn zero_and_from_u32() {
    let z = Fixed::zero(4);
    assert!(z.is_zero());
    assert_eq!(z.len(), 4);
    assert!(!z.is_empty());
    let seven = Fixed::from_u32(7, 3);
    assert_eq!(seven.limbs(), &[7, 0, 0]);
    assert_eq!(seven.integer_part(), 7);
    assert!(!seven.is_zero());
}

#[test]
fn div_small_divides_exactly_where_it_can() {
    let one = Fixed::from_u32(1, 3);
    assert_eq!(one.div_small(3), fx(&[0, 3333, 3333]));
    assert_eq!(fx(&[9, 0, 0]).div_small(4), fx(&[2, 2500, 0]));
}

#[test]
fn fraction_digits_are_truncated() {
    let x = fx(&[3, 1415, 9265, 3589, 0]);
    assert_eq!(x.fraction_digits(10), "1415926535");
    assert_eq!(x.fraction_digits(14), "14159265358900");
    assert_eq!(x.fraction_digits(0), "");
}

#[test]
fn comparison_orders_by_value() {
    assert_eq!(fx(&[0, 5000]).cmp_value(&fx(&[0, 4999, 9999])), Ordering::Greater);
    assert_eq!(fx(&[0, 4999, 9999]).cmp_value(&fx(&[0, 5000])), Ordering::Less);
}

#[test]
fn subtraction_of_a_smaller_value() {
    assert_eq!(fx(&[1, 0, 0]).sub_smaller(&fx(&[0, 0, 1])), fx(&[0, 9999, 9999]));
}

#[test]
fn product_coefficients_normalise_with_carries() {
    // 1.5 = [1, 5000] is the balanced operand [2, −5000]; its square has coefficients
    // [4, −20000, 25000000], which carry into 2.25.
    let op = Operand::balanced(&[1, 5000], 2);
    assert_eq!(op.digits, vec![2, -5000]);
    let got = normalize_product(&[4, -20_000, 25_000_000], op.offset, op.offset, 2).expect("fits");
    assert_eq!(got.limbs(), &[2, 2500]);
    // An integer part beyond one limb is an error.
    assert!(normalize_product(&[99_980_001], 0, 0, 2).is_err());
}
