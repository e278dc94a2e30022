use ec_group::field::{fe_add, fe_inv, fe_mul, fe_neg, fe_sub};
use ec_group::num::Num;

fn n(h: &str) -> Num {
    Num::from_hex(h).unwrap()
}

#[test]
fn addition_wraps_at_modulus() {
    let p = n("11"); // 17
    assert!(fe_add(&n("a"), &n("f"), &p) == Num::from_u8(8)); // (10 + 15) mod 17
    assert!(fe_add(&n("0"), &n("0"), &p) == Num::from_u8(0));
    assert!(fe_add(&n("10"), &n("1"), &p) == Num::from_u8(0)); // 16 + 1
}

#[test]
fn subtraction_wraps_below_zero() {
    let p = n("11");
    assert!(fe_sub(&n("3"), &n("5"), &p) == Num::from_u8(15)); // (3 - 5) mod 17
    assert!(fe_sub(&n("5"), &n("3"), &p) == Num::from_u8(2));
    assert!(fe_neg(&n("5"), &p) == Num::from_u8(12));
    assert!(fe_neg(&n("0"), &p) == Num::from_u8(0));
}

#[test]
fn multiplication_reduces() {
    let p = n("11");
    assert!(fe_mul(&n("5"), &n("7"), &p) == Num::from_u8(1)); // 35 mod 17
    assert!(fe_mul(&n("0"), &n("7"), &p) == Num::from_u8(0));
}

#[test]
fn fermat_inverse() {
    let p = n("11");
    let i = fe_inv(&n("a"), &p); // 10^15 mod 17
    assert!(i == Num::from_u8(12));
    assert!(fe_mul(&n("a"), &i, &p) == Num::from_u8(1));
    // the inverse of 1 is 1
    assert!(fe_inv(&n("1"), &p) == Num::from_u8(1));
}

#[test]
fn arithmetic_on_wide_numbers() {
    // 2^64 + 1, exercising multi-limb values
    let big = n("10000000000000001");
    let p = n("10000000000000003");
    let s = fe_add(&big, &big, &p);
    // 2 * (2^64 + 1) - (2^64 + 3) = 2^64 - 1
    assert!(s == n("ffffffffffffffff"));
}
