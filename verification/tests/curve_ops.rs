use ec_group::curve::{CurveError, Group, Point};
use ec_group::num::Num;

fn n(h: &str) -> Num {
    Num::from_hex(h).unwrap()
}

/// The curve `y^2 = x^3 + 7 mod 17`.
fn small_group() -> Group {
    Group::new(&n("0"), &n("7"), &n("11"))
}

#[test]
fn test() {
    let group = Group::new(
        &Num::from_hex("0").unwrap(),
        &Num::from_hex("7").unwrap(),
        &Num::from_hex("11").unwrap(), // 17
    );

    let g = Point::with_cords(&group, &Num::from_hex("1").unwrap(), &Num::from_hex("5").unwrap());

    let k = Num::from_hex("10").unwrap();
    let d = Num::from_hex("7").unwrap();

    let h1 = g.mul(&d).mul(&k);
    let h2 = g.mul(&k).mul(&d);

    assert_eq!(h1.to_string(), h2.to_string());
}

#[test]
fn scalar_mul_commutes_as_points() {
    let group = small_group();
    let g = Point::with_cords(&group, &n("1"), &n("5"));
    let h1 = g.mul(&n("7")).mul(&n("10"));
    let h2 = g.mul(&n("10")).mul(&n("7"));
    assert!(h1 == h2);
}

#[test]
fn addition_commutes() {
    let group = small_group();
    let p = Point::with_cords(&group, &n("1"), &n("5"));
    let q = Point::with_cords(&group, &n("2"), &n("7"));
    assert!(p.add(&q).unwrap() == q.add(&p).unwrap());
}

#[test]
fn addition_associates() {
    let group = small_group();
    let p = Point::with_cords(&group, &n("1"), &n("5"));
    let q = Point::with_cords(&group, &n("2"), &n("7"));
    let r = Point::with_cords(&group, &n("3"), &n("0"));
    let left = p.add(&q).unwrap().add(&r).unwrap();
    let right = p.add(&q.add(&r).unwrap()).unwrap();
    assert!(left == right);
}

#[test]
fn addition_identity() {
    let group = small_group();
    let p = Point::with_cords(&group, &n("1"), &n("5"));
    let i = Point::inf(&group);
    assert!(p.add(&i).unwrap() == p);
    assert!(i.add(&p).unwrap() == p);
    assert!(i.add(&i).unwrap() == i);
}

#[test]
fn doubling_exact_value() {
    let group = small_group();
    let p = Point::with_cords(&group, &n("1"), &n("5"));
    let d = p.add(&p).unwrap();
    let (x, y) = d.get_cords().unwrap();
    assert!(x == Num::from_u8(2));
    assert!(y == Num::from_u8(10));
}

#[test]
fn chord_addition_exact_value() {
    let group = small_group();
    let p = Point::with_cords(&group, &n("1"), &n("5"));
    let q = Point::with_cords(&group, &n("2"), &n("7"));
    let s = p.add(&q).unwrap();
    let (x, y) = s.get_cords().unwrap();
    assert!(x == Num::from_u8(1));
    assert!(y == Num::from_u8(12));
}

#[test]
fn inverse_points_add_to_infinity() {
    let group = small_group();
    let p = Point::with_cords(&group, &n("1"), &n("5"));
    let q = Point::with_cords(&group, &n("1"), &n("c"));
    assert!(p.add(&q).unwrap().is_inf());
}

#[test]
fn round_trip_bytes() {
    let group = small_group();
    let p = Point::with_cords(&group, &n("1"), &n("5"));
    let back = Point::from_bytes(&group, &p.to_bytes()).unwrap();
    assert!(back == p);
    let i = Point::inf(&group);
    let back_inf = Point::from_bytes(&group, &i.to_bytes()).unwrap();
    assert!(back_inf == i);
    assert!(back_inf.is_inf());
}

#[test]
fn round_trip_string() {
    let group = small_group();
    let p = Point::with_cords(&group, &n("1"), &n("5"));
    let back = Point::from_string(&group, &p.to_string()).unwrap();
    assert!(back == p);
    let i = Point::inf(&group);
    let back_inf = Point::from_string(&group, &i.to_string()).unwrap();
    assert!(back_inf == i);
}

#[test]
fn exact_encodings() {
    let group = small_group();
    let p = Point::with_cords(&group, &n("1"), &n("5"));
    assert_eq!(p.to_string(), "040105");
    assert_eq!(p.to_bytes(), vec![4u8, 1, 5]);
    let i = Point::inf(&group);
    assert_eq!(i.to_string(), "00");
    assert_eq!(i.to_bytes(), vec![0u8]);
    let q = Point::from_string(&group, "040207").unwrap();
    let (x, y) = q.get_cords().unwrap();
    assert!(x == Num::from_u8(2));
    assert!(y == Num::from_u8(7));
}

#[test]
fn on_curve_and_off_curve() {
    let group = small_group();
    let p = Point::with_cords(&group, &n("1"), &n("5"));
    assert!(p.is_on_curve());
    let off = Point::with_cords(&group, &n("1"), &n("6"));
    assert!(!off.is_on_curve());
    assert!(Point::inf(&group).is_on_curve());
}

#[test]
fn scalar_zero_and_one() {
    let group = small_group();
    let p = Point::with_cords(&group, &n("1"), &n("5"));
    assert!(p.mul(&n("0")).is_inf());
    assert!(p.mul(&n("1")) == p);
}

#[test]
fn scalar_two_matches_doubling() {
    let group = small_group();
    let p = Point::with_cords(&group, &n("1"), &n("5"));
    assert!(p.mul(&n("2")) == p.add(&p).unwrap());
    assert!(p.mul(&n("3")) == p.add(&p).unwrap().add(&p).unwrap());
}

#[test]
fn mismatched_groups_fail() {
    let group = small_group();
    let other = Group::new(&n("0"), &n("8"), &n("11"));
    let p = Point::with_cords(&group, &n("1"), &n("5"));
    let q = Point::with_cords(&other, &n("1"), &n("5"));
    assert_eq!(p.add(&q).unwrap_err(), CurveError::GroupMismatch);
    let mut g2 = small_group();
    assert_eq!(
        g2.set_generator(&q, &n("12"), &n("1")).unwrap_err(),
        CurveError::GroupMismatch
    );
}

#[test]
fn clone_preserves_equality() {
    let group = small_group();
    assert!(group.clone() == group);
    let p = Point::with_cords(&group, &n("1"), &n("5"));
    assert!(p.clone() == p);
    let i = Point::inf(&group);
    assert!(i.clone() == i);
}

#[test]
fn generator_and_order_management() {
    let mut group = small_group();
    assert_eq!(group.get_generator().unwrap_err(), CurveError::NoGenerator);
    assert_eq!(group.get_order().unwrap_err(), CurveError::NoOrder);
    let g = Point::with_cords(&group, &n("1"), &n("5"));
    group.set_generator(&g, &n("12"), &n("1")).unwrap();
    assert!(group.get_generator().unwrap() == g);
    assert!(group.get_order().unwrap() == n("12"));
    let (a, b, p) = group.get_components();
    assert!(a == n("0"));
    assert!(b == n("7"));
    assert!(p == n("11"));
}

#[test]
fn infinity_has_no_coordinates() {
    let group = small_group();
    let i = Point::inf(&group);
    assert_eq!(i.get_cords().unwrap_err(), CurveError::NoCoordinates);
    assert!(i.is_inf());
    let p = Point::with_cords(&group, &n("1"), &n("5"));
    assert!(!p.is_inf());
}

#[test]
fn malformed_encodings_fail() {
    let group = small_group();
    assert_eq!(
        Point::from_string(&group, "zz").unwrap_err(),
        CurveError::BadEncoding
    );
    assert_eq!(
        Point::from_string(&group, "0401").unwrap_err(),
        CurveError::BadEncoding
    );
    assert_eq!(
        Point::from_string(&group, "04010").unwrap_err(),
        CurveError::BadEncoding
    );
    // x = 18 is not a field element modulo 17
    assert_eq!(
        Point::from_bytes(&group, &vec![4u8, 18, 5]).unwrap_err(),
        CurveError::BadEncoding
    );
    // wrong marker byte
    assert_eq!(
        Point::from_bytes(&group, &vec![2u8, 1, 5]).unwrap_err(),
        CurveError::BadEncoding
    );
}

#[test]
fn numbers_from_hex() {
    assert!(Num::from_hex("ff").unwrap() == Num::from_u8(255));
    assert!(Num::from_hex("00ff").unwrap() == Num::from_hex("ff").unwrap());
    assert!(Num::from_hex("").unwrap() == Num::from_u8(0));
    assert!(Num::from_hex("A5").unwrap() == Num::from_hex("a5").unwrap());
    assert!(Num::from_hex("xy").is_none());
    assert!(Num::from_hex("10") == Some(Num::from_u8(16)));
    assert!(Num::from_hex("2").unwrap() != Num::from_u8(3));
}

#[test]
fn larger_field_round_trip() {
    // y^2 = x^3 + 3 over the prime p = 0x1f7: a two-byte modulus exercises padding
    let group = Group::new(&n("0"), &n("3"), &n("1f7"));
    let p = Point::with_cords(&group, &n("1"), &n("2"));
    assert!(p.is_on_curve());
    let s = p.to_string();
    assert_eq!(s, "0400010002");
    let back = Point::from_string(&group, &s).unwrap();
    assert!(back == p);
}
