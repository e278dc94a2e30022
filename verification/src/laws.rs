//! The algebraic laws of the group, proved over the mathematical model that
//! the operations' contracts speak of.

use vstd::arithmetic::div_mod::{
    lemma_add_mod_noop, lemma_mod_add_multiples_vanish, lemma_mod_bound, lemma_mod_equivalence,
    lemma_mul_mod_noop_general, lemma_mul_mod_noop_left, lemma_mul_mod_noop_right, lemma_small_mod,
};
use vstd::arithmetic::power::{lemma0_pow, lemma_pow_distributes, lemma_pow_mod_noop, pow};
use vstd::prelude::*;

use crate::codec::{
    bytes_of_hex, hex_of, lemma_hex_round_trip, lemma_parse_of_serialize, parse, serialize,
    valid_hex,
};
use crate::field::fe_inverse;
use crate::model::{fe_inv_of, fe_mod, on_curve, pt_add, pt_mul, pt_wf, PointVal};

verus! {

/// Fermat inverses are genuine: every nonzero field element times its
/// `fe_inverse` is 1 modulo `p`. This is Fermat's little theorem, so it holds
/// exactly when the caller keeps the data-model invariant that `p` is prime;
/// it is the hypothesis under which the group laws below hold.
pub open spec fn prime_inverses(p: nat) -> bool {
    forall|v: nat| 0 < v < p ==> (v * fe_inverse(v, p)) % p == 1
}

/// `(-1)^e` is `1` for even `e` and `-1` for odd `e`.
proof fn lemma_pow_neg_one(e: nat)
    ensures
        pow(-1, e) == if e % 2 == 0 {
            1int
        } else {
            -1int
        },
    decreases e,
{
    reveal(pow);
    if e > 0 {
        lemma_pow_neg_one((e - 1) as nat);
        assert(pow(-1, e) == -1 * pow(-1, (e - 1) as nat));
        assert(e % 2 == 0 <==> (e - 1) as nat % 2 == 1);
    }
}

/// The chord slope is indifferent to the order of the two points: negating
/// both the numerator and the denominator leaves it unchanged, because the
/// Fermat exponent `p - 2` is odd.
proof fn lemma_slope_symmetric(u: int, v: int, p: nat)
    requires
        p >= 3,
        p % 2 == 1,
    ensures
        fe_mod(u * fe_inv_of(v, p), p) == fe_mod((0 - u) * fe_inv_of(0 - v, p), p),
{
    let e = (p - 2) as nat;
    let pi = p as int;
    let vm = fe_mod(v, p);
    lemma_mod_bound(v, pi);
    lemma_mul_mod_noop_left(v, -1, pi);
    assert((0 - (vm as int)) % pi == (0 - v) % pi);
    if vm == 0 {
        assert(fe_mod(0 - v, p) == 0) by {
            lemma_small_mod(0, p);
        }
        lemma0_pow(e);
        lemma_small_mod(0, p);
        assert(fe_inv_of(v, p) == 0);
        assert(fe_inv_of(0 - v, p) == 0);
        assert(u * 0 == 0);
        assert((0 - u) * 0 == 0);
        assert(fe_mod(u * fe_inv_of(v, p), p) == fe_mod((0 - u) * fe_inv_of(0 - v, p), p));
    } else {
        lemma_mod_add_multiples_vanish(0 - (vm as int), pi);
        lemma_small_mod((p - vm) as nat, p);
        assert(fe_mod(0 - v, p) == p - vm);
        let bp = pow(vm as int, e);
        lemma_pow_mod_noop(0 - (vm as int), e, pi);
        assert(pow((p - vm) as int, e) % pi == pow(0 - (vm as int), e) % pi);
        lemma_pow_distributes(-1, vm as int, e);
        assert((-1) * (vm as int) == 0 - (vm as int));
        lemma_pow_neg_one(e);
        assert(pow(0 - (vm as int), e) == (0 - 1) * bp);
        assert(fe_inv_of(v, p) as int == bp % pi);
        assert(fe_inv_of(0 - v, p) as int == (0 - bp) % pi);
        lemma_mod_bound(bp, pi);
        lemma_mod_bound(0 - bp, pi);
        lemma_mul_mod_noop_right(u, bp, pi);
        lemma_mul_mod_noop_right(0 - u, 0 - bp, pi);
        assert((0 - u) * (0 - bp) == u * bp) by (nonlinear_arith);
        assert(fe_mod(u * fe_inv_of(v, p), p) == fe_mod((0 - u) * fe_inv_of(0 - v, p), p));
    }
}

/// Two field elements with the same square are equal or opposite, when the
/// Fermat inverses are genuine: a nonzero difference and a nonzero sum would
/// make the zero product `(y1 - y2) * (y1 + y2)` invertible.
proof fn lemma_same_square(y1: nat, y2: nat, p: nat)
    requires
        p >= 3,
        prime_inverses(p),
        y1 < p,
        y2 < p,
        (y1 * y1) % p == (y2 * y2) % p,
    ensures
        y1 == y2 || (y1 + y2) % p == 0,
{
    let pi = p as int;
    if y1 != y2 && (y1 + y2) % p != 0 {
        let y1i = y1 as int;
        let y2i = y2 as int;
        let d = (y1i - y2i) % pi;
        let s = ((y1 + y2) % p) as int;
        lemma_mod_bound(y1i - y2i, pi);
        lemma_small_mod(y1, p);
        lemma_small_mod(y2, p);
        lemma_mod_equivalence(y1i, y2i, pi);
        assert(d != 0);
        assert((y1i - y2i) * (y1i + y2i) == y1i * y1i - y2i * y2i) by (nonlinear_arith);
        lemma_mod_equivalence(y1i * y1i, y2i * y2i, pi);
        lemma_mul_mod_noop_general(y1i - y2i, y1i + y2i, pi);
        assert((d * s) % pi == 0);
        let i = fe_inverse(d as nat, p) as int;
        assert((d * i) % pi == 1);
        lemma_mul_mod_noop_right(s, d * i, pi);
        assert((s * ((d * i) % pi)) % pi == (s * (d * i)) % pi);
        lemma_small_mod(s as nat, p);
        lemma_mod_bound((y1 + y2) as int, pi);
        assert(s * 1 == s);
        assert(s * (d * i) == (d * s) * i) by (nonlinear_arith);
        lemma_mul_mod_noop_left(d * s, i, pi);
        assert((((d * s) % pi) * i) % pi == ((d * s) * i) % pi);
        assert(0 * i == 0);
        lemma_small_mod(0, p);
        assert(s == 0);
    }
}

/// The group law is commutative: `P + Q == Q + P`, for points of the curve
/// whose coordinates are field elements, over an odd modulus whose Fermat
/// inverses are genuine (`p` prime).
pub proof fn lemma_add_commutes(a: nat, b: nat, p: nat, pt1: PointVal, pt2: PointVal)
    requires
        p >= 3,
        p % 2 == 1,
        prime_inverses(p),
        pt_wf(pt1, p),
        pt_wf(pt2, p),
        on_curve(a, b, p, pt1),
        on_curve(a, b, p, pt2),
    ensures
        pt_add(a, p, pt1, pt2) == pt_add(a, p, pt2, pt1),
{
    match (pt1, pt2) {
        (PointVal::Infinity, _) => {},
        (_, PointVal::Infinity) => {},
        (PointVal::Affine { x: x1, y: y1 }, PointVal::Affine { x: x2, y: y2 }) => {
            if x1 == x2 && (y1 + y2) % p == 0 {
            } else if x1 == x2 && y1 == y2 {
            } else if x1 == x2 {
                // impossible on the curve: equal x forces equal squares of y
                lemma_same_square(y1, y2, p);
            } else {
                lemma_chord_result_symmetric(a, p, x1, y1, x2, y2);
            }
        },
    }
}

/// For distinct `x` coordinates, the chord case of the group law gives the
/// same point whichever operand comes first.
proof fn lemma_chord_result_symmetric(a: nat, p: nat, x1: nat, y1: nat, x2: nat, y2: nat)
    requires
        p >= 3,
        p % 2 == 1,
        prime_inverses(p),
        x1 < p,
        y1 < p,
        x2 < p,
        y2 < p,
        x1 != x2,
    ensures
        pt_add(a, p, PointVal::Affine { x: x1, y: y1 }, PointVal::Affine { x: x2, y: y2 })
            == pt_add(a, p, PointVal::Affine { x: x2, y: y2 }, PointVal::Affine { x: x1, y: y1 }),
{
    let pi = p as int;
    let u = y2 as int - y1 as int;
    let v = x2 as int - x1 as int;
    lemma_slope_symmetric(u, v, p);
    assert(0 - u == y1 as int - y2 as int);
    assert(0 - v == x1 as int - x2 as int);
    let s = fe_mod(u * fe_inv_of(v, p), p);
    assert(fe_mod((y1 as int - y2 as int) * fe_inv_of(x1 as int - x2 as int, p), p) == s);
    let si = s as int;
    let xr = fe_mod(si * si - x1 - x2, p);
    assert(fe_mod(si * si - x2 - x1, p) == xr);
    let xri = xr as int;
    // s * v == u (mod p): multiply the slope by its denominator
    let vm = fe_mod(v, p);
    lemma_mod_bound(v, pi);
    lemma_mod_equivalence(x2 as int, x1 as int, pi);
    lemma_small_mod(x1, p);
    lemma_small_mod(x2, p);
    assert(vm != 0);
    let bp = pow(vm as int, (p - 2) as nat);
    let iv = fe_inv_of(v, p) as int;
    lemma_mod_bound(bp, pi);
    assert(iv == bp % pi);
    // s == (u * bp) % p
    lemma_mul_mod_noop_right(u, bp, pi);
    assert(si == (u * bp) % pi);
    // (s * v) % p == (u * (bp * v)) % p == (u * ((vm * bp) % p)) % p == u % p
    lemma_mul_mod_noop_left(u * bp, v, pi);
    assert(((u * bp) * v) % pi == (si * v) % pi);
    assert((u * bp) * v == u * (bp * v)) by (nonlinear_arith);
    lemma_mul_mod_noop_right(u, bp * v, pi);
    lemma_mul_mod_noop_right(bp, v, pi);
    assert((bp * (v % pi)) % pi == (bp * v) % pi);
    assert(bp * (vm as int) == (vm as int) * bp) by (nonlinear_arith);
    lemma_mul_mod_noop_right(vm as int, bp, pi);
    assert(((vm as nat) * fe_inverse(vm, p)) % p == 1);
    assert((vm as int) * (bp % pi) == (vm as int) * iv);
    assert(((vm as int) * bp) % pi == 1);
    assert((bp * v) % pi == 1);
    assert((u * ((bp * v) % pi)) % pi == (u * (bp * v)) % pi);
    assert(u * 1 == u);
    assert((si * v) % pi == u % pi);
    // the two y results agree: their difference is a multiple of p
    let ya = si * (x1 as int - xri) - y1;
    let yb = si * (x2 as int - xri) - y2;
    assert(ya - yb == si * v * (-1) + u) by (nonlinear_arith)
        requires
            u == y2 - y1,
            v == x2 - x1,
            ya == si * (x1 as int - xri) - y1,
            yb == si * (x2 as int - xri) - y2,
    ;
    lemma_mod_equivalence(si * v, u, pi);
    assert((si * v - u) % pi == 0);
    assert(ya - yb == 0 - (si * v - u));
    lemma_mul_mod_noop_left(si * v - u, -1, pi);
    lemma_small_mod(0, p);
    assert((0 - (si * v - u)) % pi == 0) by {
        assert(((si * v - u) % pi) * (-1) == 0);
        assert((((si * v - u) % pi) * (-1)) % pi == ((si * v - u) * (-1)) % pi);
        assert((si * v - u) * (-1) == 0 - (si * v - u)) by (nonlinear_arith);
    }
    lemma_mod_equivalence(ya, yb, pi);
    assert(fe_mod(ya, p) == fe_mod(yb, p));
}

/// Infinity is the identity of the group law: `P + inf == P` and
/// `inf + P == P`.
pub proof fn lemma_add_identity(a: nat, p: nat, pt: PointVal)
    ensures
        pt_add(a, p, pt, PointVal::Infinity) == pt,
        pt_add(a, p, PointVal::Infinity, pt) == pt,
{
}

/// `0 * P` is infinity.
pub proof fn lemma_mul_zero(a: nat, p: nat, pt: PointVal)
    ensures
        pt_mul(a, p, 0, pt) == PointVal::Infinity,
{
}

/// `1 * P` is `P`.
pub proof fn lemma_mul_one(a: nat, p: nat, pt: PointVal)
    ensures
        pt_mul(a, p, 1, pt) == pt,
{
    lemma_mul_zero(a, p, pt);
    assert(pt_mul(a, p, 1, pt) == pt_add(a, p, pt, pt_mul(a, p, 0, pt)));
    lemma_add_identity(a, p, pt);
}

/// A point built from coordinates that satisfy the curve equation is on the
/// curve: reducing the coordinates into the field preserves the equation, so
/// `is_on_curve` holds of what `with_cords` built.
pub proof fn lemma_on_curve_of_reduced(a: nat, b: nat, p: nat, x: nat, y: nat)
    requires
        p >= 2,
        (y * y) % p == (x * x * x + a * x + b) % p,
    ensures
        on_curve(a, b, p, PointVal::Affine { x: x % p, y: y % p }),
{
    let pi = p as int;
    let xi = x as int;
    let yi = y as int;
    let xm = (x % p) as int;
    let ym = (y % p) as int;
    lemma_mul_mod_noop_general(yi, yi, pi);
    assert((ym * ym) % pi == (yi * yi) % pi);
    lemma_mul_mod_noop_general(xi, xi, pi);
    assert((xm * xm) % pi == (xi * xi) % pi);
    lemma_mul_mod_noop_left(xm * xm, xm, pi);
    lemma_mul_mod_noop_left(xi * xi, xm, pi);
    lemma_mul_mod_noop_right(xi * xi, xi, pi);
    assert((xm * xm * xm) % pi == (xi * xi * xi) % pi);
    lemma_mul_mod_noop_right(a as int, xi, pi);
    assert(((a as int) * xm) % pi == ((a as int) * xi) % pi);
    lemma_add_mod_noop(xm * xm * xm, (a as int) * xm, pi);
    lemma_add_mod_noop(xi * xi * xi, (a as int) * xi, pi);
    assert((xm * xm * xm + (a as int) * xm) % pi == (xi * xi * xi + (a as int) * xi) % pi);
    lemma_add_mod_noop(xm * xm * xm + (a as int) * xm, b as int, pi);
    lemma_add_mod_noop(xi * xi * xi + (a as int) * xi, b as int, pi);
}

/// The encoding round-trips through the hexadecimal string form as well:
/// the hex form of a point's encoding is valid hex, and its bytes parse
/// back to the point.
pub proof fn lemma_string_round_trip(p: nat, pt: PointVal)
    requires
        p >= 2,
        pt_wf(pt, p),
    ensures
        valid_hex(hex_of(serialize(p, pt))),
        parse(p, bytes_of_hex(hex_of(serialize(p, pt)))) == Some(pt),
{
    lemma_hex_round_trip(serialize(p, pt));
    lemma_parse_of_serialize(p, pt);
}

} // verus!
