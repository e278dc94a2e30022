//! Mathematical model of the curve group: point values, the curve equation,
//! the group law and scalar multiplication, all over unbounded naturals.

use vstd::prelude::*;

verus! {

/// The value of a curve point: affine coordinates, or the point at infinity
/// (the group identity).
pub ghost enum PointVal {
    Infinity,
    Affine { x: nat, y: nat },
}

/// The value of a group: the curve parameters and the optional generator
/// data.
pub ghost struct GroupVal {
    pub a: nat,
    pub b: nat,
    pub p: nat,
    pub generator: Option<PointVal>,
    pub order: Option<nat>,
    pub cofactor: Option<nat>,
}

/// Two groups are the same curve when their `(a, b, p)` triples agree;
/// generator, order and cofactor are not part of a group's identity.
pub open spec fn same_curve(g: GroupVal, h: GroupVal) -> bool {
    g.a == h.a && g.b == h.b && g.p == h.p
}

/// The value of a point together with the curve parameters of its owning
/// group.
pub ghost struct PointView {
    pub a: nat,
    pub b: nat,
    pub p: nat,
    pub pt: PointVal,
}

/// Two points are equal when they lie on the same curve and have the same
/// value.
pub open spec fn pt_eq(q: PointView, r: PointView) -> bool {
    q.a == r.a && q.b == r.b && q.p == r.p && q.pt == r.pt
}

/// A point value is well formed for modulus `p` when its coordinates are
/// field elements, that is, lie in `[0, p)`.
pub open spec fn pt_wf(pt: PointVal, p: nat) -> bool {
    match pt {
        PointVal::Infinity => true,
        PointVal::Affine { x, y } => x < p && y < p,
    }
}

/// Whether `pt` satisfies the curve equation `y^2 = x^3 + a*x + b (mod p)`;
/// infinity is on every curve.
pub open spec fn on_curve(a: nat, b: nat, p: nat, pt: PointVal) -> bool {
    match pt {
        PointVal::Infinity => true,
        PointVal::Affine { x, y } => (y * y) % p == (x * x * x + a * x + b) % p,
    }
}

/// `v` reduced into `[0, p)`.
pub open spec fn fe_mod(v: int, p: nat) -> nat {
    (v % (p as int)) as nat
}

/// The inverse, modulo `p`, of `v` reduced into the field:
/// `(v mod p)^(p-2) mod p`.
pub open spec fn fe_inv_of(v: int, p: nat) -> nat {
    crate::field::fe_inverse(fe_mod(v, p), p)
}

/// The group law. For points `P`, `Q` with well-formed coordinates:
/// infinity is the identity; inverse points (equal `x`, opposite `y`) add to
/// infinity; doubling uses the tangent slope `(3x^2 + a) / (2y)`; distinct
/// points use the chord slope `(y2 - y1) / (x2 - x1)`; in both cases
/// `x_r = s^2 - x1 - x2` and `y_r = s*(x1 - x_r) - y1`, modulo `p`.
pub open spec fn pt_add(a: nat, p: nat, pt1: PointVal, pt2: PointVal) -> PointVal {
    match (pt1, pt2) {
        (PointVal::Infinity, _) => pt2,
        (_, PointVal::Infinity) => pt1,
        (PointVal::Affine { x: x1, y: y1 }, PointVal::Affine { x: x2, y: y2 }) => {
            if x1 == x2 && (y1 + y2) % p == 0 {
                PointVal::Infinity
            } else {
                let s = if x1 == x2 && y1 == y2 {
                    fe_mod(((3 * x1 * x1 + a) * fe_inv_of((2 * y1) as int, p)) as int, p)
                } else {
                    fe_mod((y2 - y1) * fe_inv_of(x2 - x1, p), p)
                };
                let xr = fe_mod(s * s - x1 - x2, p);
                let yr = fe_mod(s * (x1 - xr) - y1, p);
                PointVal::Affine { x: xr, y: yr }
            }
        },
    }
}

/// Scalar multiplication as iterated addition: `k * P` is `P` added to the
/// identity `k` times.
pub open spec fn pt_mul(a: nat, p: nat, k: nat, pt: PointVal) -> PointVal
    decreases k,
{
    if k == 0 {
        PointVal::Infinity
    } else {
        pt_add(a, p, pt, pt_mul(a, p, (k - 1) as nat, pt))
    }
}

} // verus!
