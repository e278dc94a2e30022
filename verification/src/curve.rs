//! The curve group and its points: construction, generator management,
//! the curve-membership test, the group law and scalar multiplication.

use vstd::arithmetic::div_mod::{
    lemma_add_mod_noop, lemma_mod_bound, lemma_mul_mod_noop_left, lemma_mul_mod_noop_right,
    lemma_small_mod, lemma_sub_mod_noop,
};
use vstd::prelude::*;

use crate::codec::{
    be_bytes, bytes_of_hex, hex_decode, hex_encode, hex_of, lemma_byte_len_bound,
    lemma_byte_len_canonical, parse, push_be_bytes, serialize, valid_hex,
};
use crate::field::{fe_add, fe_inv, fe_mul, fe_sub};
use crate::num::lemma_num_wf;
use crate::model::{fe_inv_of, fe_mod, on_curve, pt_add, pt_eq, pt_mul, pt_wf, same_curve, GroupVal, PointVal, PointView};
use crate::num::{big_rem, big_sub, num_eq, Num};

verus! {

/// The failures of group and point operations: operands owned by different
/// groups, a generator or order that was never attached, coordinates asked
/// of infinity, and a byte or hex string that is not a valid point encoding.
#[derive(Clone, Copy, Debug, PartialEq, Eq, Structural)]
pub enum CurveError {
    GroupMismatch,
    NoGenerator,
    NoOrder,
    NoCoordinates,
    BadEncoding,
}

/// A point's stored representation: affine coordinates or infinity.
#[derive(Debug)]
pub(crate) enum Coords {
    Infinity,
    Affine { x: Num, y: Num },
}

/// The point value a `Coords` denotes.
pub(crate) open spec fn coords_val(c: Coords) -> PointVal {
    match c {
        Coords::Infinity => PointVal::Infinity,
        Coords::Affine { x, y } => PointVal::Affine { x: x@, y: y@ },
    }
}

/// Copy a stored point representation.
fn clone_coords(c: &Coords) -> (r: Coords)
    ensures
        coords_val(r) == coords_val(*c),
{
    match c {
        Coords::Infinity => Coords::Infinity,
        Coords::Affine { x, y } => Coords::Affine { x: x.clone(), y: y.clone() },
    }
}

/// A short-Weierstrass curve group `y^2 = x^3 + a*x + b (mod p)`, with an
/// optional attached generator, order and cofactor.
///
/// `p` must be an odd prime and the curve non-singular for the group law to
/// be meaningful; neither is checked, both are the caller's responsibility.
#[derive(Debug)]
pub struct Group {
    a: Num,
    b: Num,
    p: Num,
    generator: Option<Coords>,
    order: Option<Num>,
    cofactor: Option<Num>,
}

impl View for Group {
    type V = GroupVal;

    closed spec fn view(&self) -> GroupVal {
        GroupVal {
            a: self.a@,
            b: self.b@,
            p: self.p@,
            generator: match self.generator {
                Some(c) => Some(coords_val(c)),
                None => None,
            },
            order: match self.order {
                Some(o) => Some(o@),
                None => None,
            },
            cofactor: match self.cofactor {
                Some(c) => Some(c@),
                None => None,
            },
        }
    }
}

impl Group {
    #[verifier::type_invariant]
    closed spec fn wf(self) -> bool {
        &&& self.p@ >= 2
        &&& self.a@ < self.p@
        &&& self.b@ < self.p@
        &&& match self.generator {
            Some(c) => pt_wf(coords_val(c), self.p@),
            None => true,
        }
    }

    /// Build a group from the curve parameters; `a` and `b` are reduced into
    /// the field. Primality of `p` and non-singularity are not checked.
    pub fn new(a: &Num, b: &Num, p: &Num) -> (g: Group)
        requires
            p@ >= 2,
        ensures
            g@.a == a@ % p@,
            g@.b == b@ % p@,
            g@.p == p@,
            g@.generator is None,
            g@.order is None,
            g@.cofactor is None,
    {
        let ra = big_rem(a, p);
        let rb = big_rem(b, p);
        proof {
            lemma_mod_bound(a@ as int, p@ as int);
            lemma_mod_bound(b@ as int, p@ as int);
        }
        Group { a: ra, b: rb, p: p.clone(), generator: None, order: None, cofactor: None }
    }

    /// The curve parameters `(a, b, p)`.
    pub fn get_components(&self) -> (r: (Num, Num, Num))
        ensures
            r.0@ == self@.a,
            r.1@ == self@.b,
            r.2@ == self@.p,
            r.0@ < r.2@,
            r.1@ < r.2@,
            r.2@ >= 2,
    {
        proof {
            use_type_invariant(self);
        }
        (self.a.clone(), self.b.clone(), self.p.clone())
    }

    /// Attach a generator with its order and cofactor, replacing any earlier
    /// one. The point must be owned by this same group.
    pub fn set_generator(&mut self, generator: &Point, order: &Num, cofactor: &Num) -> (r: Result<
        (),
        CurveError,
    >)
        ensures
            r is Ok <==> (generator@.a == old(self)@.a && generator@.b == old(self)@.b
                && generator@.p == old(self)@.p),
            r is Ok ==> final(self)@ == (GroupVal {
                generator: Some(generator@.pt),
                order: Some(order@),
                cofactor: Some(cofactor@),
                ..old(self)@
            }),
            r is Err ==> final(self)@ == old(self)@ && r == Err::<(), CurveError>(
                CurveError::GroupMismatch,
            ),
    {
        proof {
            use_type_invariant(&*self);
            use_type_invariant(generator);
        }
        let g = &generator.group;
        if !(num_eq(&g.a, &self.a) && num_eq(&g.b, &self.b) && num_eq(&g.p, &self.p)) {
            return Err(CurveError::GroupMismatch);
        }
        let a = self.a.clone();
        let b = self.b.clone();
        let p = self.p.clone();
        *self = Group {
            a,
            b,
            p,
            generator: Some(clone_coords(&generator.data)),
            order: Some(order.clone()),
            cofactor: Some(cofactor.clone()),
        };
        Ok(())
    }

    /// The attached generator, as a point owned by this group; an error when
    /// none was ever attached.
    pub fn get_generator(&self) -> (r: Result<Point, CurveError>)
        ensures
            match r {
                Ok(pt) => self@.generator == Some(pt@.pt) && pt@.a == self@.a && pt@.b == self@.b
                    && pt@.p == self@.p,
                Err(e) => self@.generator is None && e == CurveError::NoGenerator,
            },
    {
        proof {
            use_type_invariant(self);
        }
        match &self.generator {
            Some(c) => Ok(Point { data: clone_coords(c), group: self.clone() }),
            None => Err(CurveError::NoGenerator),
        }
    }

    /// The attached order; an error when none was ever attached.
    pub fn get_order(&self) -> (r: Result<Num, CurveError>)
        ensures
            match r {
                Ok(o) => self@.order == Some(o@),
                Err(e) => self@.order is None && e == CurveError::NoOrder,
            },
    {
        match &self.order {
            Some(o) => Ok(o.clone()),
            None => Err(CurveError::NoOrder),
        }
    }
}

impl Clone for Group {
    /// A copy reconstructed from the `(a, b, p)` triple alone; an attached
    /// generator, order or cofactor is not carried over.
    fn clone(&self) -> (r: Self)
        ensures
            r@.a == self@.a,
            r@.b == self@.b,
            r@.p == self@.p,
            r@.generator is None,
            r@.order is None,
            r@.cofactor is None,
    {
        proof {
            use_type_invariant(self);
        }
        Group {
            a: self.a.clone(),
            b: self.b.clone(),
            p: self.p.clone(),
            generator: None,
            order: None,
            cofactor: None,
        }
    }
}

impl PartialEq for Group {
    fn eq(&self, other: &Self) -> (r: bool) {
        num_eq(&self.a, &other.a) && num_eq(&self.b, &other.b) && num_eq(&self.p, &other.p)
    }
}

impl Eq for Group {}

impl vstd::std_specs::cmp::PartialEqSpecImpl for Group {
    open spec fn obeys_eq_spec() -> bool {
        true
    }

    open spec fn eq_spec(&self, other: &Group) -> bool {
        same_curve(self@, other@)
    }
}

/// A point of a curve group: affine coordinates or infinity, tied by value
/// to its owning group.
#[derive(Debug)]
pub struct Point {
    data: Coords,
    group: Group,
}

impl View for Point {
    type V = PointView;

    closed spec fn view(&self) -> PointView {
        PointView {
            a: self.group@.a,
            b: self.group@.b,
            p: self.group@.p,
            pt: coords_val(self.data),
        }
    }
}

impl Point {
    #[verifier::type_invariant]
    closed spec fn wf(self) -> bool {
        pt_wf(coords_val(self.data), self.group@.p)
    }

    /// Build the point `(x, y)` under `group`; the coordinates are reduced
    /// into the field. Curve membership is not checked here: callers that
    /// need the guarantee ask `is_on_curve` afterwards.
    pub fn with_cords(group: &Group, x: &Num, y: &Num) -> (r: Point)
        ensures
            r@.a == group@.a,
            r@.b == group@.b,
            r@.p == group@.p,
            r@.pt == (PointVal::Affine { x: x@ % group@.p, y: y@ % group@.p }),
    {
        proof {
            use_type_invariant(group);
        }
        let rx = big_rem(x, &group.p);
        let ry = big_rem(y, &group.p);
        proof {
            lemma_mod_bound(x@ as int, group@.p as int);
            lemma_mod_bound(y@ as int, group@.p as int);
        }
        Point { data: Coords::Affine { x: rx, y: ry }, group: group.clone() }
    }

    /// The point at infinity, the identity of `group`.
    pub fn inf(group: &Group) -> (r: Point)
        ensures
            r@.a == group@.a,
            r@.b == group@.b,
            r@.p == group@.p,
            r@.pt == PointVal::Infinity,
    {
        Point { data: Coords::Infinity, group: group.clone() }
    }

    /// True exactly when this is the point at infinity.
    pub fn is_inf(&self) -> (r: bool)
        ensures
            r == (self@.pt == PointVal::Infinity),
    {
        match &self.data {
            Coords::Infinity => true,
            Coords::Affine { .. } => false,
        }
    }

    /// The affine coordinates; an error for infinity, which has none.
    pub fn get_cords(&self) -> (r: Result<(Num, Num), CurveError>)
        ensures
            match r {
                Ok(xy) => self@.pt == (PointVal::Affine { x: xy.0@, y: xy.1@ }),
                Err(e) => self@.pt == PointVal::Infinity && e == CurveError::NoCoordinates,
            },
    {
        match &self.data {
            Coords::Affine { x, y } => Ok((x.clone(), y.clone())),
            Coords::Infinity => Err(CurveError::NoCoordinates),
        }
    }

    /// Evaluate the curve equation: `y^2 mod p` against `x^3 + a*x + b mod p`.
    /// Infinity is on every curve.
    pub fn is_on_curve(&self) -> (r: bool)
        ensures
            r == on_curve(self@.a, self@.b, self@.p, self@.pt),
    {
        proof {
            use_type_invariant(self);
            use_type_invariant(&self.group);
        }
        match &self.data {
            Coords::Infinity => true,
            Coords::Affine { x, y } => {
                let p = &self.group.p;
                let lhs = fe_mul(y, y, p);
                let x2 = fe_mul(x, x, p);
                let x3 = fe_mul(&x2, x, p);
                let ax = fe_mul(&self.group.a, x, p);
                let t = fe_add(&x3, &ax, p);
                let rhs = fe_add(&t, &self.group.b, p);
                proof {
                    let xi = x@ as int;
                    let ai = self.group.a@ as int;
                    let bi = self.group.b@ as int;
                    let pi = p@ as int;
                    lemma_mul_mod_noop_left(xi * xi, xi, pi);
                    lemma_add_mod_noop(xi * xi * xi, ai * xi, pi);
                    lemma_small_mod(self.group.b@, p@);
                    lemma_add_mod_noop(xi * xi * xi + ai * xi, bi, pi);
                }
                num_eq(&lhs, &rhs)
            },
        }
    }
}

/// The group law on stored representations, verified against `pt_add`.
fn add_coords(a: &Num, p: &Num, d1: &Coords, d2: &Coords) -> (r: Coords)
    requires
        p@ >= 2,
        a@ < p@,
        pt_wf(coords_val(*d1), p@),
        pt_wf(coords_val(*d2), p@),
    ensures
        coords_val(r) == pt_add(a@, p@, coords_val(*d1), coords_val(*d2)),
        pt_wf(coords_val(r), p@),
{
    match (d1, d2) {
        (Coords::Infinity, _) => clone_coords(d2),
        (_, Coords::Infinity) => clone_coords(d1),
        (Coords::Affine { x: x1, y: y1 }, Coords::Affine { x: x2, y: y2 }) => {
            let ysum = fe_add(y1, y2, p);
            if num_eq(x1, x2) && ysum.is_zero() {
                Coords::Infinity
            } else {
                let ghost x1i = x1@ as int;
                let ghost y1i = y1@ as int;
                let ghost x2i = x2@ as int;
                let ghost y2i = y2@ as int;
                let ghost pi = p@ as int;
                let s: Num;
                if num_eq(x1, x2) && num_eq(y1, y2) {
                    let sq = fe_mul(x1, x1, p);
                    let t2 = fe_add(&sq, &sq, p);
                    let t3 = fe_add(&t2, &sq, p);
                    let numn = fe_add(&t3, a, p);
                    let den = fe_add(y1, y1, p);
                    let inv = fe_inv(&den, p);
                    s = fe_mul(&numn, &inv, p);
                    proof {
                        assert((3 * x1i) * x1i == 3 * (x1i * x1i)) by (nonlinear_arith);
                        lemma_add_mod_noop(x1i * x1i, x1i * x1i, pi);
                        lemma_add_mod_noop(2 * (x1i * x1i), x1i * x1i, pi);
                        lemma_small_mod(a@, p@);
                        lemma_add_mod_noop(3 * (x1i * x1i), a@ as int, pi);
                        assert(numn@ == fe_mod((3 * x1@ * x1@ + a@) as int, p@));
                        assert(den@ == fe_mod((2 * y1@) as int, p@));
                        lemma_mul_mod_noop_left(3 * (x1i * x1i) + a@, inv@ as int, pi);
                        assert(s@ == fe_mod(
                            ((3 * x1@ * x1@ + a@) * fe_inv_of((2 * y1@) as int, p@)) as int,
                            p@,
                        ));
                    }
                } else {
                    let numn = fe_sub(y2, y1, p);
                    let den = fe_sub(x2, x1, p);
                    let inv = fe_inv(&den, p);
                    s = fe_mul(&numn, &inv, p);
                    proof {
                        assert(den@ == fe_mod(x2i - x1i, p@));
                        lemma_mul_mod_noop_left(y2i - y1i, inv@ as int, pi);
                        assert(s@ == fe_mod((y2i - y1i) * fe_inv_of(x2i - x1i, p@), p@));
                    }
                }
                let ghost si = s@ as int;
                let s2 = fe_mul(&s, &s, p);
                let t = fe_sub(&s2, x1, p);
                let xr = fe_sub(&t, x2, p);
                let u = fe_sub(x1, &xr, p);
                let v = fe_mul(&s, &u, p);
                let yr = fe_sub(&v, y1, p);
                proof {
                    let xri = xr@ as int;
                    lemma_small_mod(x1@, p@);
                    lemma_small_mod(x2@, p@);
                    lemma_small_mod(y1@, p@);
                    lemma_sub_mod_noop(si * si, x1i, pi);
                    lemma_sub_mod_noop(si * si - x1i, x2i, pi);
                    assert(xr@ == fe_mod(s@ * s@ - x1@ - x2@, p@));
                    lemma_mul_mod_noop_right(si, x1i - xri, pi);
                    lemma_sub_mod_noop(si * (x1i - xri), y1i, pi);
                    assert(yr@ == fe_mod(s@ * (x1i - xri) - y1i, p@));
                }
                Coords::Affine { x: xr, y: yr }
            }
        },
    }
}

impl Point {
    /// The group law `P + Q`; both points must be owned by the same group,
    /// else the operation fails with `GroupMismatch`.
    pub fn add(&self, rhs: &Point) -> (r: Result<Point, CurveError>)
        ensures
            r is Ok <==> (self@.a == rhs@.a && self@.b == rhs@.b && self@.p == rhs@.p),
            match r {
                Ok(pt) => pt@.a == self@.a && pt@.b == self@.b && pt@.p == self@.p && pt@.pt
                    == pt_add(self@.a, self@.p, self@.pt, rhs@.pt),
                Err(e) => e == CurveError::GroupMismatch,
            },
    {
        proof {
            use_type_invariant(self);
            use_type_invariant(rhs);
            use_type_invariant(&self.group);
            use_type_invariant(&rhs.group);
        }
        let same = self.group == rhs.group;
        if !same {
            return Err(CurveError::GroupMismatch);
        }
        let d = add_coords(&self.group.a, &self.group.p, &self.data, &rhs.data);
        Ok(Point { data: d, group: self.group.clone() })
    }

    /// Scalar multiplication `k * P`: `P` added to the identity `k` times
    /// under the group law. Any non-negative scalar is accepted; `0 * P` is
    /// infinity.
    pub fn mul(&self, k: &Num) -> (r: Point)
        ensures
            r@.a == self@.a,
            r@.b == self@.b,
            r@.p == self@.p,
            r@.pt == pt_mul(self@.a, self@.p, k@, self@.pt),
    {
        proof {
            use_type_invariant(self);
            use_type_invariant(&self.group);
        }
        let ghost ga: nat = self@.a;
        let ghost gp: nat = self@.p;
        let ghost ptv = self@.pt;
        let one = Num::from_u8(1);
        let mut acc = Coords::Infinity;
        let mut i = k.clone();
        while !i.is_zero()
            invariant
                gp >= 2,
                ga < gp,
                ga == self@.a,
                gp == self@.p,
                ptv == self@.pt,
                ga == self.group@.a,
                gp == self.group@.p,
                pt_wf(ptv, gp),
                one@ == 1,
                i@ <= k@,
                pt_wf(coords_val(acc), gp),
                coords_val(acc) == pt_mul(ga, gp, (k@ - i@) as nat, ptv),
            decreases i@,
        {
            let ghost i_old: nat = i@;
            acc = add_coords(&self.group.a, &self.group.p, &self.data, &acc);
            i = big_sub(&i, &one);
            proof {
                let n = (k@ - i_old) as nat;
                assert(pt_mul(ga, gp, (n + 1) as nat, ptv) == pt_add(
                    ga,
                    gp,
                    ptv,
                    pt_mul(ga, gp, n, ptv),
                ));
            }
        }
        Point { data: acc, group: self.group.clone() }
    }
}

impl Point {
    /// The canonical uncompressed encoding: the byte `0` for infinity, else
    /// the byte `4` followed by `x` and `y` in big-endian form, each padded
    /// to the byte width of the field modulus.
    pub fn to_bytes(&self) -> (r: Vec<u8>)
        ensures
            r@ == serialize(self@.p, self@.pt),
    {
        proof {
            use_type_invariant(self);
            use_type_invariant(&self.group);
            use_type_invariant(&self.group.p);
            lemma_num_wf(self.group.p);
        }
        match &self.data {
            Coords::Infinity => {
                let mut out: Vec<u8> = Vec::new();
                out.push(0u8);
                proof {
                    assert(out@ =~= seq![0u8]);
                }
                out
            },
            Coords::Affine { x, y } => {
                let w = self.group.p.byte_count();
                proof {
                    lemma_byte_len_canonical(self.group.p.spec_bytes());
                    lemma_byte_len_bound(self.group.p@);
                }
                let mut out: Vec<u8> = Vec::new();
                out.push(4u8);
                proof {
                    assert(out@ =~= seq![4u8]);
                }
                push_be_bytes(&mut out, x, w);
                push_be_bytes(&mut out, y, w);
                proof {
                    assert(out@ =~= seq![4u8] + be_bytes(x@, w as nat) + be_bytes(y@, w as nat));
                }
                out
            },
        }
    }

    /// Decode a point from its uncompressed encoding under `group`; anything
    /// that is not a valid encoding for the field width fails.
    pub fn from_bytes(group: &Group, bytes: &Vec<u8>) -> (r: Result<Point, CurveError>)
        ensures
            match r {
                Ok(pt) => parse(group@.p, bytes@) == Some(pt@.pt) && pt@.a == group@.a && pt@.b
                    == group@.b && pt@.p == group@.p,
                Err(e) => parse(group@.p, bytes@) is None && e == CurveError::BadEncoding,
            },
    {
        proof {
            use_type_invariant(group);
            use_type_invariant(&group.p);
            lemma_num_wf(group.p);
            lemma_byte_len_canonical(group.p.spec_bytes());
        }
        let w = group.p.byte_count();
        let blen = bytes.len();
        if blen == 1 && *bytes.first().unwrap() == 0 {
            return Ok(Point::inf(group));
        }
        if w > (usize::MAX - 1) / 2 {
            return Err(CurveError::BadEncoding);
        }
        if blen != 1 + 2 * w || bytes[0] != 4 {
            return Err(CurveError::BadEncoding);
        }
        let mut xv: Vec<u8> = Vec::new();
        let mut i: usize = 1;
        proof {
            assert(xv@ =~= bytes@.subrange(1, 1));
        }
        while i < 1 + w
            invariant
                w <= (usize::MAX - 1) / 2,
                1 <= i <= 1 + w,
                bytes@.len() == 1 + 2 * w,
                xv@ == bytes@.subrange(1, i as int),
            decreases 1 + w - i,
        {
            xv.push(bytes[i]);
            proof {
                assert(xv@ =~= bytes@.subrange(1, i as int + 1));
            }
            i += 1;
        }
        let mut yv: Vec<u8> = Vec::new();
        let mut j: usize = 1 + w;
        proof {
            assert(yv@ =~= bytes@.subrange(1 + w as int, 1 + w as int));
        }
        while j < 1 + 2 * w
            invariant
                w <= (usize::MAX - 1) / 2,
                1 + w <= j <= 1 + 2 * w,
                bytes@.len() == 1 + 2 * w,
                yv@ == bytes@.subrange(1 + w as int, j as int),
            decreases 1 + 2 * w - j,
        {
            yv.push(bytes[j]);
            proof {
                assert(yv@ =~= bytes@.subrange(1 + w as int, j as int + 1));
            }
            j += 1;
        }
        let x = Num::from_be_bytes(&xv);
        let y = Num::from_be_bytes(&yv);
        let rx = big_rem(&x, &group.p);
        let ry = big_rem(&y, &group.p);
        proof {
            lemma_mod_bound(x@ as int, group@.p as int);
            lemma_mod_bound(y@ as int, group@.p as int);
            if x@ < group@.p {
                lemma_small_mod(x@, group@.p);
            }
            if y@ < group@.p {
                lemma_small_mod(y@, group@.p);
            }
        }
        if !(num_eq(&rx, &x) && num_eq(&ry, &y)) {
            return Err(CurveError::BadEncoding);
        }
        Ok(Point::with_cords(group, &x, &y))
    }

    /// The lowercase-hexadecimal form of `to_bytes`.
    pub fn to_string(&self) -> (r: String)
        ensures
            r@ == hex_of(serialize(self@.p, self@.pt)),
    {
        let b = self.to_bytes();
        hex_encode(&b)
    }

    /// Decode a point from the lowercase-hexadecimal form of its encoding;
    /// digits of either case are read, anything else fails.
    pub fn from_string(group: &Group, string: &str) -> (r: Result<Point, CurveError>)
        ensures
            match r {
                Ok(pt) => valid_hex(string@) && parse(group@.p, bytes_of_hex(string@)) == Some(
                    pt@.pt,
                ) && pt@.a == group@.a && pt@.b == group@.b && pt@.p == group@.p,
                Err(e) => (!valid_hex(string@) || parse(group@.p, bytes_of_hex(string@)) is None)
                    && e == CurveError::BadEncoding,
            },
    {
        match hex_decode(string) {
            Some(v) => Point::from_bytes(group, &v),
            None => Err(CurveError::BadEncoding),
        }
    }
}

impl Clone for Point {
    /// A copy with the same value under a copy of the owning group.
    fn clone(&self) -> (r: Self)
        ensures
            r@ == self@,
    {
        proof {
            use_type_invariant(self);
        }
        Point { data: clone_coords(&self.data), group: self.group.clone() }
    }
}

impl PartialEq for Point {
    fn eq(&self, other: &Self) -> (r: bool) {
        let same = self.group == other.group;
        if !same {
            return false;
        }
        match (&self.data, &other.data) {
            (Coords::Infinity, Coords::Infinity) => true,
            (Coords::Affine { x: x1, y: y1 }, Coords::Affine { x: x2, y: y2 }) => num_eq(x1, x2)
                && num_eq(y1, y2),
            _ => false,
        }
    }
}

impl Eq for Point {}

impl vstd::std_specs::cmp::PartialEqSpecImpl for Point {
    open spec fn obeys_eq_spec() -> bool {
        true
    }

    open spec fn eq_spec(&self, other: &Point) -> bool {
        pt_eq(self@, other@)
    }
}

} // verus!
