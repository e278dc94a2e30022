//! Arbitrary-precision natural numbers, stored as canonical big-endian bytes.
//!
//! A [`Num`] models a field element or scalar: its view is the natural number
//! the bytes denote. The byte string is kept canonical (minimal, non-empty),
//! so two well-formed values are equal exactly when their views are.

use vstd::arithmetic::power::pow;
use vstd::prelude::*;

verus! {

/// `256^n`.
pub open spec fn pow256(n: nat) -> nat
    decreases n,
{
    if n == 0 {
        1
    } else {
        256 * pow256((n - 1) as nat)
    }
}

/// The natural number denoted by a big-endian byte string.
pub open spec fn nat_of(s: Seq<u8>) -> nat
    decreases s.len(),
{
    if s.len() == 0 {
        0
    } else {
        (s[0] as nat) * pow256((s.len() - 1) as nat) + nat_of(s.skip(1))
    }
}

/// A byte string is canonical when it is the shortest non-empty big-endian
/// encoding of its value: no leading zero byte, except the single byte `0`.
pub open spec fn canonical(s: Seq<u8>) -> bool {
    s.len() >= 1 && (s.len() == 1 || s[0] != 0)
}

/// An arbitrary-precision natural number in canonical big-endian bytes.
#[derive(Debug)]
pub struct Num {
    bytes: Vec<u8>,
}

impl View for Num {
    type V = nat;

    open spec fn view(&self) -> nat {
        nat_of(self.spec_bytes())
    }
}

/// A well-formed number holds canonical bytes; established by every
/// constructor, available through `use_type_invariant`.
pub broadcast proof fn lemma_num_wf(n: Num)
    ensures
        #[trigger] n.wf() <==> canonical(n.spec_bytes()),
{
}

impl Num {
    /// The canonical big-endian bytes of this number.
    pub closed spec fn spec_bytes(&self) -> Seq<u8> {
        self.bytes@
    }

    #[verifier::type_invariant]
    pub closed spec fn wf(self) -> bool {
        canonical(self.bytes@)
    }

    /// The number of bytes in the canonical encoding.
    pub(crate) fn byte_count(&self) -> (n: usize)
        ensures
            n == self.spec_bytes().len(),
    {
        self.bytes.len()
    }

    /// The canonical big-endian bytes, for reading.
    pub(crate) fn borrow_bytes(&self) -> (r: &Vec<u8>)
        ensures
            r@ == self.spec_bytes(),
    {
        &self.bytes
    }

    /// A single-byte number.
    pub fn from_u8(v: u8) -> (r: Num)
        ensures
            r@ == v,
    {
        let mut bytes: Vec<u8> = Vec::new();
        bytes.push(v);
        let r = Num { bytes };
        proof {
            let s = r.bytes@;
            assert(s =~= seq![v]);
            assert(s.skip(1) =~= Seq::<u8>::empty());
            assert(nat_of(s.skip(1)) == 0);
            assert(pow256((s.len() - 1) as nat) == 1);
            assert(nat_of(s) == (v as nat) * pow256(0) + nat_of(s.skip(1)));
            assert((v as nat) * 1 == v);
        }
        r
    }

    /// True exactly when the value is zero.
    pub fn is_zero(&self) -> (r: bool)
        ensures
            r == (self@ == 0),
    {
        proof {
            use_type_invariant(self);
            lemma_nat_of_zero(self.bytes@);
        }
        self.bytes.len() == 1 && self.bytes[0] == 0
    }
}

impl Num {
    /// Build a number from big-endian bytes; leading zeros are trimmed away.
    pub fn from_be_bytes(v: &Vec<u8>) -> (r: Num)
        ensures
            r@ == nat_of(v@),
    {
        let n = v.len();
        proof {
            assert(v@.skip(0) =~= v@);
        }
        let mut i: usize = 0;
        while i < n && v[i] == 0
            invariant
                i <= n,
                n == v@.len(),
                nat_of(v@.skip(i as int)) == nat_of(v@),
            decreases n - i,
        {
            proof {
                lemma_nat_of_leading_zero(v@.skip(i as int));
                assert(v@.skip(i as int).skip(1) =~= v@.skip(i as int + 1));
            }
            i += 1;
        }
        if i == n {
            proof {
                assert(v@.skip(n as int) =~= Seq::<u8>::empty());
            }
            Num::from_u8(0)
        } else {
            let mut out: Vec<u8> = Vec::new();
            let mut j: usize = i;
            while j < n
                invariant
                    i <= j <= n,
                    n == v@.len(),
                    out@ == v@.subrange(i as int, j as int),
                decreases n - j,
            {
                out.push(v[j]);
                proof {
                    assert(out@ =~= v@.subrange(i as int, j as int + 1));
                }
                j += 1;
            }
            let r = Num { bytes: out };
            proof {
                assert(r.bytes@ =~= v@.skip(i as int));
            }
            r
        }
    }
}

/// Appending a low byte multiplies the value by 256 and adds the byte.
pub proof fn lemma_nat_of_push(s: Seq<u8>, d: u8)
    ensures
        nat_of(s.push(d)) == 256 * nat_of(s) + d,
    decreases s.len(),
{
    if s.len() == 0 {
        assert(s.push(d) =~= seq![d]);
        assert(s.push(d).skip(1) =~= Seq::<u8>::empty());
        assert(nat_of(s) == 0);
        assert(s.push(d)[0] == d);
        assert(pow256(0) == 1);
        assert(nat_of(s.push(d).skip(1)) == 0);
        assert((d as nat) * 1 == d as nat) by (nonlinear_arith);
        assert(nat_of(s.push(d)) == (d as nat) * pow256(0) + nat_of(s.push(d).skip(1)));
    } else {
        let t = s.push(d);
        assert(t.skip(1) =~= s.skip(1).push(d));
        lemma_nat_of_push(s.skip(1), d);
        let p = pow256((s.len() - 1) as nat);
        assert(t[0] == s[0]);
        assert(pow256(s.len()) == 256 * p);
        assert(nat_of(t) == (s[0] as nat) * pow256(s.len()) + nat_of(t.skip(1)));
        assert(nat_of(s) == (s[0] as nat) * p + nat_of(s.skip(1)));
        assert((s[0] as nat) * (256 * p) == 256 * ((s[0] as nat) * p)) by (nonlinear_arith);
        assert(nat_of(t) == 256 * ((s[0] as nat) * p) + 256 * nat_of(s.skip(1)) + d);
    }
}

impl Clone for Num {
    fn clone(&self) -> (r: Self)
        ensures
            r@ == self@,
    {
        proof {
            use_type_invariant(self);
        }
        let bytes = self.bytes.clone();
        proof {
            assert(bytes@ =~= self.bytes@);
        }
        Num { bytes }
    }
}

impl PartialEq for Num {
    fn eq(&self, other: &Self) -> (r: bool) {
        num_eq(self, other)
    }
}

impl Eq for Num {}

impl vstd::std_specs::cmp::PartialEqSpecImpl for Num {
    open spec fn obeys_eq_spec() -> bool {
        true
    }

    open spec fn eq_spec(&self, other: &Num) -> bool {
        self@ == other@
    }
}

/// Equality of values; bytewise comparison is sound because both sides are
/// canonical.
pub fn num_eq(a: &Num, b: &Num) -> (r: bool)
    ensures
        r == (a@ == b@),
{
    proof {
        use_type_invariant(a);
        use_type_invariant(b);
    }
    if a.bytes.len() != b.bytes.len() {
        proof {
            if a@ == b@ {
                lemma_nat_of_injective(a.bytes@, b.bytes@);
            }
        }
        return false;
    }
    let n = a.bytes.len();
    let mut i: usize = 0;
    while i < n
        invariant
            n == a.bytes@.len(),
            n == b.bytes@.len(),
            i <= n,
            canonical(a.bytes@),
            canonical(b.bytes@),
            forall|j: int| 0 <= j < i ==> a.bytes@[j] == b.bytes@[j],
        decreases n - i,
    {
        if a.bytes[i] != b.bytes[i] {
            proof {
                if a@ == b@ {
                    lemma_nat_of_injective(a.bytes@, b.bytes@);
                }
            }
            return false;
        }
        i += 1;
    }
    proof {
        assert(a.bytes@ =~= b.bytes@);
    }
    true
}

/// `pow256` is positive.
pub proof fn lemma_pow256_pos(n: nat)
    ensures
        pow256(n) >= 1,
    decreases n,
{
    if n > 0 {
        lemma_pow256_pos((n - 1) as nat);
    }
}

/// `pow256` is monotonic.
pub proof fn lemma_pow256_increases(m: nat, n: nat)
    requires
        m <= n,
    ensures
        pow256(m) <= pow256(n),
    decreases n,
{
    if m < n {
        lemma_pow256_increases(m, (n - 1) as nat);
        lemma_pow256_pos((n - 1) as nat);
    }
}

/// A byte string of length `L` denotes a value below `256^L`.
pub proof fn lemma_nat_of_bound(s: Seq<u8>)
    ensures
        nat_of(s) < pow256(s.len()),
    decreases s.len(),
{
    if s.len() == 0 {
    } else {
        let tail = s.skip(1);
        lemma_nat_of_bound(tail);
        let p = pow256((s.len() - 1) as nat);
        lemma_pow256_pos((s.len() - 1) as nat);
        assert((s[0] as nat) * p + nat_of(tail) < ((s[0] as nat) + 1) * p) by (nonlinear_arith)
            requires
                nat_of(tail) < p,
        ;
        assert(((s[0] as nat) + 1) * p <= 256 * p) by (nonlinear_arith)
            requires
                (s[0] as nat) + 1 <= 256,
                p >= 1,
        ;
    }
}

/// A byte string with a non-zero leading byte denotes at least `256^(L-1)`.
pub proof fn lemma_nat_of_lower(s: Seq<u8>)
    requires
        s.len() >= 1,
        s[0] != 0,
    ensures
        nat_of(s) >= pow256((s.len() - 1) as nat),
{
    let p = pow256((s.len() - 1) as nat);
    assert((s[0] as nat) * p >= 1 * p) by (nonlinear_arith)
        requires
            (s[0] as nat) >= 1,
            p >= 0,
    ;
}

/// A leading zero byte does not change the value.
pub proof fn lemma_nat_of_leading_zero(s: Seq<u8>)
    requires
        s.len() >= 1,
        s[0] == 0,
    ensures
        nat_of(s) == nat_of(s.skip(1)),
{
}

/// Zero is denoted only by all-zero byte strings.
pub proof fn lemma_nat_of_zero(s: Seq<u8>)
    ensures
        nat_of(s) == 0 <==> (forall|i: int| 0 <= i < s.len() ==> s[i] == 0),
    decreases s.len(),
{
    if s.len() > 0 {
        let tail = s.skip(1);
        lemma_nat_of_zero(tail);
        lemma_pow256_pos((s.len() - 1) as nat);
        let p = pow256((s.len() - 1) as nat);
        if s[0] != 0 {
            assert((s[0] as nat) * p >= 1 * p) by (nonlinear_arith)
                requires
                    (s[0] as nat) >= 1,
                    p >= 0,
            ;
        }
        assert(forall|i: int| 0 <= i < tail.len() ==> tail[i] == s[i + 1]);
        if nat_of(s) != 0 {
            if s[0] == 0 {
                assert(nat_of(tail) != 0);
            }
        }
        if nat_of(s) == 0 {
            assert((s[0] as nat) * p == 0);
            assert(s[0] == 0) by (nonlinear_arith)
                requires
                    (s[0] as nat) * p == 0,
                    p >= 1,
            ;
            assert forall|i: int| 0 <= i < s.len() implies s[i] == 0 by {
                if i > 0 {
                    assert(tail[i - 1] == 0);
                }
            }
        }
    }
}

/// Equal-length byte strings with the same value are identical.
pub proof fn lemma_nat_of_same_len_injective(a: Seq<u8>, b: Seq<u8>)
    requires
        a.len() == b.len(),
        nat_of(a) == nat_of(b),
    ensures
        a =~= b,
    decreases a.len(),
{
    if a.len() > 0 {
        let p = pow256((a.len() - 1) as nat);
        let ta = a.skip(1);
        let tb = b.skip(1);
        lemma_nat_of_bound(ta);
        lemma_nat_of_bound(tb);
        lemma_pow256_pos((a.len() - 1) as nat);
        assert(a[0] == b[0]) by (nonlinear_arith)
            requires
                (a[0] as nat) * p + nat_of(ta) == (b[0] as nat) * p + nat_of(tb),
                nat_of(ta) < p,
                nat_of(tb) < p,
                p >= 1,
        ;
        lemma_nat_of_same_len_injective(ta, tb);
        assert forall|i: int| 0 <= i < a.len() implies a[i] == b[i] by {
            if i > 0 {
                assert(ta[i - 1] == tb[i - 1]);
            }
        }
    }
}

/// Relies on `num_bigint::BigUint`: `from_bytes_be` reads big-endian bytes,
/// `+` is exact natural addition, and `to_bytes_be` returns the minimal
/// big-endian encoding (a single zero byte for zero), which is the canonical
/// form `Num` maintains.
#[verifier::external_body]
pub(crate) fn big_add(a: &Num, b: &Num) -> (r: Num)
    ensures
        r@ == a@ + b@,
{
    let x = num_bigint::BigUint::from_bytes_be(&a.bytes);
    let y = num_bigint::BigUint::from_bytes_be(&b.bytes);
    Num { bytes: (x + y).to_bytes_be() }
}

/// Relies on `num_bigint::BigUint`: `-` is exact natural subtraction, which
/// panics on underflow; the `requires` rules that out. Byte conversions as in
/// `big_add`.
#[verifier::external_body]
pub(crate) fn big_sub(a: &Num, b: &Num) -> (r: Num)
    requires
        b@ <= a@,
    ensures
        r@ + b@ == a@,
{
    let x = num_bigint::BigUint::from_bytes_be(&a.bytes);
    let y = num_bigint::BigUint::from_bytes_be(&b.bytes);
    Num { bytes: (x - y).to_bytes_be() }
}

/// Relies on `num_bigint::BigUint`: `*` is exact natural multiplication.
/// Byte conversions as in `big_add`.
#[verifier::external_body]
pub(crate) fn big_mul(a: &Num, b: &Num) -> (r: Num)
    ensures
        r@ == a@ * b@,
{
    let x = num_bigint::BigUint::from_bytes_be(&a.bytes);
    let y = num_bigint::BigUint::from_bytes_be(&b.bytes);
    Num { bytes: (x * y).to_bytes_be() }
}

/// Relies on `num_bigint::BigUint`: `%` is the exact euclidean remainder,
/// which panics on a zero divisor; the `requires` rules that out. Byte
/// conversions as in `big_add`.
#[verifier::external_body]
pub(crate) fn big_rem(a: &Num, m: &Num) -> (r: Num)
    requires
        m@ > 0,
    ensures
        r@ == a@ % m@,
{
    let x = num_bigint::BigUint::from_bytes_be(&a.bytes);
    let y = num_bigint::BigUint::from_bytes_be(&m.bytes);
    Num { bytes: (x % y).to_bytes_be() }
}

/// Relies on `num_bigint::BigUint::modpow`: returns `self^exponent % modulus`
/// exactly, and panics on a zero modulus; the `requires` rules that out. Byte
/// conversions as in `big_add`.
#[verifier::external_body]
pub(crate) fn big_modpow(a: &Num, e: &Num, m: &Num) -> (r: Num)
    requires
        m@ > 0,
    ensures
        r@ as int == pow(a@ as int, e@) % (m@ as int),
{
    let x = num_bigint::BigUint::from_bytes_be(&a.bytes);
    let y = num_bigint::BigUint::from_bytes_be(&e.bytes);
    let z = num_bigint::BigUint::from_bytes_be(&m.bytes);
    Num { bytes: x.modpow(&y, &z).to_bytes_be() }
}

/// Canonical byte strings with the same value are identical.
pub proof fn lemma_nat_of_injective(a: Seq<u8>, b: Seq<u8>)
    requires
        canonical(a),
        canonical(b),
        nat_of(a) == nat_of(b),
    ensures
        a =~= b,
{
    if a.len() == b.len() {
        lemma_nat_of_same_len_injective(a, b);
    } else if a.len() < b.len() {
        lemma_nat_of_bound(a);
        lemma_nat_of_lower(b);
        lemma_pow256_increases(a.len(), (b.len() - 1) as nat);
    } else {
        lemma_nat_of_bound(b);
        lemma_nat_of_lower(a);
        lemma_pow256_increases(b.len(), (a.len() - 1) as nat);
    }
}

} // verus!
