//! The point encodings: fixed-width big-endian byte strings and their
//! lowercase-hexadecimal form, with the lemmas that make the round trip.

use vstd::arithmetic::div_mod::{
    lemma_div_decreases, lemma_fundamental_div_mod, lemma_fundamental_div_mod_converse,
    lemma_multiply_divide_lt,
};
use vstd::prelude::*;

use crate::num::{
    big_add, big_mul, canonical, lemma_nat_of_lower, lemma_nat_of_push,
    lemma_num_wf, lemma_pow256_increases, lemma_pow256_pos, nat_of, pow256, Num,
};

verus! {

/// The `w`-byte big-endian encoding of `n` (of `n mod 256^w`, when `n` is
/// too wide).
pub open spec fn be_bytes(n: nat, w: nat) -> Seq<u8>
    decreases w,
{
    if w == 0 {
        Seq::empty()
    } else {
        be_bytes(n / 256, (w - 1) as nat).push((n % 256) as u8)
    }
}

/// The width, in bytes, of the canonical encoding of `n`.
pub open spec fn byte_len(n: nat) -> nat
    decreases n,
    via byte_len_dec
{
    if n < 256 {
        1
    } else {
        1 + byte_len(n / 256)
    }
}

#[via_fn]
proof fn byte_len_dec(n: nat) {
    if n >= 256 {
        lemma_div_decreases(n as int, 256);
    }
}

/// The uncompressed point encoding: infinity is the single byte `0`; an
/// affine point is the marker byte `4` followed by `x` then `y`, each padded
/// to the byte width of the field modulus `p`.
pub open spec fn serialize(p: nat, pt: crate::model::PointVal) -> Seq<u8> {
    match pt {
        crate::model::PointVal::Infinity => seq![0u8],
        crate::model::PointVal::Affine { x, y } => seq![4u8] + be_bytes(x, byte_len(p))
            + be_bytes(y, byte_len(p)),
    }
}

/// What a byte string decodes to under modulus `p`: the inverse of
/// `serialize`, `None` for anything that is not a valid encoding.
pub open spec fn parse(p: nat, s: Seq<u8>) -> Option<crate::model::PointVal> {
    let w = byte_len(p);
    if s.len() == 1 && s[0] == 0 {
        Some(crate::model::PointVal::Infinity)
    } else if s.len() == 1 + 2 * w && s[0] == 4 {
        let x = nat_of(s.subrange(1, 1 + w as int));
        let y = nat_of(s.subrange(1 + w as int, 1 + 2 * w as int));
        if x < p && y < p {
            Some(crate::model::PointVal::Affine { x, y })
        } else {
            None
        }
    } else {
        None
    }
}

/// `be_bytes` is `w` bytes long.
pub proof fn lemma_be_bytes_len(n: nat, w: nat)
    ensures
        be_bytes(n, w).len() == w,
    decreases w,
{
    if w > 0 {
        lemma_be_bytes_len(n / 256, (w - 1) as nat);
    }
}

/// `be_bytes` denotes the value it encodes when the width suffices.
pub proof fn lemma_be_bytes_val(n: nat, w: nat)
    requires
        n < pow256(w),
    ensures
        nat_of(be_bytes(n, w)) == n,
    decreases w,
{
    if w == 0 {
    } else {
        let q = n / 256;
        let r = n % 256;
        lemma_fundamental_div_mod(n as int, 256);
        lemma_multiply_divide_lt(n as int, 256, pow256((w - 1) as nat) as int);
        lemma_be_bytes_val(q, (w - 1) as nat);
        lemma_nat_of_push(be_bytes(q, (w - 1) as nat), (n % 256) as u8);
    }
}

/// Padding a byte string with leading zeros to width `w` gives exactly
/// `be_bytes` of its value.
pub proof fn lemma_be_bytes_pad(s: Seq<u8>, w: nat)
    requires
        s.len() <= w,
    ensures
        Seq::new((w - s.len()) as nat, |i: int| 0u8) + s == be_bytes(nat_of(s), w),
    decreases w,
{
    let zeros = Seq::new((w - s.len()) as nat, |i: int| 0u8);
    if w == 0 {
        assert(zeros + s =~= Seq::<u8>::empty());
        assert(be_bytes(nat_of(s), 0) =~= Seq::<u8>::empty());
    } else if s.len() == 0 {
        assert(nat_of(s) == 0);
        lemma_be_bytes_pad(s, (w - 1) as nat);
        assert(0 as nat / 256 == 0) by (nonlinear_arith);
        assert(0 as nat % 256 == 0) by (nonlinear_arith);
        assert(zeros + s =~= Seq::new((w - 1) as nat, |i: int| 0u8).push(0u8));
        assert(Seq::new((w - 1) as nat, |i: int| 0u8) + s == be_bytes(0, (w - 1) as nat));
    } else {
        let t = s.drop_last();
        let d = s.last();
        assert(s =~= t.push(d));
        lemma_nat_of_push(t, d);
        let n = nat_of(s);
        lemma_fundamental_div_mod_converse(n as int, 256, nat_of(t) as int, d as int);
        lemma_be_bytes_pad(t, (w - 1) as nat);
        assert(zeros + s =~= (Seq::new((w - 1 - t.len()) as nat, |i: int| 0u8) + t).push(d));
    }
}

/// The canonical bytes of `n` are exactly `byte_len(n)` long.
pub proof fn lemma_byte_len_canonical(s: Seq<u8>)
    requires
        canonical(s),
    ensures
        byte_len(nat_of(s)) == s.len(),
    decreases s.len(),
{
    if s.len() == 1 {
        assert(nat_of(s) == (s[0] as nat) * pow256(0) + nat_of(s.skip(1)));
        assert(s.skip(1) =~= Seq::<u8>::empty());
        assert((s[0] as nat) * 1 < 256) by (nonlinear_arith)
            requires
                (s[0] as nat) < 256,
        ;
    } else {
        let t = s.drop_last();
        let d = s.last();
        assert(s =~= t.push(d));
        assert(canonical(t));
        lemma_nat_of_push(t, d);
        let n = nat_of(s);
        lemma_fundamental_div_mod_converse(n as int, 256, nat_of(t) as int, d as int);
        lemma_nat_of_lower(t);
        lemma_pow256_pos((t.len() - 1) as nat);
        lemma_byte_len_canonical(t);
    }
}

/// `n` fits in `byte_len(n)` bytes.
pub proof fn lemma_byte_len_bound(n: nat)
    ensures
        byte_len(n) >= 1,
        n < pow256(byte_len(n)),
    decreases n,
{
    if n < 256 {
        assert(pow256(1) == 256 * pow256(0));
    } else {
        lemma_div_decreases(n as int, 256);
        lemma_byte_len_bound(n / 256);
        lemma_fundamental_div_mod(n as int, 256);
        let q = n / 256;
        let w = byte_len(q);
        assert(n == 256 * q + n % 256);
        assert(256 * q + 256 <= 256 * pow256(w)) by (nonlinear_arith)
            requires
                q < pow256(w),
        ;
    }
}

/// Parsing the serialization of a well-formed point yields the point back:
/// the encoding round-trips, for infinity and for every affine point whose
/// coordinates are field elements.
pub proof fn lemma_parse_of_serialize(p: nat, pt: crate::model::PointVal)
    requires
        p >= 2,
        crate::model::pt_wf(pt, p),
    ensures
        parse(p, serialize(p, pt)) == Some(pt),
{
    let w = byte_len(p);
    lemma_byte_len_bound(p);
    match pt {
        crate::model::PointVal::Infinity => {
            assert(serialize(p, pt) =~= seq![0u8]);
        },
        crate::model::PointVal::Affine { x, y } => {
            let bx = be_bytes(x, w);
            let by = be_bytes(y, w);
            let s = serialize(p, pt);
            lemma_be_bytes_len(x, w);
            lemma_be_bytes_len(y, w);
            assert(s.len() == 1 + 2 * w);
            assert(s[0] == 4);
            assert(s.subrange(1, 1 + w as int) =~= bx);
            assert(s.subrange(1 + w as int, 1 + 2 * w as int) =~= by);
            lemma_pow256_pos(w);
            lemma_be_bytes_val(x, w);
            lemma_be_bytes_val(y, w);
        },
    }
}

/// A hexadecimal digit character, lowercase.
pub open spec fn hex_char_of(v: nat) -> char {
    if v < 10 {
        ((48 + v) as u8) as char
    } else {
        ((87 + v) as u8) as char
    }
}

/// The two lowercase hex digits of one byte, high nibble first.
pub open spec fn hex_of_byte(b: u8) -> Seq<char> {
    seq![hex_char_of((b as nat) / 16), hex_char_of((b as nat) % 16)]
}

/// The lowercase hexadecimal form of a byte string.
pub open spec fn hex_of(s: Seq<u8>) -> Seq<char>
    decreases s.len(),
{
    if s.len() == 0 {
        Seq::empty()
    } else {
        hex_of_byte(s[0]) + hex_of(s.skip(1))
    }
}

/// A hexadecimal digit of either case.
pub open spec fn is_hex_digit(c: char) -> bool {
    let u = c as u32;
    (48 <= u && u <= 57) || (97 <= u && u <= 102) || (65 <= u && u <= 70)
}

/// The value of a hexadecimal digit of either case.
pub open spec fn hex_digit_val(c: char) -> nat {
    let u = c as u32;
    if 48 <= u && u <= 57 {
        (u - 48) as nat
    } else if 97 <= u && u <= 102 {
        (u - 87) as nat
    } else if 65 <= u && u <= 70 {
        (u - 55) as nat
    } else {
        0
    }
}

/// A decodable hex string: even length, hex digits throughout.
pub open spec fn valid_hex(s: Seq<char>) -> bool {
    s.len() % 2 == 0 && (forall|i: int| 0 <= i < s.len() ==> is_hex_digit(#[trigger] s[i]))
}

/// The bytes a hex string decodes to, two digits a byte, high nibble first.
pub open spec fn bytes_of_hex(s: Seq<char>) -> Seq<u8>
    decreases s.len(),
{
    if s.len() < 2 {
        Seq::empty()
    } else {
        seq![(hex_digit_val(s[0]) * 16 + hex_digit_val(s[1])) as u8] + bytes_of_hex(s.skip(2))
    }
}

/// The number a string of hex digits denotes, most significant first.
pub open spec fn hex_num_val(s: Seq<char>) -> nat
    decreases s.len(),
{
    if s.len() == 0 {
        0
    } else {
        16 * hex_num_val(s.drop_last()) + hex_digit_val(s.last())
    }
}

/// Hex digit characters are digits and read back as their value.
pub proof fn lemma_hex_char(v: nat)
    requires
        v < 16,
    ensures
        is_hex_digit(hex_char_of(v)),
        hex_digit_val(hex_char_of(v)) == v,
{
}

/// The hex form of a byte string is valid hex and decodes to the bytes.
pub proof fn lemma_hex_round_trip(s: Seq<u8>)
    ensures
        valid_hex(hex_of(s)),
        bytes_of_hex(hex_of(s)) == s,
    decreases s.len(),
{
    if s.len() == 0 {
        assert(bytes_of_hex(hex_of(s)) =~= s);
    } else {
        let b = s[0];
        let h = hex_of(s);
        let rest = hex_of(s.skip(1));
        lemma_hex_round_trip(s.skip(1));
        lemma_fundamental_div_mod(b as int, 16);
        lemma_multiply_divide_lt(b as int, 16, 16);
        lemma_hex_char((b as nat) / 16);
        lemma_hex_char((b as nat) % 16);
        assert(h.skip(2) =~= rest);
        assert forall|i: int| 0 <= i < h.len() implies is_hex_digit(#[trigger] h[i]) by {
            if i >= 2 {
                assert(h[i] == rest[i - 2]);
            }
        }
        assert(hex_digit_val(h[0]) * 16 + hex_digit_val(h[1]) == b) by (nonlinear_arith)
            requires
                hex_digit_val(h[0]) == (b as nat) / 16,
                hex_digit_val(h[1]) == (b as nat) % 16,
                b == 16 * ((b as int) / 16) + (b as int) % 16,
        ;
        assert(bytes_of_hex(h) =~= s);
    }
}

/// Relies on `hex::encode`: the lowercase hexadecimal form of the bytes,
/// two digits a byte, in order.
#[verifier::external_body]
pub(crate) fn hex_encode(b: &Vec<u8>) -> (r: String)
    ensures
        r@ == hex_of(b@),
{
    hex::encode(b)
}

/// Relies on `hex::decode`: succeeds exactly on even-length strings of hex
/// digits of either case, pairing digits into bytes high nibble first, and
/// fails on anything else.
#[verifier::external_body]
pub(crate) fn hex_decode(s: &str) -> (r: Option<Vec<u8>>)
    ensures
        match r {
            Some(b) => valid_hex(s@) && b@ == bytes_of_hex(s@),
            None => !valid_hex(s@),
        },
{
    match hex::decode(s) {
        Ok(v) => Some(v),
        Err(_) => None,
    }
}

/// Read one hexadecimal digit of either case.
fn hex_digit(c: char) -> (r: Option<u8>)
    ensures
        match r {
            Some(v) => is_hex_digit(c) && v == hex_digit_val(c) && v < 16,
            None => !is_hex_digit(c),
        },
{
    let u = c as u32;
    if 48 <= u && u <= 57 {
        Some((u - 48) as u8)
    } else if 97 <= u && u <= 102 {
        Some((u - 87) as u8)
    } else if 65 <= u && u <= 70 {
        Some((u - 55) as u8)
    } else {
        None
    }
}

impl Num {
    /// Read a number from hexadecimal digits of either case, most
    /// significant first; the empty string reads as zero.
    pub fn from_hex(s: &str) -> (r: Option<Num>)
        ensures
            match r {
                Some(n) => (forall|i: int| 0 <= i < s@.len() ==> is_hex_digit(#[trigger] s@[i]))
                    && n@ == hex_num_val(s@),
                None => !(forall|i: int|
                    0 <= i < s@.len() ==> is_hex_digit(#[trigger] s@[i])),
            },
    {
        let n = s.unicode_len();
        let sixteen = Num::from_u8(16);
        let mut acc = Num::from_u8(0);
        let mut i: usize = 0;
        proof {
            assert(s@.take(0) =~= Seq::<char>::empty());
        }
        while i < n
            invariant
                n == s@.len(),
                i <= n,
                sixteen@ == 16,
                forall|j: int| 0 <= j < i ==> is_hex_digit(#[trigger] s@[j]),
                acc@ == hex_num_val(s@.take(i as int)),
            decreases n - i,
        {
            let c = s.get_char(i);
            match hex_digit(c) {
                None => {
                    return None;
                },
                Some(v) => {
                    let t = big_mul(&acc, &sixteen);
                    let vn = Num::from_u8(v);
                    acc = big_add(&t, &vn);
                    proof {
                        assert(s@.take(i + 1).drop_last() =~= s@.take(i as int));
                        assert(s@.take(i + 1).last() == s@[i as int]);
                    }
                    i += 1;
                },
            }
        }
        proof {
            assert(s@.take(n as int) =~= s@);
        }
        Some(acc)
    }
}

/// Write the `w`-byte big-endian encoding of `x` onto `out`.
pub(crate) fn push_be_bytes(out: &mut Vec<u8>, x: &Num, w: usize)
    requires
        w >= 1,
        x@ < pow256(w as nat),
    ensures
        final(out)@ == old(out)@ + be_bytes(x@, w as nat),
{
    proof {
        use_type_invariant(x);
        lemma_num_wf(*x);
    }
    let xb = x.borrow_bytes();
    let n = xb.len();
    proof {
        if n > w {
            lemma_nat_of_lower(x.spec_bytes());
            lemma_pow256_increases(w as nat, (n - 1) as nat);
        }
    }
    let zeros: usize = w - n;
    let mut i: usize = 0;
    while i < zeros
        invariant
            i <= zeros,
            out@ == old(out)@ + Seq::new(i as nat, |k: int| 0u8),
        decreases zeros - i,
    {
        out.push(0u8);
        proof {
            assert(out@ =~= old(out)@ + Seq::new((i + 1) as nat, |k: int| 0u8));
        }
        i += 1;
    }
    let mut j: usize = 0;
    while j < n
        invariant
            j <= n,
            n == xb@.len(),
            xb@ == x.spec_bytes(),
            out@ == old(out)@ + Seq::new(zeros as nat, |k: int| 0u8) + xb@.subrange(0, j as int),
        decreases n - j,
    {
        out.push(xb[j]);
        proof {
            assert(out@ =~= old(out)@ + Seq::new(zeros as nat, |k: int| 0u8) + xb@.subrange(
                0,
                j + 1,
            ));
        }
        j += 1;
    }
    proof {
        assert(xb@.subrange(0, n as int) =~= xb@);
        lemma_be_bytes_pad(x.spec_bytes(), w as nat);
        assert(out@ =~= old(out)@ + (Seq::new(zeros as nat, |k: int| 0u8) + xb@));
    }
}

} // verus!
