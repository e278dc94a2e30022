//! Field arithmetic modulo a prime `p`: addition, subtraction,
//! multiplication and the Fermat inverse, all normalized into `[0, p)`.

use vstd::arithmetic::div_mod::{
    lemma_mod_add_multiples_vanish, lemma_mod_bound, lemma_small_mod,
};
use vstd::arithmetic::power::pow;
use vstd::prelude::*;

use crate::num::{big_add, big_modpow, big_mul, big_rem, big_sub, Num};

verus! {

/// `x^(p-2) mod p`: the multiplicative inverse of `x` modulo a prime `p`,
/// by Fermat's little theorem; `0` maps to `0`.
pub open spec fn fe_inverse(x: nat, p: nat) -> nat
    recommends
        p >= 2,
{
    (pow(x as int, (p - 2) as nat) % (p as int)) as nat
}

/// `(x + y) mod p`.
pub fn fe_add(x: &Num, y: &Num, p: &Num) -> (r: Num)
    requires
        p@ > 0,
    ensures
        r@ == (x@ + y@) % p@,
        r@ < p@,
{
    let s = big_add(x, y);
    let r = big_rem(&s, p);
    proof {
        lemma_mod_bound(s@ as int, p@ as int);
    }
    r
}

/// `(x * y) mod p`.
pub fn fe_mul(x: &Num, y: &Num, p: &Num) -> (r: Num)
    requires
        p@ > 0,
    ensures
        r@ == (x@ * y@) % p@,
        r@ < p@,
{
    let s = big_mul(x, y);
    let r = big_rem(&s, p);
    proof {
        lemma_mod_bound(s@ as int, p@ as int);
    }
    r
}

/// `(x - y) mod p`, for field elements `x, y` in `[0, p)`.
pub fn fe_sub(x: &Num, y: &Num, p: &Num) -> (r: Num)
    requires
        x@ < p@,
        y@ < p@,
    ensures
        r@ as int == (x@ - y@) % (p@ as int),
        r@ < p@,
{
    let t = big_add(x, p);
    let u = big_sub(&t, y);
    let r = big_rem(&u, p);
    proof {
        assert(u@ as int == p@ + (x@ - y@));
        lemma_mod_add_multiples_vanish(x@ - y@, p@ as int);
        lemma_mod_bound(u@ as int, p@ as int);
    }
    r
}

/// `(-y) mod p`, for a field element `y` in `[0, p)`.
pub fn fe_neg(y: &Num, p: &Num) -> (r: Num)
    requires
        y@ < p@,
    ensures
        r@ as int == (0 - y@ as int) % (p@ as int),
        r@ < p@,
{
    if y.is_zero() {
        let r = Num::from_u8(0);
        proof {
            lemma_small_mod(0, p@);
        }
        r
    } else {
        let r = big_sub(p, y);
        proof {
            lemma_mod_add_multiples_vanish(0 - y@ as int, p@ as int);
            lemma_small_mod((p@ - y@) as nat, p@);
        }
        r
    }
}

/// `x^(p-2) mod p`, the Fermat inverse.
pub fn fe_inv(x: &Num, p: &Num) -> (r: Num)
    requires
        p@ >= 2,
    ensures
        r@ == fe_inverse(x@, p@),
        r@ < p@,
{
    let two = Num::from_u8(2);
    let e = big_sub(p, &two);
    let r = big_modpow(x, &e, p);
    proof {
        assert(e@ == p@ - 2);
        lemma_mod_bound(pow(x@ as int, e@), p@ as int);
    }
    r
}

} // verus!
