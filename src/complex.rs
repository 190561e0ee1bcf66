use vstd::arithmetic::mul::{
    lemma_mul_is_associative, lemma_mul_is_commutative, lemma_mul_is_distributive_add,
    lemma_mul_is_distributive_add_other_way, lemma_mul_is_distributive_sub,
    lemma_mul_is_distributive_sub_other_way,
};
use vstd::prelude::*;

verus! {

/// A complex number with integer parts, as proofs see it.
pub struct CInt {
    pub re: int,
    pub im: int,
}

pub open spec fn c_zero() -> CInt {
    CInt { re: 0, im: 0 }
}

pub open spec fn c_one() -> CInt {
    CInt { re: 1, im: 0 }
}

pub open spec fn c_add(a: CInt, b: CInt) -> CInt {
    CInt { re: a.re + b.re, im: a.im + b.im }
}

pub open spec fn c_sub(a: CInt, b: CInt) -> CInt {
    CInt { re: a.re - b.re, im: a.im - b.im }
}

pub open spec fn c_mul(a: CInt, b: CInt) -> CInt {
    CInt { re: a.re * b.re - a.im * b.im, im: a.re * b.im + a.im * b.re }
}

pub open spec fn c_conj(a: CInt) -> CInt {
    CInt { re: a.re, im: -a.im }
}

/// Squared modulus `|a|^2`.
pub open spec fn c_norm_sq(a: CInt) -> int {
    a.re * a.re + a.im * a.im
}

pub open spec fn fits_i32(x: int) -> bool {
    i32::MIN <= x <= i32::MAX
}

/// Both parts of `a` can be stored in a `Cx`.
pub open spec fn c_fits(a: CInt) -> bool {
    fits_i32(a.re) && fits_i32(a.im)
}

/// A complex number whose real and imaginary parts are 32-bit integers.
#[derive(Clone, Copy, Debug, PartialEq, Eq, Structural)]
pub struct Cx {
    pub re: i32,
    pub im: i32,
}

impl View for Cx {
    type V = CInt;

    open spec fn view(&self) -> CInt {
        CInt { re: self.re as int, im: self.im as int }
    }
}

pub proof fn lemma_mul_one(a: CInt)
    ensures
        c_mul(c_one(), a) == a,
        c_mul(a, c_one()) == a,
{
}

pub proof fn lemma_mul_zero(a: CInt)
    ensures
        c_mul(c_zero(), a) == c_zero(),
        c_mul(a, c_zero()) == c_zero(),
{
}

pub proof fn lemma_mul_assoc(a: CInt, b: CInt, c: CInt)
    ensures
        c_mul(c_mul(a, b), c) == c_mul(a, c_mul(b, c)),
{
    let (ar, ai, br, bi, cr, ci) = (a.re, a.im, b.re, b.im, c.re, c.im);
    lemma_mul_is_distributive_sub_other_way(cr, ar * br, ai * bi);
    lemma_mul_is_distributive_add_other_way(ci, ar * bi, ai * br);
    lemma_mul_is_distributive_sub_other_way(ci, ar * br, ai * bi);
    lemma_mul_is_distributive_add_other_way(cr, ar * bi, ai * br);
    lemma_mul_is_distributive_sub(ar, br * cr, bi * ci);
    lemma_mul_is_distributive_add(ai, br * ci, bi * cr);
    lemma_mul_is_distributive_add(ar, br * ci, bi * cr);
    lemma_mul_is_distributive_sub(ai, br * cr, bi * ci);
    lemma_mul_is_associative(ar, br, cr);
    lemma_mul_is_associative(ai, bi, cr);
    lemma_mul_is_associative(ar, bi, ci);
    lemma_mul_is_associative(ai, br, ci);
    lemma_mul_is_associative(ar, br, ci);
    lemma_mul_is_associative(ai, bi, ci);
    lemma_mul_is_associative(ar, bi, cr);
    lemma_mul_is_associative(ai, br, cr);
}

pub proof fn lemma_mul_comm(a: CInt, b: CInt)
    ensures
        c_mul(a, b) == c_mul(b, a),
{
    lemma_mul_is_commutative(a.re, b.re);
    lemma_mul_is_commutative(a.im, b.im);
    lemma_mul_is_commutative(a.re, b.im);
    lemma_mul_is_commutative(a.im, b.re);
}

pub proof fn lemma_mul_distributes(a: CInt, b: CInt, c: CInt)
    ensures
        c_mul(a, c_add(b, c)) == c_add(c_mul(a, b), c_mul(a, c)),
        c_mul(c_add(b, c), a) == c_add(c_mul(b, a), c_mul(c, a)),
{
    lemma_mul_is_distributive_add(a.re, b.re, c.re);
    lemma_mul_is_distributive_add(a.im, b.im, c.im);
    lemma_mul_is_distributive_add(a.re, b.im, c.im);
    lemma_mul_is_distributive_add(a.im, b.re, c.re);
    lemma_mul_is_distributive_add_other_way(a.re, b.re, c.re);
    lemma_mul_is_distributive_add_other_way(a.im, b.im, c.im);
    lemma_mul_is_distributive_add_other_way(a.re, b.im, c.im);
    lemma_mul_is_distributive_add_other_way(a.im, b.re, c.re);
}

/// The real part of `a * conj(a)` is `|a|^2`.
pub proof fn lemma_mul_conj(a: CInt)
    ensures
        c_mul(a, c_conj(a)).re == c_norm_sq(a),
{
    assert(a.re * a.re - a.im * (-a.im) == a.re * a.re + a.im * a.im) by (nonlinear_arith);
}

/// `conj(a * conj(b)) == b * conj(a)`.
pub proof fn lemma_conj_of_mul_conj(a: CInt, b: CInt)
    ensures
        c_conj(c_mul(a, c_conj(b))) == c_mul(b, c_conj(a)),
{
    lemma_mul_is_commutative(a.re, b.re);
    lemma_mul_is_commutative(a.im, b.im);
    lemma_mul_is_commutative(a.re, b.im);
    lemma_mul_is_commutative(a.im, b.re);
    assert(a.re * (-b.im) == -(a.re * b.im)) by (nonlinear_arith);
    assert(a.im * (-b.im) == -(a.im * b.im)) by (nonlinear_arith);
    assert(b.re * (-a.im) == -(b.re * a.im)) by (nonlinear_arith);
    assert(b.im * (-a.im) == -(b.im * a.im)) by (nonlinear_arith);
}

/// The squared modulus is multiplicative.
pub proof fn lemma_norm_sq_mul(a: CInt, b: CInt)
    ensures
        c_norm_sq(c_mul(a, b)) == c_norm_sq(a) * c_norm_sq(b),
{
    let (ar, ai, br, bi) = (a.re, a.im, b.re, b.im);
    let (x, y, z, w) = (ar * br, ai * bi, ar * bi, ai * br);
    assert((x - y) * (x - y) == x * x - 2 * (x * y) + y * y) by (nonlinear_arith);
    assert((z + w) * (z + w) == z * z + 2 * (z * w) + w * w) by (nonlinear_arith);
    assert(x * y == z * w) by {
        lemma_mul_is_associative(ar * br, ai, bi);
        lemma_mul_is_associative(ar, br, ai);
        lemma_mul_is_commutative(br, ai);
        lemma_mul_is_associative(ar, ai, br);
        lemma_mul_is_associative(ar * ai, br, bi);
        lemma_mul_is_commutative(br, bi);
        lemma_mul_is_associative(ar * ai, bi, br);
        lemma_mul_is_associative(ar, ai, bi);
        lemma_mul_is_commutative(ai, bi);
        lemma_mul_is_associative(ar, bi, ai);
        lemma_mul_is_associative(ar * bi, ai, br);
    }
    let (p, q, r, t) = (ar * ar, ai * ai, br * br, bi * bi);
    assert((p + q) * (r + t) == p * r + p * t + q * r + q * t) by (nonlinear_arith);
    assert(x * x == p * r) by (nonlinear_arith)
        requires
            x == ar * br,
            p == ar * ar,
            r == br * br,
    ;
    assert(y * y == q * t) by (nonlinear_arith)
        requires
            y == ai * bi,
            q == ai * ai,
            t == bi * bi,
    ;
    assert(z * z == p * t) by (nonlinear_arith)
        requires
            z == ar * bi,
            p == ar * ar,
            t == bi * bi,
    ;
    assert(w * w == q * r) by (nonlinear_arith)
        requires
            w == ai * br,
            q == ai * ai,
            r == br * br,
    ;
}

/// Bound on one part of a product of 32-bit parts.
proof fn lemma_part_product_bound(x: int, y: int)
    requires
        fits_i32(x),
        fits_i32(y),
    ensures
        -0x4000_0000_0000_0000 <= x * y <= 0x4000_0000_0000_0000,
{
    assert(-0x4000_0000_0000_0000 <= x * y <= 0x4000_0000_0000_0000) by (nonlinear_arith)
        requires
            -0x8000_0000 <= x <= 0x7fff_ffff,
            -0x8000_0000 <= y <= 0x7fff_ffff,
    ;
}

/// Each part of the product of two storable numbers lies within `2^63`.
pub proof fn lemma_product_bound(a: CInt, b: CInt)
    requires
        c_fits(a),
        c_fits(b),
    ensures
        -0x8000_0000_0000_0000 <= c_mul(a, b).re <= 0x8000_0000_0000_0000,
        -0x8000_0000_0000_0000 <= c_mul(a, b).im <= 0x8000_0000_0000_0000,
{
    lemma_part_product_bound(a.re, b.re);
    lemma_part_product_bound(a.im, b.im);
    lemma_part_product_bound(a.re, b.im);
    lemma_part_product_bound(a.im, b.re);
}

/// The exact product of two numbers, with both parts widened to 128 bits.
pub fn mul_wide(a: Cx, b: Cx) -> (r: (i128, i128))
    ensures
        r.0 == c_mul(a@, b@).re,
        r.1 == c_mul(a@, b@).im,
{
    proof {
        lemma_product_bound(a@, b@);
        lemma_part_product_bound(a.re as int, b.re as int);
        lemma_part_product_bound(a.im as int, b.im as int);
        lemma_part_product_bound(a.re as int, b.im as int);
        lemma_part_product_bound(a.im as int, b.re as int);
    }
    let re = (a.re as i128) * (b.re as i128) - (a.im as i128) * (b.im as i128);
    let im = (a.re as i128) * (b.im as i128) + (a.im as i128) * (b.re as i128);
    (re, im)
}

/// The exact product `a * conj(b)`, with both parts widened to 128 bits.
pub fn mul_conj_wide(a: Cx, b: Cx) -> (r: (i128, i128))
    ensures
        r.0 == c_mul(a@, c_conj(b@)).re,
        r.1 == c_mul(a@, c_conj(b@)).im,
{
    proof {
        lemma_part_product_bound(a.re as int, b.re as int);
        lemma_part_product_bound(a.im as int, b.im as int);
        lemma_part_product_bound(a.re as int, b.im as int);
        lemma_part_product_bound(a.im as int, b.re as int);
        assert((a.im as int) * (-(b.im as int)) == -((a.im as int) * (b.im as int))) by (nonlinear_arith);
        assert((a.re as int) * (-(b.im as int)) == -((a.re as int) * (b.im as int))) by (nonlinear_arith);
    }
    let re = (a.re as i128) * (b.re as i128) + (a.im as i128) * (b.im as i128);
    let im = (a.im as i128) * (b.re as i128) - (a.re as i128) * (b.im as i128);
    (re, im)
}

/// Stores a pair of exact parts as a `Cx`, if both fit.
pub fn narrow(re: i128, im: i128) -> (r: Option<Cx>)
    ensures
        r is Some <==> c_fits(CInt { re: re as int, im: im as int }),
        r matches Some(z) ==> z@ == (CInt { re: re as int, im: im as int }),
{
    if i32::MIN as i128 <= re && re <= i32::MAX as i128 && i32::MIN as i128 <= im && im
        <= i32::MAX as i128 {
        Some(Cx { re: re as i32, im: im as i32 })
    } else {
        None
    }
}

/// The product `a * b`, or `None` where a part does not fit in 32 bits.
pub fn checked_mul(a: Cx, b: Cx) -> (r: Option<Cx>)
    ensures
        r is Some <==> c_fits(c_mul(a@, b@)),
        r matches Some(z) ==> z@ == c_mul(a@, b@),
{
    let (re, im) = mul_wide(a, b);
    narrow(re, im)
}

/// The conjugate of `a`, or `None` where the imaginary part is `i32::MIN`.
pub fn checked_conj(a: Cx) -> (r: Option<Cx>)
    ensures
        r is Some <==> c_fits(c_conj(a@)),
        r matches Some(z) ==> z@ == c_conj(a@),
{
    if a.im == i32::MIN {
        None
    } else {
        Some(Cx { re: a.re, im: -a.im })
    }
}

} // verus!
