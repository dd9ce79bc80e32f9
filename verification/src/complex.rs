//! Exact complex amplitudes.
//!
//! An amplitude is a cyclotomic integer `a + b*w + c*w^2 + d*w^3` with
//! `w = e^(i*pi/4)`, so `w^2 = i` and `w^4 = -1`.  Each supported gate has all
//! its matrix entries in this ring once the matrix is scaled by a positive
//! real factor (`sqrt(2)` for the Hadamard gate), and a state vector over the
//! ring determines the physical state as its unit-norm scaling.  The squared
//! magnitude of an amplitude is `p + q*sqrt(2)` with the integers `p`, `q`
//! given by `c_norm_p` and `c_norm_q`.

use vstd::prelude::*;
use crate::bigint::big_value;
use crate::bigint::big_from_i64;
use crate::bigint::big_add;
use crate::bigint::big_sub;
use crate::bigint::big_mul;
use crate::bigint::big_is_even;
use crate::bigint::big_half;
use crate::bigint::big_is_zero;
use crate::bigint::big_clone;

verus! {

/// The mathematical value of an amplitude: coordinates over the basis
/// `1, w, w^2, w^3`.
pub ghost struct C4 {
    pub a: int,
    pub b: int,
    pub c: int,
    pub d: int,
}

pub open spec fn c_zero() -> C4 {
    C4 { a: 0, b: 0, c: 0, d: 0 }
}

pub open spec fn c_one() -> C4 {
    C4 { a: 1, b: 0, c: 0, d: 0 }
}

/// The eighth root of unity `w` itself.
pub open spec fn c_omega() -> C4 {
    C4 { a: 0, b: 1, c: 0, d: 0 }
}

/// The imaginary unit `i = w^2`.
pub open spec fn c_imag() -> C4 {
    C4 { a: 0, b: 0, c: 1, d: 0 }
}

pub open spec fn c_neg(x: C4) -> C4 {
    C4 { a: -x.a, b: -x.b, c: -x.c, d: -x.d }
}

pub open spec fn c_add(x: C4, y: C4) -> C4 {
    C4 { a: x.a + y.a, b: x.b + y.b, c: x.c + y.c, d: x.d + y.d }
}

/// Ring product; the reduction rule is `w^4 = -1`.
pub open spec fn c_mul(x: C4, y: C4) -> C4 {
    C4 {
        a: x.a * y.a - x.b * y.d - x.c * y.c - x.d * y.b,
        b: x.a * y.b + x.b * y.a - x.c * y.d - x.d * y.c,
        c: x.a * y.c + x.b * y.b + x.c * y.a - x.d * y.d,
        d: x.a * y.d + x.b * y.c + x.c * y.b + x.d * y.a,
    }
}

pub open spec fn c_scale(k: int, x: C4) -> C4 {
    C4 { a: k * x.a, b: k * x.b, c: k * x.c, d: k * x.d }
}

/// Exact half of an amplitude with even coordinates.
pub open spec fn c_half(x: C4) -> C4 {
    C4 { a: x.a / 2, b: x.b / 2, c: x.c / 2, d: x.d / 2 }
}

pub open spec fn c_even(x: C4) -> bool {
    x.a % 2 == 0 && x.b % 2 == 0 && x.c % 2 == 0 && x.d % 2 == 0
}

/// Rational part of the squared magnitude `|x|^2 = p + q*sqrt(2)`.
pub open spec fn c_norm_p(x: C4) -> int {
    x.a * x.a + x.b * x.b + x.c * x.c + x.d * x.d
}

/// Coefficient of `sqrt(2)` in the squared magnitude.
pub open spec fn c_norm_q(x: C4) -> int {
    x.a * x.b + x.b * x.c + x.c * x.d - x.d * x.a
}

/// The units of the ring that appear as gate-matrix entries: `+-w^k`.
pub open spec fn c_is_unit(u: C4) -> bool {
    ||| u == c_one()
    ||| u == c_neg(c_one())
    ||| u == c_omega()
    ||| u == c_neg(c_omega())
    ||| u == c_imag()
    ||| u == c_neg(c_imag())
    ||| u == (C4 { a: 0, b: 0, c: 0, d: 1 })
    ||| u == (C4 { a: 0, b: 0, c: 0, d: -1 })
}

pub proof fn lemma_c_add_zero(x: C4)
    ensures
        c_add(x, c_zero()) == x,
        c_add(c_zero(), x) == x,
{
}

pub proof fn lemma_c_mul_one(x: C4)
    ensures
        c_mul(c_one(), x) == x,
        c_mul(x, c_one()) == x,
{
}

pub proof fn lemma_c_mul_zero(x: C4)
    ensures
        c_mul(x, c_zero()) == c_zero(),
        c_mul(c_zero(), x) == c_zero(),
{
}

/// Negating the left factor negates the product.
pub proof fn lemma_c_mul_neg_left(x: C4, y: C4)
    ensures
        c_mul(c_neg(x), y) == c_neg(c_mul(x, y)),
{
    assert((-x.a) * y.a - (-x.b) * y.d - (-x.c) * y.c - (-x.d) * y.b == -(x.a * y.a - x.b * y.d
        - x.c * y.c - x.d * y.b)) by (nonlinear_arith);
    assert((-x.a) * y.b + (-x.b) * y.a - (-x.c) * y.d - (-x.d) * y.c == -(x.a * y.b + x.b * y.a
        - x.c * y.d - x.d * y.c)) by (nonlinear_arith);
    assert((-x.a) * y.c + (-x.b) * y.b + (-x.c) * y.a - (-x.d) * y.d == -(x.a * y.c + x.b * y.b
        + x.c * y.a - x.d * y.d)) by (nonlinear_arith);
    assert((-x.a) * y.d + (-x.b) * y.c + (-x.c) * y.b + (-x.d) * y.a == -(x.a * y.d + x.b * y.c
        + x.c * y.b + x.d * y.a)) by (nonlinear_arith);
}

/// Scaling distributes over addition.
pub proof fn lemma_c_scale_add(s: int, x: C4, y: C4)
    ensures
        c_scale(s, c_add(x, y)) == c_add(c_scale(s, x), c_scale(s, y)),
{
    assert(s * (x.a + y.a) == s * x.a + s * y.a) by (nonlinear_arith);
    assert(s * (x.b + y.b) == s * x.b + s * y.b) by (nonlinear_arith);
    assert(s * (x.c + y.c) == s * x.c + s * y.c) by (nonlinear_arith);
    assert(s * (x.d + y.d) == s * x.d + s * y.d) by (nonlinear_arith);
}

/// A scalar factor moves through the ring product.
pub proof fn lemma_c_mul_scale_right(x: C4, s: int, y: C4)
    ensures
        c_mul(x, c_scale(s, y)) == c_scale(s, c_mul(x, y)),
{
    lemma_mul_pull_scale(x.a, s, y.a);
    lemma_mul_pull_scale(x.a, s, y.b);
    lemma_mul_pull_scale(x.a, s, y.c);
    lemma_mul_pull_scale(x.a, s, y.d);
    lemma_mul_pull_scale(x.b, s, y.a);
    lemma_mul_pull_scale(x.b, s, y.b);
    lemma_mul_pull_scale(x.b, s, y.c);
    lemma_mul_pull_scale(x.b, s, y.d);
    lemma_mul_pull_scale(x.c, s, y.a);
    lemma_mul_pull_scale(x.c, s, y.b);
    lemma_mul_pull_scale(x.c, s, y.c);
    lemma_mul_pull_scale(x.c, s, y.d);
    lemma_mul_pull_scale(x.d, s, y.a);
    lemma_mul_pull_scale(x.d, s, y.b);
    lemma_mul_pull_scale(x.d, s, y.c);
    lemma_mul_pull_scale(x.d, s, y.d);
    lemma_scale_spread(s, x.a * y.a, x.b * y.d, x.c * y.c, x.d * y.b);
    lemma_scale_spread(s, x.a * y.b, x.b * y.a, x.c * y.d, x.d * y.c);
    lemma_scale_spread(s, x.a * y.c, x.b * y.b, x.c * y.a, x.d * y.d);
    lemma_scale_spread(s, x.a * y.d, x.b * y.c, x.c * y.b, x.d * y.a);
}

proof fn lemma_mul_pull_scale(x: int, s: int, y: int)
    ensures
        x * (s * y) == s * (x * y),
{
    assert(x * (s * y) == s * (x * y)) by (nonlinear_arith);
}

proof fn lemma_scale_spread(s: int, t1: int, t2: int, t3: int, t4: int)
    ensures
        s * (t1 - t2 - t3 - t4) == s * t1 - s * t2 - s * t3 - s * t4,
        s * (t1 + t2 - t3 - t4) == s * t1 + s * t2 - s * t3 - s * t4,
        s * (t1 + t2 + t3 - t4) == s * t1 + s * t2 + s * t3 - s * t4,
        s * (t1 + t2 + t3 + t4) == s * t1 + s * t2 + s * t3 + s * t4,
{
    assert(s * (t1 - t2 - t3 - t4) == s * t1 - s * t2 - s * t3 - s * t4) by (nonlinear_arith);
    assert(s * (t1 + t2 - t3 - t4) == s * t1 + s * t2 - s * t3 - s * t4) by (nonlinear_arith);
    assert(s * (t1 + t2 + t3 - t4) == s * t1 + s * t2 + s * t3 - s * t4) by (nonlinear_arith);
    assert(s * (t1 + t2 + t3 + t4) == s * t1 + s * t2 + s * t3 + s * t4) by (nonlinear_arith);
}

/// Multiplying by a unit permutes and negates coordinates, so it preserves
/// being zero and preserves having all coordinates even.
pub proof fn lemma_unit_mul(u: C4, z: C4)
    requires
        c_is_unit(u),
    ensures
        (c_mul(u, z) == c_zero()) == (z == c_zero()),
        c_even(c_mul(u, z)) == c_even(z),
{
    let w = c_mul(u, z);
    if u == c_one() {
        assert(w == z);
    } else if u == c_neg(c_one()) {
        lemma_c_mul_neg_left(c_one(), z);
        assert(w == C4 { a: -z.a, b: -z.b, c: -z.c, d: -z.d });
    } else if u == c_omega() {
        assert(w == C4 { a: -z.d, b: z.a, c: z.b, d: z.c });
    } else if u == c_neg(c_omega()) {
        lemma_c_mul_neg_left(c_omega(), z);
        assert(w == C4 { a: z.d, b: -z.a, c: -z.b, d: -z.c });
    } else if u == c_imag() {
        assert(w == C4 { a: -z.c, b: -z.d, c: z.a, d: z.b });
    } else if u == c_neg(c_imag()) {
        lemma_c_mul_neg_left(c_imag(), z);
        assert(w == C4 { a: z.c, b: z.d, c: -z.a, d: -z.b });
    } else if u == (C4 { a: 0, b: 0, c: 0, d: 1 }) {
        assert(w == C4 { a: -z.b, b: -z.c, c: -z.d, d: z.a });
    } else {
        assert(u == C4 { a: 0, b: 0, c: 0, d: -1 });
        lemma_c_mul_neg_left(C4 { a: 0, b: 0, c: 0, d: 1 }, z);
        assert(w == C4 { a: z.b, b: z.c, c: z.d, d: -z.a });
    }
}

/// Denominator of the rational approximation used for sampling weights.
pub const WEIGHT_ONE: i64 = 1_000_000_000_000;

/// `floor(sqrt(2) * WEIGHT_ONE)`: the approximation of `sqrt(2)` is rounded
/// down, which keeps every weight strictly positive on nonzero amplitudes.
pub const WEIGHT_SQRT2: i64 = 1_414_213_562_373;

/// Integer sampling weight of an amplitude: `|x|^2 * WEIGHT_ONE`, with
/// `sqrt(2)` replaced by `WEIGHT_SQRT2 / WEIGHT_ONE`.
pub open spec fn c_weight(x: C4) -> int {
    c_norm_p(x) * (WEIGHT_ONE as int) + c_norm_q(x) * (WEIGHT_SQRT2 as int)
}

/// The squared magnitude `p + q*sqrt(2)` of a nonzero amplitude is strictly
/// positive: `p >= 1` and `p^2 >= 2*q^2`.
pub proof fn lemma_norm_sq_pos(z: C4)
    ensures
        c_norm_p(z) >= 0,
        z != c_zero() ==> c_norm_p(z) >= 1,
        z == c_zero() ==> c_norm_p(z) == 0 && c_norm_q(z) == 0,
        c_norm_p(z) * c_norm_p(z) >= 2 * (c_norm_q(z) * c_norm_q(z)),
{
    let a = z.a;
    let b = z.b;
    let c = z.c;
    let d = z.d;
    let p = c_norm_p(z);
    let q = c_norm_q(z);
    assert(a * a >= 0 && b * b >= 0 && c * c >= 0 && d * d >= 0) by (nonlinear_arith);
    assert(a != 0 ==> a * a >= 1) by (nonlinear_arith);
    assert(b != 0 ==> b * b >= 1) by (nonlinear_arith);
    assert(c != 0 ==> c * c >= 1) by (nonlinear_arith);
    assert(d != 0 ==> d * d >= 1) by (nonlinear_arith);
    lemma_lagrange(b, d, a + c, a - c);
    assert(q == b * (a + c) - d * (a - c)) by (nonlinear_arith)
        requires
            q == a * b + b * c + c * d - d * a,
    ;
    assert((a + c) * (a + c) + (a - c) * (a - c) == 2 * (a * a + c * c)) by (nonlinear_arith);
    assert(q * q <= (b * b + d * d) * (2 * (a * a + c * c)));
    lemma_sos_combine(q * q, a * a + c * c, b * b + d * d, p);
}

/// Lagrange's identity in two dimensions, as an inequality.
proof fn lemma_lagrange(b: int, d: int, u: int, v: int)
    ensures
        (b * u - d * v) * (b * u - d * v) <= (b * b + d * d) * (u * u + v * v),
{
    let s = b * u - d * v;
    let t = b * v + d * u;
    assert(s * s == (b * u) * (b * u) - 2 * ((b * u) * (d * v)) + (d * v) * (d * v))
        by (nonlinear_arith)
        requires
            s == b * u - d * v,
    ;
    assert(t * t == (b * v) * (b * v) + 2 * ((b * v) * (d * u)) + (d * u) * (d * u))
        by (nonlinear_arith)
        requires
            t == b * v + d * u,
    ;
    assert((b * u) * (b * u) == (b * b) * (u * u)) by (nonlinear_arith);
    assert((d * v) * (d * v) == (d * d) * (v * v)) by (nonlinear_arith);
    assert((b * v) * (b * v) == (b * b) * (v * v)) by (nonlinear_arith);
    assert((d * u) * (d * u) == (d * d) * (u * u)) by (nonlinear_arith);
    assert((b * u) * (d * v) == (b * v) * (d * u)) by (nonlinear_arith);
    assert((b * b + d * d) * (u * u + v * v) == (b * b) * (u * u) + (b * b) * (v * v) + (d * d) * (u
        * u) + (d * d) * (v * v)) by (nonlinear_arith);
    assert(t * t >= 0) by (nonlinear_arith);
    assert(s * s + t * t == (b * b + d * d) * (u * u + v * v));
}

/// From `qq <= y * (2x)` and `p == x + y` conclude `p^2 >= 2*qq`.
proof fn lemma_sos_combine(qq: int, x: int, y: int, p: int)
    requires
        x >= 0,
        y >= 0,
        qq <= y * (2 * x),
        p == x + y,
    ensures
        p * p >= 2 * qq,
{
    assert(y * (2 * x) == 2 * (x * y)) by (nonlinear_arith);
    assert(4 * (x * y) <= (x + y) * (x + y)) by (nonlinear_arith);
    assert(p * p == (x + y) * (x + y)) by (nonlinear_arith)
        requires
            p == x + y,
    ;
}

/// Weights are nonnegative, zero exactly on the zero amplitude, and at least
/// one otherwise.
pub proof fn lemma_weight_pos(z: C4)
    ensures
        z == c_zero() ==> c_weight(z) == 0,
        z != c_zero() ==> c_weight(z) >= 1,
        c_weight(z) >= 0,
{
    lemma_norm_sq_pos(z);
    lemma_weight_pos_arith(c_norm_p(z), c_norm_q(z));
}

/// Arithmetic core of `lemma_weight_pos`: a rational approximation of
/// `p + q*sqrt(2)` from below stays positive because the approximation of
/// `sqrt(2)` is rounded down.
proof fn lemma_weight_pos_arith(p: int, q: int)
    requires
        p >= 0,
        p * p >= 2 * (q * q),
    ensures
        p == 0 ==> p * (WEIGHT_ONE as int) + q * (WEIGHT_SQRT2 as int) == 0,
        p >= 1 ==> p * (WEIGHT_ONE as int) + q * (WEIGHT_SQRT2 as int) >= 1,
        p * (WEIGHT_ONE as int) + q * (WEIGHT_SQRT2 as int) >= 0,
{
    if p == 0 {
        assert(q == 0) by (nonlinear_arith)
            requires
                0 >= 2 * (q * q),
        ;
    } else {
        if q >= 0 {
            assert(p * 1000000000000 + q * 1414213562373 >= 1) by (nonlinear_arith)
                requires
                    p >= 1,
                    q >= 0,
            ;
        } else {
            assert(p * 1000000000000 + q * 1414213562373 >= 1) by (nonlinear_arith)
                requires
                    p >= 1,
                    q <= -1,
                    p * p >= 2 * (q * q),
            ;
        }
    }
}

/// An exec amplitude: the four cyclotomic-integer coordinates.
pub struct Amp {
    pub a: num::BigInt,
    pub b: num::BigInt,
    pub c: num::BigInt,
    pub d: num::BigInt,
}

impl View for Amp {
    type V = C4;

    open spec fn view(&self) -> C4 {
        C4 {
            a: big_value(self.a),
            b: big_value(self.b),
            c: big_value(self.c),
            d: big_value(self.d),
        }
    }
}

impl Amp {
    pub fn from_parts(a: i64, b: i64, c: i64, d: i64) -> (r: Amp)
        ensures
            r@ == (C4 { a: a as int, b: b as int, c: c as int, d: d as int }),
    {
        Amp { a: big_from_i64(a), b: big_from_i64(b), c: big_from_i64(c), d: big_from_i64(d) }
    }

    pub fn zero() -> (r: Amp)
        ensures
            r@ == c_zero(),
    {
        Amp::from_parts(0, 0, 0, 0)
    }

    pub fn one() -> (r: Amp)
        ensures
            r@ == c_one(),
    {
        Amp::from_parts(1, 0, 0, 0)
    }

    pub fn dup(&self) -> (r: Amp)
        ensures
            r@ == self@,
    {
        Amp {
            a: big_clone(&self.a),
            b: big_clone(&self.b),
            c: big_clone(&self.c),
            d: big_clone(&self.d),
        }
    }

    pub fn add(&self, other: &Amp) -> (r: Amp)
        ensures
            r@ == c_add(self@, other@),
    {
        Amp {
            a: big_add(&self.a, &other.a),
            b: big_add(&self.b, &other.b),
            c: big_add(&self.c, &other.c),
            d: big_add(&self.d, &other.d),
        }
    }

    pub fn mul(&self, other: &Amp) -> (r: Amp)
        ensures
            r@ == c_mul(self@, other@),
    {
        let aa = big_mul(&self.a, &other.a);
        let bd = big_mul(&self.b, &other.d);
        let cc = big_mul(&self.c, &other.c);
        let db = big_mul(&self.d, &other.b);
        let ab = big_mul(&self.a, &other.b);
        let ba = big_mul(&self.b, &other.a);
        let cd = big_mul(&self.c, &other.d);
        let dc = big_mul(&self.d, &other.c);
        let ac = big_mul(&self.a, &other.c);
        let bb = big_mul(&self.b, &other.b);
        let ca = big_mul(&self.c, &other.a);
        let dd = big_mul(&self.d, &other.d);
        let ad = big_mul(&self.a, &other.d);
        let bc = big_mul(&self.b, &other.c);
        let cb = big_mul(&self.c, &other.b);
        let da = big_mul(&self.d, &other.a);
        Amp {
            a: big_sub(&big_sub(&big_sub(&aa, &bd), &cc), &db),
            b: big_sub(&big_sub(&big_add(&ab, &ba), &cd), &dc),
            c: big_sub(&big_add(&big_add(&ac, &bb), &ca), &dd),
            d: big_add(&big_add(&big_add(&ad, &bc), &cb), &da),
        }
    }

    pub fn is_zero(&self) -> (r: bool)
        ensures
            r == (self@ == c_zero()),
    {
        let r = big_is_zero(&self.a) && big_is_zero(&self.b) && big_is_zero(&self.c)
            && big_is_zero(&self.d);
        proof {
            if r {
                assert(self@ == c_zero());
            }
        }
        r
    }

    pub fn is_even(&self) -> (r: bool)
        ensures
            r == c_even(self@),
    {
        big_is_even(&self.a) && big_is_even(&self.b) && big_is_even(&self.c)
            && big_is_even(&self.d)
    }

    pub fn half(&self) -> (r: Amp)
        ensures
            r@ == c_half(self@),
    {
        Amp {
            a: big_half(&self.a),
            b: big_half(&self.b),
            c: big_half(&self.c),
            d: big_half(&self.d),
        }
    }
}

} // verus!
