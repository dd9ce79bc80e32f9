//! Embedding a local gate matrix into the full register operator.
//!
//! Basis indices encode qubit values with qubit `0` as the most significant
//! bit.  A gate acting on a block of `span` qubits starting at qubit `pos`
//! gives the full operator `I ⊗ M ⊗ I`, whose entry at `(r, c)` is the local
//! entry of `M` at the block bits of `r` and `c` when the bits outside the
//! block agree, and zero otherwise.  Writing `br` for the size of the space
//! below the block and `dl` for the block dimension, the block bits of `x`
//! are `(x / br) % dl`.

use vstd::prelude::*;
use vstd::arithmetic::div_mod::lemma_fundamental_div_mod;
use vstd::arithmetic::div_mod::lemma_fundamental_div_mod_converse;
use vstd::arithmetic::div_mod::lemma_div_denominator;
use vstd::arithmetic::div_mod::lemma_mod_bound;
use vstd::arithmetic::div_mod::lemma_mod_multiples_vanish;
use vstd::arithmetic::div_mod::lemma_hoist_over_denominator;
use vstd::arithmetic::mul::lemma_mul_strictly_positive;
use vstd::arithmetic::power2::pow2;
use vstd::arithmetic::power2::lemma_pow2_pos;
use vstd::arithmetic::power2::lemma_pow2_adds;
use crate::complex::C4;
use crate::complex::c_zero;
use crate::complex::c_one;
use crate::complex::c_add;
use crate::complex::c_mul;
use crate::linalg::dotp;
use crate::linalg::mat_vec_mul;
use crate::linalg::mat_mul;
use crate::linalg::lemma_dotp_single_row;
use crate::linalg::lemma_dotp_two_row;

verus! {

/// Bit of `x` selected by the power-of-two mask `m`.
pub open spec fn bitv(x: int, m: int) -> int {
    (x / m) % 2
}

/// `x` with the bit selected by mask `m` flipped.
pub open spec fn flipb(x: int, m: int) -> int {
    if bitv(x, m) == 1 {
        x - m
    } else {
        x + m
    }
}

/// Index map of a controlled-X block: flip the target bit where the control
/// bit is set.
pub open spec fn cx_map(x: int, cm: int, tm: int) -> int {
    if bitv(x, cm) == 1 {
        flipb(x, tm)
    } else {
        x
    }
}

/// The block part of index `x`: `dl` is the block dimension, `br` the size
/// of the space below the block.
pub open spec fn midx(x: int, dl: int, br: int) -> int {
    (x / br) % dl
}

/// `x` with its block part replaced by `m2`.
pub open spec fn recomb(x: int, m2: int, dl: int, br: int) -> int {
    x + (m2 - midx(x, dl, br)) * br
}

/// Entry `(r, c)` of the embedded operator for local matrix `m`.
pub open spec fn embed_entry(m: Seq<Seq<C4>>, dl: int, br: int, r: int, c: int) -> C4 {
    if r / (dl * br) == c / (dl * br) && r % br == c % br {
        m[midx(r, dl, br)][midx(c, dl, br)]
    } else {
        c_zero()
    }
}

/// The embedded operator as a full `nd x nd` matrix.
pub open spec fn embed_matrix(m: Seq<Seq<C4>>, dl: int, br: int, nd: nat) -> Seq<Seq<C4>> {
    Seq::new(nd, |r: int| Seq::new(nd, |c: int| embed_entry(m, dl, br, r, c)))
}

/// Every index splits uniquely into the part above the block, the block
/// part, and the part below.
pub proof fn lemma_decompose(x: int, dl: int, br: int)
    requires
        x >= 0,
        dl >= 1,
        br >= 1,
    ensures
        x == (x / (dl * br)) * (dl * br) + midx(x, dl, br) * br + x % br,
        0 <= x % br < br,
        0 <= midx(x, dl, br) < dl,
        x / (dl * br) >= 0,
{
    lemma_mul_strictly_positive(dl, br);
    lemma_fundamental_div_mod(x, br);
    lemma_mod_bound(x, br);
    let q = x / br;
    lemma_fundamental_div_mod(q, dl);
    lemma_mod_bound(q, dl);
    lemma_div_denominator(x, br, dl);
    let h = x / (br * dl);
    assert(q == dl * h + midx(x, dl, br));
    assert(br * (dl * h + midx(x, dl, br)) == h * (dl * br) + midx(x, dl, br) * br)
        by (nonlinear_arith);
    assert(dl * br == br * dl) by (nonlinear_arith);
    assert(x / (dl * br) >= 0) by {
        vstd::arithmetic::div_mod::lemma_div_pos_is_pos(x, dl * br);
    }
}

/// Conversely, the split determines the index, so equal parts mean equal
/// indices.
pub proof fn lemma_recompose(hi: int, mid: int, lo: int, dl: int, br: int)
    requires
        dl >= 1,
        br >= 1,
        hi >= 0,
        0 <= mid < dl,
        0 <= lo < br,
    ensures
        (hi * (dl * br) + mid * br + lo) / (dl * br) == hi,
        midx(hi * (dl * br) + mid * br + lo, dl, br) == mid,
        (hi * (dl * br) + mid * br + lo) % br == lo,
        hi * (dl * br) + mid * br + lo >= 0,
{
    lemma_mul_strictly_positive(dl, br);
    let x = hi * (dl * br) + mid * br + lo;
    assert(mid * br + lo < dl * br) by (nonlinear_arith)
        requires
            mid < dl,
            0 <= lo < br,
    ;
    assert(mid * br >= 0) by (nonlinear_arith)
        requires
            mid >= 0,
            br >= 1,
    ;
    assert(hi * (dl * br) >= 0) by (nonlinear_arith)
        requires
            hi >= 0,
            dl * br >= 1,
    ;
    lemma_fundamental_div_mod_converse(x, dl * br, hi, mid * br + lo);
    assert(x == (hi * dl + mid) * br + lo) by (nonlinear_arith)
        requires
            x == hi * (dl * br) + mid * br + lo,
    ;
    lemma_fundamental_div_mod_converse(x, br, hi * dl + mid, lo);
    assert(x / br == dl * hi + mid) by (nonlinear_arith)
        requires
            x / br == hi * dl + mid,
    ;
    lemma_mod_multiples_vanish(hi, mid, dl);
    vstd::arithmetic::div_mod::lemma_small_mod(mid as nat, dl as nat);
}

/// Replacing the block part of an in-range index gives an in-range index
/// with exactly the intended parts.
pub proof fn lemma_recomb_parts(x: int, m2: int, dl: int, br: int, bh: int)
    requires
        0 <= x < bh * (dl * br),
        0 <= m2 < dl,
        dl >= 1,
        br >= 1,
        bh >= 1,
    ensures
        0 <= recomb(x, m2, dl, br) < bh * (dl * br),
        recomb(x, m2, dl, br) / (dl * br) == x / (dl * br),
        midx(recomb(x, m2, dl, br), dl, br) == m2,
        recomb(x, m2, dl, br) % br == x % br,
{
    lemma_decompose(x, dl, br);
    let hi = x / (dl * br);
    let mid = midx(x, dl, br);
    let lo = x % br;
    let j = recomb(x, m2, dl, br);
    assert(j == hi * (dl * br) + m2 * br + lo) by (nonlinear_arith)
        requires
            x == hi * (dl * br) + mid * br + lo,
            j == x + (m2 - mid) * br,
    ;
    lemma_recompose(hi, m2, lo, dl, br);
    assert(hi < bh) by {
        lemma_mul_strictly_positive(dl, br);
        assert(x < (dl * br) * bh) by (nonlinear_arith)
            requires
                x < bh * (dl * br),
        ;
        vstd::arithmetic::div_mod::lemma_multiply_divide_lt(x, dl * br, bh);
    }
    assert(j < bh * (dl * br)) by (nonlinear_arith)
        requires
            j == hi * (dl * br) + m2 * br + lo,
            hi <= bh - 1,
            m2 <= dl - 1,
            lo <= br - 1,
            dl >= 1,
            br >= 1,
            0 <= m2,
            0 <= lo,
            0 <= hi,
    ;
}

/// Flipping the bit at mask `m` toggles that bit and leaves the parts above
/// and below unchanged; flipping twice restores the index.
pub proof fn lemma_flip_self(x: int, m: int)
    requires
        x >= 0,
        m >= 1,
    ensures
        bitv(flipb(x, m), m) == 1 - bitv(x, m),
        flipb(flipb(x, m), m) == x,
        flipb(x, m) >= 0,
        flipb(x, m) / (2 * m) == x / (2 * m),
        flipb(x, m) % m == x % m,
{
    lemma_decompose(x, 2, m);
    let hi = x / (2 * m);
    let b = midx(x, 2, m);
    let lo = x % m;
    assert(bitv(x, m) == b);
    let f = flipb(x, m);
    assert(b * m == if b == 1 { m } else { 0int }) by (nonlinear_arith)
        requires
            b == 0 || b == 1,
    ;
    assert((1 - b) * m == if b == 1 { 0int } else { m }) by (nonlinear_arith)
        requires
            b == 0 || b == 1,
    ;
    assert(f == hi * (2 * m) + (1 - b) * m + lo);
    lemma_recompose(hi, 1 - b, lo, 2, m);
    assert(bitv(f, m) == 1 - b);
    let g = flipb(f, m);
    assert(g == x);
}

/// Flipping the bit at mask `pow2(i)` does not change the bit at mask
/// `pow2(p)` for `p != i`.
pub proof fn lemma_flip_other(x: int, i: nat, p: nat)
    requires
        x >= 0,
        i != p,
    ensures
        bitv(flipb(x, pow2(i) as int), pow2(p) as int) == bitv(x, pow2(p) as int),
{
    let m = pow2(i) as int;
    let om = pow2(p) as int;
    lemma_pow2_pos(i);
    lemma_pow2_pos(p);
    lemma_flip_self(x, m);
    let f = flipb(x, m);
    if p > i {
        let l = pow2((p - i - 1) as nat) as int;
        lemma_pow2_pos((p - i - 1) as nat);
        lemma_pow2_adds((i + 1) as nat, (p - i - 1) as nat);
        lemma_pow2_adds(i, 1);
        assert(pow2(1) == 2) by {
            vstd::arithmetic::power2::lemma2_to64();
        }
        assert(om == (2 * m) * l) by (nonlinear_arith)
            requires
                om == (m * 2) * l,
        ;
        lemma_div_denominator(x, 2 * m, l);
        lemma_div_denominator(f, 2 * m, l);
        assert(f / om == x / om);
    } else {
        let k = pow2((i - p - 1) as nat) as int;
        lemma_pow2_pos((i - p - 1) as nat);
        lemma_pow2_adds((p + 1) as nat, (i - p - 1) as nat);
        lemma_pow2_adds(p, 1);
        assert(pow2(1) == 2) by {
            vstd::arithmetic::power2::lemma2_to64();
        }
        assert(m == (2 * k) * om) by (nonlinear_arith)
            requires
                m == (om * 2) * k,
        ;
        if bitv(x, m) == 1 {
            lemma_hoist_over_denominator(x, -(2 * k), om as nat);
            assert(x - m == x + (-(2 * k)) * om) by (nonlinear_arith)
                requires
                    m == (2 * k) * om,
            ;
            assert(f / om == x / om + (-(2 * k)));
            lemma_mod_multiples_vanish(-k, x / om, 2);
            assert(2 * (-k) + x / om == x / om + (-(2 * k))) by (nonlinear_arith);
        } else {
            lemma_hoist_over_denominator(x, 2 * k, om as nat);
            assert(x + m == x + (2 * k) * om);
            assert(f / om == x / om + 2 * k);
            lemma_mod_multiples_vanish(k, x / om, 2);
            assert(2 * k + x / om == x / om + 2 * k);
        }
    }
}

/// The controlled-X index map stays inside the block and is an involution.
pub proof fn lemma_cx_map_props(x: int, s: nat, ci: nat, ti: nat)
    requires
        0 <= x < pow2(s),
        ci < s,
        ti < s,
        ci != ti,
    ensures
        0 <= cx_map(x, pow2(ci) as int, pow2(ti) as int) < pow2(s),
        cx_map(
            cx_map(x, pow2(ci) as int, pow2(ti) as int),
            pow2(ci) as int,
            pow2(ti) as int,
        ) == x,
{
    let cm = pow2(ci) as int;
    let tm = pow2(ti) as int;
    lemma_pow2_pos(ci);
    lemma_pow2_pos(ti);
    if bitv(x, cm) == 1 {
        let f = flipb(x, tm);
        lemma_flip_self(x, tm);
        lemma_flip_other(x, ti, ci);
        assert(bitv(f, cm) == 1);
        assert(cx_map(f, cm, tm) == flipb(f, tm));
        assert(flipb(f, tm) == x);
        lemma_flip_bound(x, s, ti);
    }
}

/// Flipping a bit inside the block keeps the index inside the block.
pub proof fn lemma_flip_bound(x: int, s: nat, ti: nat)
    requires
        0 <= x < pow2(s),
        ti < s,
    ensures
        0 <= flipb(x, pow2(ti) as int) < pow2(s),
{
    let m = pow2(ti) as int;
    lemma_pow2_pos(ti);
    lemma_flip_self(x, m);
    let f = flipb(x, m);
    let w = pow2((s - ti - 1) as nat) as int;
    lemma_pow2_pos((s - ti - 1) as nat);
    lemma_pow2_adds((ti + 1) as nat, (s - ti - 1) as nat);
    lemma_pow2_adds(ti, 1);
    assert(pow2(1) == 2) by {
        vstd::arithmetic::power2::lemma2_to64();
    }
    assert(pow2(s) as int == (2 * m) * w) by (nonlinear_arith)
        requires
            pow2(s) as int == (m * 2) * w,
    ;
    lemma_decompose(x, 2, m);
    lemma_decompose(f, 2, m);
    let hi = x / (2 * m);
    assert(hi < w) by {
        assert(x < (2 * m) * w);
        vstd::arithmetic::div_mod::lemma_multiply_divide_lt(x, 2 * m, w);
    }
    assert(f == hi * (2 * m) + midx(f, 2, m) * m + f % m);
    assert(f < (hi + 1) * (2 * m)) by (nonlinear_arith)
        requires
            f == hi * (2 * m) + midx(f, 2, m) * m + f % m,
            midx(f, 2, m) <= 1,
            f % m < m,
            m >= 1,
    ;
    assert((hi + 1) * (2 * m) <= w * (2 * m)) by (nonlinear_arith)
        requires
            hi + 1 <= w,
            m >= 1,
    ;
    assert(w * (2 * m) == (2 * m) * w) by (nonlinear_arith);
}

/// Composing the three controlled-X maps exchanges the two bits.
pub proof fn lemma_swap_map(x: int, s: nat, ci: nat, ti: nat)
    requires
        0 <= x < pow2(s),
        ci < s,
        ti < s,
        ci != ti,
    ensures
        ({
            let cm = pow2(ci) as int;
            let tm = pow2(ti) as int;
            cx_map(
                cx_map(cx_map(x, cm, tm), tm, cm),
                cm,
                tm,
            ) == x + (bitv(x, tm) - bitv(x, cm)) * cm + (bitv(x, cm) - bitv(x, tm)) * tm
        }),
{
    let cm = pow2(ci) as int;
    let tm = pow2(ti) as int;
    lemma_pow2_pos(ci);
    lemma_pow2_pos(ti);
    let bc = bitv(x, cm);
    let bt = bitv(x, tm);
    lemma_decompose(x, 2, cm);
    lemma_decompose(x, 2, tm);
    assert(bc == 0 || bc == 1);
    assert(bt == 0 || bt == 1);
    if bc == 0 && bt == 0 {
        assert((bt - bc) * cm == 0 && (bc - bt) * tm == 0) by (nonlinear_arith)
            requires
                bc == bt,
        ;
    } else if bc == 1 && bt == 1 {
        let y = flipb(x, tm);
        lemma_flip_self(x, tm);
        lemma_flip_other(x, ti, ci);
        assert(bitv(y, cm) == 1 && bitv(y, tm) == 0);
        assert(cx_map(y, tm, cm) == y);
        assert(cx_map(y, cm, tm) == flipb(y, tm));
        assert(flipb(y, tm) == x);
        assert((bt - bc) * cm == 0 && (bc - bt) * tm == 0) by (nonlinear_arith)
            requires
                bc == bt,
        ;
    } else if bc == 1 && bt == 0 {
        let y = flipb(x, tm);
        lemma_flip_self(x, tm);
        lemma_flip_other(x, ti, ci);
        assert(y == x + tm);
        assert(bitv(y, cm) == 1 && bitv(y, tm) == 1);
        let z = flipb(y, cm);
        lemma_flip_self(y, cm);
        lemma_flip_other(y, ci, ti);
        assert(z == y - cm);
        assert(bitv(z, cm) == 0 && bitv(z, tm) == 1);
        assert(cx_map(z, cm, tm) == z);
        assert(z == x + tm - cm);
        assert((bt - bc) * cm == -cm && (bc - bt) * tm == tm) by (nonlinear_arith)
            requires
                bc == 1,
                bt == 0,
        ;
    } else {
        assert(cx_map(x, cm, tm) == x);
        let y = flipb(x, cm);
        lemma_flip_self(x, cm);
        lemma_flip_other(x, ci, ti);
        assert(y == x + cm);
        assert(bitv(y, cm) == 1 && bitv(y, tm) == 1);
        assert(cx_map(x, tm, cm) == y);
        let z = flipb(y, tm);
        lemma_flip_self(y, tm);
        lemma_flip_other(y, ti, ci);
        assert(z == y - tm);
        assert(cx_map(y, cm, tm) == z);
        assert(z == x + cm - tm);
        assert((bt - bc) * cm == cm && (bc - bt) * tm == -tm) by (nonlinear_arith)
            requires
                bc == 0,
                bt == 1,
        ;
    }
}

/// A bit of the block part of an index is the corresponding bit of the
/// index itself, shifted by the size of the space below the block.
pub proof fn lemma_mid_bit(x: int, se: nat, re: nat, e: nat)
    requires
        x >= 0,
        e < se,
    ensures
        bitv(midx(x, pow2(se) as int, pow2(re) as int), pow2(e) as int) == bitv(
            x,
            pow2((e + re) as nat) as int,
        ),
{
    let dl = pow2(se) as int;
    let br = pow2(re) as int;
    let m = pow2(e) as int;
    lemma_pow2_pos(se);
    lemma_pow2_pos(re);
    lemma_pow2_pos(e);
    let q = x / br;
    vstd::arithmetic::div_mod::lemma_div_pos_is_pos(x, br);
    let mid = midx(x, dl, br);
    let k = pow2((se - e) as nat) as int;
    lemma_pow2_pos((se - e) as nat);
    lemma_pow2_adds(e, (se - e) as nat);
    assert(dl == m * k);
    vstd::arithmetic::div_mod::lemma_breakdown(q, m, k);
    assert(mid == m * ((q / m) % k) + q % m);
    vstd::arithmetic::div_mod::lemma_mod_bound(q, m);
    vstd::arithmetic::div_mod::lemma_mod_bound(q / m, k);
    lemma_fundamental_div_mod_converse(mid, m, (q / m) % k, q % m);
    assert(mid / m == (q / m) % k);
    let k2 = pow2((se - e - 1) as nat) as int;
    lemma_pow2_pos((se - e - 1) as nat);
    lemma_pow2_adds(1, (se - e - 1) as nat);
    assert(pow2(1) == 2) by {
        vstd::arithmetic::power2::lemma2_to64();
    }
    assert(k == 2 * k2);
    vstd::arithmetic::div_mod::lemma_mod_mod(q / m, 2, k2);
    assert(((q / m) % k) % 2 == (q / m) % 2);
    lemma_div_denominator(x, br, m);
    assert(q / m == x / (br * m));
    lemma_pow2_adds(e, re);
    assert(pow2((e + re) as nat) as int == m * br);
    assert(br * m == m * br) by (nonlinear_arith);
}

/// A local matrix whose row `r` is zero except for the value `u(r)` in
/// column `f(r)`.
pub open spec fn is_unit_rows(
    m: Seq<Seq<C4>>,
    dim: int,
    f: spec_fn(int) -> int,
    u: spec_fn(int) -> C4,
) -> bool {
    &&& m.len() == dim
    &&& forall|r: int| 0 <= r < dim ==> (#[trigger] m[r]).len() == dim
    &&& forall|r: int| 0 <= r < dim ==> 0 <= #[trigger] f(r) < dim
    &&& forall|r: int, c: int|
        0 <= r < dim && 0 <= c < dim ==> #[trigger] m[r][c] == (if c == f(r) {
            u(r)
        } else {
            c_zero()
        })
}

/// Applying the embedding of a unit-rows local matrix reads, for each index,
/// the entry whose block part is mapped by `f`, scaled by `u`.
pub proof fn lemma_embed_unit_rows_apply(
    m: Seq<Seq<C4>>,
    dl: int,
    br: int,
    bh: int,
    f: spec_fn(int) -> int,
    u: spec_fn(int) -> C4,
    v: Seq<C4>,
)
    requires
        dl >= 1,
        br >= 1,
        bh >= 1,
        is_unit_rows(m, dl, f, u),
        v.len() == bh * (dl * br),
    ensures
        mat_vec_mul(embed_matrix(m, dl, br, (bh * (dl * br)) as nat), v).len() == v.len(),
        forall|x: int|
            0 <= x < v.len() ==> 0 <= #[trigger] recomb(x, f(midx(x, dl, br)), dl, br) < v.len(),
        forall|x: int|
            0 <= x < v.len() ==> #[trigger] mat_vec_mul(
                embed_matrix(m, dl, br, (bh * (dl * br)) as nat),
                v,
            )[x] == c_mul(u(midx(x, dl, br)), v[recomb(x, f(midx(x, dl, br)), dl, br)]),
{
    let nd = (bh * (dl * br)) as nat;
    lemma_mul_strictly_positive(dl, br);
    assert(bh * (dl * br) > 0) by (nonlinear_arith)
        requires
            bh >= 1,
            dl * br > 0,
    ;
    let w = mat_vec_mul(embed_matrix(m, dl, br, nd), v);
    assert forall|x: int| 0 <= x < v.len() implies 0 <= #[trigger] recomb(
        x,
        f(midx(x, dl, br)),
        dl,
        br,
    ) < v.len() by {
        lemma_decompose(x, dl, br);
        lemma_recomb_parts(x, f(midx(x, dl, br)), dl, br, bh);
    }
    assert forall|x: int| 0 <= x < v.len() implies {
        #[trigger] w[x] == c_mul(u(midx(x, dl, br)), v[recomb(x, f(midx(x, dl, br)), dl, br)])
    } by {
        lemma_decompose(x, dl, br);
        let mid = midx(x, dl, br);
        let j = recomb(x, f(mid), dl, br);
        lemma_recomb_parts(x, f(mid), dl, br, bh);
        let row = embed_matrix(m, dl, br, nd)[x];
        assert forall|c: int| 0 <= c < nd && c != j implies #[trigger] row[c] == c_zero() by {
            if x / (dl * br) == c / (dl * br) && x % br == c % br {
                lemma_decompose(c, dl, br);
                let midc = midx(c, dl, br);
                assert(row[c] == m[mid][midc]);
                if midc == f(mid) {
                    // Same parts on both sides would force c == j.
                    assert(c == (c / (dl * br)) * (dl * br) + midc * br + c % br);
                    assert(j == (j / (dl * br)) * (dl * br) + midx(j, dl, br) * br + j % br) by {
                        lemma_decompose(j, dl, br);
                    }
                    assert(c == j);
                } else {
                    assert(m[mid][midc] == c_zero());
                }
            }
        }
        assert(row[j] == m[mid][f(mid)]) by {
            assert(j / (dl * br) == x / (dl * br) && j % br == x % br);
        }
        assert(row[j] == u(mid));
        lemma_dotp_single_row(row, v, nd as int, j);
        assert(w[x] == dotp(row, v, v.len() as int));
    }
}

/// Applying the embedding of an arbitrary 2 x 2 local matrix combines, for
/// each index, the two entries whose block bit is 0 and 1.
pub proof fn lemma_embed2_apply(m: Seq<Seq<C4>>, br: int, bh: int, v: Seq<C4>)
    requires
        br >= 1,
        bh >= 1,
        m.len() == 2,
        m[0].len() == 2,
        m[1].len() == 2,
        v.len() == bh * (2 * br),
    ensures
        mat_vec_mul(embed_matrix(m, 2, br, (bh * (2 * br)) as nat), v).len() == v.len(),
        forall|x: int| 0 <= x < v.len() ==> 0 <= #[trigger] recomb(x, 0, 2, br) < v.len(),
        forall|x: int| 0 <= x < v.len() ==> 0 <= #[trigger] recomb(x, 1, 2, br) < v.len(),
        forall|x: int|
            0 <= x < v.len() ==> #[trigger] mat_vec_mul(
                embed_matrix(m, 2, br, (bh * (2 * br)) as nat),
                v,
            )[x] == c_add(
                c_mul(m[midx(x, 2, br)][0], v[recomb(x, 0, 2, br)]),
                c_mul(m[midx(x, 2, br)][1], v[recomb(x, 1, 2, br)]),
            ),
{
    let nd = (bh * (2 * br)) as nat;
    assert(bh * (2 * br) > 0) by (nonlinear_arith)
        requires
            bh >= 1,
            br >= 1,
    ;
    let w = mat_vec_mul(embed_matrix(m, 2, br, nd), v);
    assert forall|x: int| 0 <= x < v.len() implies 0 <= #[trigger] recomb(x, 0, 2, br)
        < v.len() by {
        lemma_decompose(x, 2, br);
        lemma_recomb_parts(x, 0, 2, br, bh);
    }
    assert forall|x: int| 0 <= x < v.len() implies 0 <= #[trigger] recomb(x, 1, 2, br)
        < v.len() by {
        lemma_decompose(x, 2, br);
        lemma_recomb_parts(x, 1, 2, br, bh);
    }
    assert forall|x: int| 0 <= x < v.len() implies {
        #[trigger] w[x] == c_add(
            c_mul(m[midx(x, 2, br)][0], v[recomb(x, 0, 2, br)]),
            c_mul(m[midx(x, 2, br)][1], v[recomb(x, 1, 2, br)]),
        )
    } by {
        lemma_decompose(x, 2, br);
        let mid = midx(x, 2, br);
        let j0 = recomb(x, 0, 2, br);
        let j1 = recomb(x, 1, 2, br);
        lemma_recomb_parts(x, 0, 2, br, bh);
        lemma_recomb_parts(x, 1, 2, br, bh);
        assert(j1 == j0 + br) by (nonlinear_arith)
            requires
                j0 == x + (0 - mid) * br,
                j1 == x + (1 - mid) * br,
        ;
        let row = embed_matrix(m, 2, br, nd)[x];
        assert forall|c: int| 0 <= c < nd && c != j0 && c != j1 implies #[trigger] row[c]
            == c_zero() by {
            if x / (2 * br) == c / (2 * br) && x % br == c % br {
                lemma_decompose(c, 2, br);
                let midc = midx(c, 2, br);
                assert(c == (c / (2 * br)) * (2 * br) + midc * br + c % br);
                lemma_decompose(j0, 2, br);
                lemma_decompose(j1, 2, br);
                if midc == 0 {
                    assert(c == j0);
                } else {
                    assert(c == j1);
                }
            }
        }
        assert(row[j0] == m[mid][0]);
        assert(row[j1] == m[mid][1]);
        lemma_dotp_two_row(row, v, nd as int, j0, j1);
        assert(w[x] == dotp(row, v, v.len() as int));
    }
}

/// The permutation matrix whose column `c` has a one in row `f(c)`.
pub open spec fn perm_mat(dim: nat, f: spec_fn(int) -> int) -> Seq<Seq<C4>> {
    Seq::new(
        dim,
        |r: int| Seq::new(dim, |c: int| if r == f(c) { c_one() } else { c_zero() }),
    )
}

/// For an involution the column description and the row description agree.
pub proof fn lemma_perm_mat_unit_rows(dim: int, f: spec_fn(int) -> int)
    requires
        dim >= 1,
        forall|r: int| 0 <= r < dim ==> 0 <= #[trigger] f(r) < dim,
        forall|r: int| 0 <= r < dim ==> #[trigger] f(f(r)) == r,
    ensures
        is_unit_rows(perm_mat(dim as nat, f), dim, f, |r: int| c_one()),
{
    let m = perm_mat(dim as nat, f);
    assert forall|r: int, c: int| 0 <= r < dim && 0 <= c < dim implies #[trigger] m[r][c] == (if c
        == f(r) {
        (|r: int| c_one())(r)
    } else {
        c_zero()
    }) by {
        if c == f(r) {
            assert(f(c) == r);
        } else if r == f(c) {
            assert(f(f(c)) == c);
        }
    }
}

/// Multiplying on the right by a permutation matrix selects columns.
pub proof fn lemma_mat_mul_perm(a: Seq<Seq<C4>>, dim: int, g: spec_fn(int) -> int)
    requires
        dim >= 1,
        a.len() == dim,
        forall|r: int| 0 <= r < dim ==> (#[trigger] a[r]).len() == dim,
        forall|c: int| 0 <= c < dim ==> 0 <= #[trigger] g(c) < dim,
    ensures
        mat_mul(a, perm_mat(dim as nat, g)).len() == dim,
        forall|r: int| 0 <= r < dim ==> (#[trigger] mat_mul(a, perm_mat(dim as nat, g))[r]).len()
            == dim,
        forall|r: int, c: int|
            0 <= r < dim && 0 <= c < dim ==> #[trigger] mat_mul(a, perm_mat(dim as nat, g))[r][c]
                == a[r][g(c)],
{
    let b = perm_mat(dim as nat, g);
    let p = mat_mul(a, b);
    assert forall|r: int, c: int| 0 <= r < dim && 0 <= c < dim implies #[trigger] p[r][c]
        == a[r][g(c)] by {
        let col = crate::linalg::col_of(b, c);
        assert(col.len() == dim);
        assert forall|l: int| 0 <= l < dim && l != g(c) implies #[trigger] col[l] == c_zero() by {
            assert(col[l] == b[l][c]);
        }
        assert(col[g(c)] == c_one());
        crate::linalg::lemma_dotp_single_vec(a[r], col, dim, g(c));
        crate::complex::lemma_c_mul_one(a[r][g(c)]);
        assert(p[r][c] == dotp(a[r], col, dim));
    }
}

} // verus!
