//! Vectors and matrices of exact amplitudes.
//!
//! A state vector is a sequence of `C4` amplitudes; it represents the
//! physical state obtained by scaling it to unit norm, so two vectors that
//! differ by a positive real factor represent the same state.  `reduce_spec`
//! picks the canonical representative with the factors of two divided out.

use vstd::prelude::*;
use vstd::arithmetic::power2::pow2;
use crate::complex::C4;
use crate::complex::c_zero;
use crate::complex::c_one;
use crate::complex::c_add;
use crate::complex::c_mul;
use crate::complex::c_scale;
use crate::complex::c_half;
use crate::complex::c_even;
use crate::complex::lemma_c_add_zero;
use crate::complex::lemma_c_mul_zero;
use crate::complex::Amp;

verus! {

/// Absolute value of an integer.
pub open spec fn iabs(x: int) -> int {
    if x < 0 {
        -x
    } else {
        x
    }
}

/// The values of a sequence of exec amplitudes.
pub open spec fn amps_view(s: Seq<Amp>) -> Seq<C4> {
    s.map(|i: int, a: Amp| a@)
}

/// The values of an exec matrix of amplitudes.
pub open spec fn mat_view(m: Seq<Vec<Amp>>) -> Seq<Seq<C4>> {
    m.map(|i: int, row: Vec<Amp>| amps_view(row@))
}

pub open spec fn all_even_vec(v: Seq<C4>) -> bool {
    forall|i: int| 0 <= i < v.len() ==> c_even(#[trigger] v[i])
}

pub open spec fn nonzero_vec(v: Seq<C4>) -> bool {
    exists|i: int| 0 <= i < v.len() && #[trigger] v[i] != c_zero()
}

pub open spec fn halve_vec(v: Seq<C4>) -> Seq<C4> {
    v.map_values(|z: C4| c_half(z))
}

pub open spec fn scale_vec(k: int, v: Seq<C4>) -> Seq<C4> {
    v.map_values(|z: C4| c_scale(k, z))
}

/// The one-hot basis vector of length `len` with a one at `j`.
pub open spec fn basis_vec(len: nat, j: nat) -> Seq<C4> {
    Seq::new(len, |i: int| if i == j { c_one() } else { c_zero() })
}

/// Termination measure for halving: the sum of all coordinate magnitudes.
pub open spec fn vec_measure(v: Seq<C4>) -> int
    decreases v.len(),
{
    if v.len() == 0 {
        0
    } else {
        vec_measure(v.drop_last()) + iabs(v.last().a) + iabs(v.last().b) + iabs(v.last().c)
            + iabs(v.last().d)
    }
}

pub proof fn lemma_vec_measure_nonneg(v: Seq<C4>)
    ensures
        vec_measure(v) >= 0,
    decreases v.len(),
{
    if v.len() > 0 {
        lemma_vec_measure_nonneg(v.drop_last());
    }
}

/// Halving an all-even vector halves the measure exactly.
pub proof fn lemma_vec_measure_halve(v: Seq<C4>)
    requires
        all_even_vec(v),
    ensures
        2 * vec_measure(halve_vec(v)) == vec_measure(v),
    decreases v.len(),
{
    if v.len() == 0 {
        assert(halve_vec(v) =~= Seq::<C4>::empty());
    } else {
        assert(halve_vec(v).drop_last() =~= halve_vec(v.drop_last()));
        assert(all_even_vec(v.drop_last()));
        lemma_vec_measure_halve(v.drop_last());
        let z = v.last();
        assert(halve_vec(v).last() == c_half(z));
        assert(2 * iabs(z.a / 2) == iabs(z.a));
        assert(2 * iabs(z.b / 2) == iabs(z.b));
        assert(2 * iabs(z.c / 2) == iabs(z.c));
        assert(2 * iabs(z.d / 2) == iabs(z.d));
    }
}

/// A vector with a nonzero entry has measure at least one.
pub proof fn lemma_vec_measure_pos(v: Seq<C4>)
    requires
        nonzero_vec(v),
    ensures
        vec_measure(v) >= 1,
    decreases v.len(),
{
    let i = choose|i: int| 0 <= i < v.len() && #[trigger] v[i] != c_zero();
    lemma_vec_measure_nonneg(v.drop_last());
    if i + 1 == v.len() {
        let z = v.last();
        assert(iabs(z.a) + iabs(z.b) + iabs(z.c) + iabs(z.d) >= 1);
    } else {
        assert(v.drop_last()[i] == v[i]);
        lemma_vec_measure_pos(v.drop_last());
        let z = v.last();
        assert(iabs(z.a) + iabs(z.b) + iabs(z.c) + iabs(z.d) >= 0);
    }
}

/// The canonical representative of a nonzero amplitude vector: divide all
/// entries by two until some coordinate is odd.
pub open spec fn reduce_spec(v: Seq<C4>) -> Seq<C4>
    decreases vec_measure(v),
        when vec_measure(v) >= 0
        via reduce_spec_decreases
{
    if all_even_vec(v) && nonzero_vec(v) {
        reduce_spec(halve_vec(v))
    } else {
        v
    }
}

#[via_fn]
proof fn reduce_spec_decreases(v: Seq<C4>) {
    if all_even_vec(v) && nonzero_vec(v) {
        lemma_vec_measure_halve(v);
        lemma_vec_measure_pos(v);
        lemma_vec_measure_nonneg(halve_vec(v));
    }
}

/// A vector with an odd coordinate somewhere is already reduced.
pub open spec fn reduced_vec(v: Seq<C4>) -> bool {
    !all_even_vec(v)
}

/// Reduction keeps the length, keeps the vector nonzero, and reaches a
/// reduced vector.
pub proof fn lemma_reduce_props(v: Seq<C4>)
    requires
        nonzero_vec(v),
    ensures
        reduce_spec(v).len() == v.len(),
        nonzero_vec(reduce_spec(v)),
        reduced_vec(reduce_spec(v)),
    decreases vec_measure(v),
{
    lemma_vec_measure_nonneg(v);
    if all_even_vec(v) && nonzero_vec(v) {
        let h = halve_vec(v);
        let i = choose|i: int| 0 <= i < v.len() && #[trigger] v[i] != c_zero();
        assert(h[i] == c_half(v[i]));
        assert(c_even(v[i]));
        assert(h[i] != c_zero());
        assert(nonzero_vec(h));
        lemma_vec_measure_halve(v);
        lemma_vec_measure_pos(v);
        lemma_reduce_props(h);
    }
}

/// Scaling by two and then reducing is the same as reducing.
pub proof fn lemma_reduce_scale2(v: Seq<C4>)
    requires
        nonzero_vec(v),
    ensures
        reduce_spec(scale_vec(2, v)) == reduce_spec(v),
{
    let s = scale_vec(2, v);
    assert forall|i: int| 0 <= i < s.len() implies c_even(#[trigger] s[i]) by {
        assert(s[i] == c_scale(2, v[i]));
    }
    let i = choose|i: int| 0 <= i < v.len() && #[trigger] v[i] != c_zero();
    assert(s[i] == c_scale(2, v[i]));
    assert(s[i] != c_zero());
    assert(nonzero_vec(s));
    assert(halve_vec(s) =~= v);
    lemma_vec_measure_nonneg(s);
    lemma_vec_measure_nonneg(v);
}

/// Scaling by any power of two and then reducing is the same as reducing.
pub proof fn lemma_reduce_scale_pow2(v: Seq<C4>, e: nat)
    requires
        nonzero_vec(v),
    ensures
        reduce_spec(scale_vec(pow2(e) as int, v)) == reduce_spec(v),
    decreases e,
{
    if e == 0 {
        assert(pow2(0) == 1) by {
            vstd::arithmetic::power2::lemma2_to64();
        }
        assert(scale_vec(1, v) =~= v);
    } else {
        let p = pow2((e - 1) as nat) as int;
        assert(pow2(e) == 2 * pow2((e - 1) as nat)) by {
            vstd::arithmetic::power2::lemma_pow2_unfold(e);
        }
        assert(scale_vec(pow2(e) as int, v) =~= scale_vec(2, scale_vec(p, v))) by {
            assert forall|i: int| 0 <= i < v.len() implies scale_vec(pow2(e) as int, v)[i]
                == scale_vec(2, scale_vec(p, v))[i] by {
                let z = v[i];
                assert(c_scale(2 * p, z) == c_scale(2, c_scale(p, z))) by (nonlinear_arith);
            }
        }
        let i = choose|i: int| 0 <= i < v.len() && #[trigger] v[i] != c_zero();
        assert(pow2((e - 1) as nat) >= 1) by {
            vstd::arithmetic::power2::lemma_pow2_pos((e - 1) as nat);
        }
        assert(c_scale(p, v[i]) != c_zero()) by (nonlinear_arith)
            requires
                p >= 1,
                v[i] != c_zero(),
                c_scale(p, v[i]) == (C4 {
                    a: p * v[i].a,
                    b: p * v[i].b,
                    c: p * v[i].c,
                    d: p * v[i].d,
                }),
                v[i].a != 0 || v[i].b != 0 || v[i].c != 0 || v[i].d != 0,
        ;
        assert(scale_vec(p, v)[i] == c_scale(p, v[i]));
        assert(nonzero_vec(scale_vec(p, v)));
        lemma_reduce_scale2(scale_vec(p, v));
        lemma_reduce_scale_pow2(v, (e - 1) as nat);
    }
}

/// Every nonzero vector is a power-of-two multiple of its reduction.
pub proof fn lemma_reduce_unscale(v: Seq<C4>)
    requires
        nonzero_vec(v),
    ensures
        exists|e: nat| scale_vec(pow2(e) as int, reduce_spec(v)) =~= v,
    decreases vec_measure(v),
{
    lemma_vec_measure_nonneg(v);
    if all_even_vec(v) && nonzero_vec(v) {
        let h = halve_vec(v);
        let i = choose|i: int| 0 <= i < v.len() && #[trigger] v[i] != c_zero();
        assert(h[i] == c_half(v[i]));
        assert(h[i] != c_zero());
        assert(nonzero_vec(h));
        lemma_vec_measure_halve(v);
        lemma_vec_measure_pos(v);
        lemma_reduce_unscale(h);
        let e = choose|e: nat| scale_vec(pow2(e) as int, reduce_spec(h)) =~= h;
        assert(pow2(e + 1) == 2 * pow2(e)) by {
            vstd::arithmetic::power2::lemma_pow2_unfold(e + 1);
        }
        assert(scale_vec(pow2(e + 1) as int, reduce_spec(v)) =~= v) by {
            let r = reduce_spec(v);
            assert(r == reduce_spec(h));
            assert forall|j: int| 0 <= j < v.len() implies scale_vec(pow2(e + 1) as int, r)[j]
                == v[j] by {
                assert(scale_vec(pow2(e) as int, r)[j] == h[j]);
                assert(c_scale(pow2(e) as int, r[j]) == h[j]);
                assert(h[j] == c_half(v[j]));
                assert(c_even(v[j]));
                assert(c_scale(2, c_half(v[j])) == v[j]);
                let p = pow2(e) as int;
                assert(c_scale(2 * p, r[j]) == c_scale(2, c_scale(p, r[j]))) by (nonlinear_arith);
            }
        }
    } else {
        assert(scale_vec(pow2(0) as int, reduce_spec(v)) =~= v) by {
            vstd::arithmetic::power2::lemma2_to64();
            assert(reduce_spec(v) == v);
            assert forall|j: int| 0 <= j < v.len() implies scale_vec(1, v)[j] == v[j] by {
                assert(c_scale(1, v[j]) == v[j]);
            }
        }
    }
}

/// Dot product of the first `k` entries of `row` and `v`.
pub open spec fn dotp(row: Seq<C4>, v: Seq<C4>, k: int) -> C4
    decreases k,
{
    if k <= 0 {
        c_zero()
    } else {
        c_add(dotp(row, v, k - 1), c_mul(row[k - 1], v[k - 1]))
    }
}

/// Matrix times column vector: entry `r` is the dot product of row `r`
/// with the vector.
pub open spec fn mat_vec_mul(m: Seq<Seq<C4>>, v: Seq<C4>) -> Seq<C4> {
    Seq::new(m.len(), |r: int| dotp(m[r], v, v.len() as int))
}

pub open spec fn col_of(m: Seq<Seq<C4>>, c: int) -> Seq<C4> {
    Seq::new(m.len(), |k: int| m[k][c])
}

/// Product of square matrices of equal dimension.
pub open spec fn mat_mul(a: Seq<Seq<C4>>, b: Seq<Seq<C4>>) -> Seq<Seq<C4>> {
    Seq::new(a.len(), |r: int| Seq::new(a.len(), |c: int| dotp(a[r], col_of(b, c), b.len() as int)))
}

/// A dot product against a vector that is zero except possibly at `j`.
pub proof fn lemma_dotp_single_vec(row: Seq<C4>, v: Seq<C4>, k: int, j: int)
    requires
        0 <= j,
        k <= v.len(),
        forall|l: int| 0 <= l < k && l != j ==> #[trigger] v[l] == c_zero(),
    ensures
        dotp(row, v, k) == if j < k {
            c_mul(row[j], v[j])
        } else {
            c_zero()
        },
    decreases k,
{
    if k > 0 {
        lemma_dotp_single_vec(row, v, k - 1, j);
        if k - 1 != j {
            assert(v[k - 1] == c_zero());
            lemma_c_mul_zero(row[k - 1]);
        } else {
            lemma_c_add_zero(c_mul(row[j], v[j]));
        }
        lemma_c_add_zero(dotp(row, v, k - 1));
    }
}

/// A dot product against a row that is zero except possibly at `j`.
pub proof fn lemma_dotp_single_row(row: Seq<C4>, v: Seq<C4>, k: int, j: int)
    requires
        0 <= j,
        k <= row.len(),
        forall|l: int| 0 <= l < k && l != j ==> #[trigger] row[l] == c_zero(),
    ensures
        dotp(row, v, k) == if j < k {
            c_mul(row[j], v[j])
        } else {
            c_zero()
        },
    decreases k,
{
    if k > 0 {
        lemma_dotp_single_row(row, v, k - 1, j);
        if k - 1 != j {
            assert(row[k - 1] == c_zero());
            lemma_c_mul_zero(v[k - 1]);
        } else {
            lemma_c_add_zero(c_mul(row[j], v[j]));
        }
        lemma_c_add_zero(dotp(row, v, k - 1));
    }
}

/// A dot product against a row that is zero except at `j0 < j1`.
pub proof fn lemma_dotp_two_row(row: Seq<C4>, v: Seq<C4>, k: int, j0: int, j1: int)
    requires
        0 <= j0 < j1 < k,
        k <= row.len(),
        forall|l: int| 0 <= l < k && l != j0 && l != j1 ==> #[trigger] row[l] == c_zero(),
    ensures
        dotp(row, v, k) == c_add(c_mul(row[j0], v[j0]), c_mul(row[j1], v[j1])),
    decreases k,
{
    if k - 1 == j1 {
        lemma_dotp_single_row(row, v, k - 1, j0);
    } else {
        lemma_dotp_two_row(row, v, k - 1, j0, j1);
        assert(row[k - 1] == c_zero());
        lemma_c_mul_zero(v[k - 1]);
        lemma_c_add_zero(dotp(row, v, k - 1));
    }
}

/// Scaling the vector scales the dot product.
pub proof fn lemma_dotp_scale(row: Seq<C4>, v: Seq<C4>, k: int, s: int)
    requires
        k <= v.len(),
    ensures
        dotp(row, scale_vec(s, v), k) == c_scale(s, dotp(row, v, k)),
    decreases k,
{
    if k <= 0 {
        assert(c_scale(s, c_zero()) == c_zero()) by {
            assert(s * 0 == 0) by (nonlinear_arith);
        }
    } else {
        lemma_dotp_scale(row, v, k - 1, s);
        assert(scale_vec(s, v)[k - 1] == c_scale(s, v[k - 1]));
        crate::complex::lemma_c_mul_scale_right(row[k - 1], s, v[k - 1]);
        crate::complex::lemma_c_scale_add(s, dotp(row, v, k - 1), c_mul(row[k - 1], v[k - 1]));
    }
}

/// Exec dot product of a row with a vector.
fn dot_row(row: &Vec<Amp>, v: &Vec<Amp>) -> (r: Amp)
    requires
        v@.len() <= row@.len(),
    ensures
        r@ == dotp(amps_view(row@), amps_view(v@), v@.len() as int),
{
    let mut acc = Amp::zero();
    let mut c: usize = 0;
    while c < v.len()
        invariant
            c <= v@.len(),
            v@.len() <= row@.len(),
            acc@ == dotp(amps_view(row@), amps_view(v@), c as int),
        decreases v@.len() - c,
    {
        proof {
            assert(amps_view(row@)[c as int] == row@[c as int]@);
            assert(amps_view(v@)[c as int] == v@[c as int]@);
        }
        let t = row[c].mul(&v[c]);
        acc = acc.add(&t);
        c += 1;
    }
    acc
}

/// Exec matrix-vector product.
pub(crate) fn mat_vec_mul_exec(m: &Vec<Vec<Amp>>, v: &Vec<Amp>) -> (r: Vec<Amp>)
    requires
        forall|i: int| 0 <= i < m@.len() ==> v@.len() <= #[trigger] m@[i]@.len(),
    ensures
        amps_view(r@) == mat_vec_mul(mat_view(m@), amps_view(v@)),
{
    let mut r: Vec<Amp> = Vec::new();
    let mut i: usize = 0;
    while i < m.len()
        invariant
            i <= m@.len(),
            r@.len() == i,
            forall|i2: int| 0 <= i2 < m@.len() ==> v@.len() <= #[trigger] m@[i2]@.len(),
            forall|i2: int|
                0 <= i2 < i ==> amps_view(r@)[i2] == #[trigger] mat_vec_mul(
                    mat_view(m@),
                    amps_view(v@),
                )[i2],
        decreases m@.len() - i,
    {
        let d = dot_row(&m[i], v);
        r.push(d);
        proof {
            assert(mat_view(m@)[i as int] == amps_view(m@[i as int]@));
            assert(amps_view(r@)[i as int] == d@);
        }
        i += 1;
    }
    proof {
        assert(amps_view(r@) =~= mat_vec_mul(mat_view(m@), amps_view(v@)));
    }
    r
}

/// Exec test for an all-even amplitude vector.
fn all_even_exec(v: &Vec<Amp>) -> (r: bool)
    ensures
        r == all_even_vec(amps_view(v@)),
{
    let mut i: usize = 0;
    while i < v.len()
        invariant
            i <= v@.len(),
            forall|l: int| 0 <= l < i ==> c_even(#[trigger] amps_view(v@)[l]),
        decreases v@.len() - i,
    {
        proof {
            assert(amps_view(v@)[i as int] == v@[i as int]@);
        }
        if !v[i].is_even() {
            return false;
        }
        i += 1;
    }
    true
}

/// Exec halving of an all-even amplitude vector.
fn halve_exec(v: &Vec<Amp>) -> (r: Vec<Amp>)
    ensures
        amps_view(r@) == halve_vec(amps_view(v@)),
{
    let mut r: Vec<Amp> = Vec::new();
    let mut i: usize = 0;
    while i < v.len()
        invariant
            i <= v@.len(),
            r@.len() == i,
            forall|l: int| 0 <= l < i ==> amps_view(r@)[l] == c_half(#[trigger] amps_view(v@)[l]),
        decreases v@.len() - i,
    {
        let h = v[i].half();
        r.push(h);
        proof {
            assert(amps_view(r@)[i as int] == h@);
            assert(amps_view(v@)[i as int] == v@[i as int]@);
        }
        i += 1;
    }
    proof {
        assert(amps_view(r@) =~= halve_vec(amps_view(v@)));
    }
    r
}

/// Exec reduction to the canonical representative.
pub(crate) fn reduce_exec(v: Vec<Amp>) -> (r: Vec<Amp>)
    requires
        nonzero_vec(amps_view(v@)),
    ensures
        amps_view(r@) == reduce_spec(amps_view(v@)),
        reduced_vec(amps_view(r@)),
        nonzero_vec(amps_view(r@)),
        r@.len() == v@.len(),
{
    let mut cur = v;
    proof {
        lemma_vec_measure_nonneg(amps_view(cur@));
    }
    loop
        invariant
            nonzero_vec(amps_view(cur@)),
            reduce_spec(amps_view(cur@)) == reduce_spec(amps_view(v@)),
            cur@.len() == v@.len(),
        decreases vec_measure(amps_view(cur@)),
    {
        proof {
            lemma_vec_measure_nonneg(amps_view(cur@));
            lemma_vec_measure_pos(amps_view(cur@));
        }
        let even = all_even_exec(&cur);
        if !even {
            proof {
                assert(reduce_spec(amps_view(cur@)) == amps_view(cur@));
            }
            return cur;
        }
        proof {
            let w = amps_view(cur@);
            let h = halve_vec(w);
            let i = choose|i: int| 0 <= i < w.len() && #[trigger] w[i] != c_zero();
            assert(h[i] == c_half(w[i]));
            assert(c_even(w[i]));
            assert(h[i] != c_zero());
            assert(nonzero_vec(h));
            lemma_vec_measure_halve(w);
        }
        cur = halve_exec(&cur);
    }
}

} // verus!
