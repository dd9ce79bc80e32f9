//! The algebraic laws of the simulator, proved against the same spec
//! functions that the engine's contracts use.
//!
//! A register state is a nonzero reduced amplitude vector; `apply_spec`
//! is the canonical state after a gate.  The laws state that the identity
//! gate fixes the state, that the self-inverse gates undo themselves, that
//! swap exchanges basis-index bits, and that every state has a strictly
//! positive squared norm, which is what makes its unit-norm physical
//! reading well defined.

use vstd::prelude::*;
use vstd::arithmetic::power2::pow2;
use vstd::arithmetic::power2::lemma_pow2_pos;
use vstd::arithmetic::power2::lemma_pow2_adds;
use crate::complex::C4;
use crate::complex::c_zero;
use crate::complex::c_one;
use crate::complex::c_mul;
use crate::complex::c_scale;
use crate::complex::c_norm_p;
use crate::complex::c_norm_q;
use crate::complex::lemma_c_mul_one;
use crate::complex::lemma_norm_sq_pos;
use crate::linalg::nonzero_vec;
use crate::linalg::reduced_vec;
use crate::linalg::all_even_vec;
use crate::linalg::basis_vec;
use crate::linalg::reduce_spec;
use crate::linalg::scale_vec;
use crate::linalg::mat_vec_mul;
use crate::linalg::dotp;
use crate::linalg::lemma_dotp_scale;
use crate::linalg::lemma_vec_measure_nonneg;
use crate::linalg::lemma_reduce_props;
use crate::linalg::lemma_reduce_scale2;
use crate::linalg::lemma_reduce_scale_pow2;
use crate::linalg::lemma_reduce_unscale;
use crate::embed::bitv;
use crate::embed::midx;
use crate::embed::recomb;
use crate::gate::Gate;
use crate::gate::gate_wf;
use crate::gate::gate_is_h;
use crate::gate::gate_span;
use crate::gate::gate_pos;
use crate::gate::gate_row_map;
use crate::gate::gate_row_val;
use crate::gate::gate_sigma;
use crate::gate::full_matrix;
use crate::gate::apply_spec;
use crate::gate::lemma_gate_action;
use crate::gate::lemma_gate_action_preserves;
use crate::gate::lemma_h_double;
use crate::gate::cx_cexp;
use crate::gate::cx_texp;

verus! {

/// A valid register state on `n` qubits: the right length, nonzero, and in
/// canonical reduced form.
pub open spec fn wf_state(v: Seq<C4>, n: nat) -> bool {
    &&& v.len() == pow2(n)
    &&& nonzero_vec(v)
    &&& reduced_vec(v)
}

/// Rational part of the squared norm of the first `k` amplitudes.
pub open spec fn norm_p_sum(v: Seq<C4>, k: int) -> int
    decreases k,
{
    if k <= 0 {
        0
    } else {
        norm_p_sum(v, k - 1) + c_norm_p(v[k - 1])
    }
}

/// `sqrt(2)` part of the squared norm of the first `k` amplitudes.
pub open spec fn norm_q_sum(v: Seq<C4>, k: int) -> int
    decreases k,
{
    if k <= 0 {
        0
    } else {
        norm_q_sum(v, k - 1) + c_norm_q(v[k - 1])
    }
}

/// Positivity is preserved when adding squared magnitudes.
proof fn lemma_pq_add(p1: int, q1: int, p2: int, q2: int)
    requires
        p1 >= 0,
        p1 * p1 >= 2 * (q1 * q1),
        p2 >= 0,
        p2 * p2 >= 2 * (q2 * q2),
    ensures
        p1 + p2 >= 0,
        (p1 + p2) * (p1 + p2) >= 2 * ((q1 + q2) * (q1 + q2)),
{
    assert((p1 * p2) * (p1 * p2) >= (2 * (q1 * q2)) * (2 * (q1 * q2))) by (nonlinear_arith)
        requires
            p1 * p1 >= 2 * (q1 * q1),
            p2 * p2 >= 2 * (q2 * q2),
            p1 >= 0,
            p2 >= 0,
    ;
    assert(p1 * p2 >= 0) by (nonlinear_arith)
        requires
            p1 >= 0,
            p2 >= 0,
    ;
    assert(p1 * p2 >= 2 * (q1 * q2)) by (nonlinear_arith)
        requires
            (p1 * p2) * (p1 * p2) >= (2 * (q1 * q2)) * (2 * (q1 * q2)),
            p1 * p2 >= 0,
    ;
    assert((p1 + p2) * (p1 + p2) >= 2 * ((q1 + q2) * (q1 + q2))) by (nonlinear_arith)
        requires
            p1 * p1 >= 2 * (q1 * q1),
            p2 * p2 >= 2 * (q2 * q2),
            p1 * p2 >= 2 * (q1 * q2),
    ;
}

/// The squared norm `P + Q*sqrt(2)` of a prefix is nonnegative.
proof fn lemma_norm_sum_bounds(v: Seq<C4>, k: int)
    requires
        0 <= k <= v.len(),
    ensures
        norm_p_sum(v, k) >= 0,
        norm_p_sum(v, k) * norm_p_sum(v, k) >= 2 * (norm_q_sum(v, k) * norm_q_sum(v, k)),
        nonzero_vec(v.take(k)) ==> norm_p_sum(v, k) >= 1,
    decreases k,
{
    if k <= 0 {
        assert(!nonzero_vec(v.take(k)));
    } else {
        lemma_norm_sum_bounds(v, k - 1);
        lemma_norm_sq_pos(v[k - 1]);
        lemma_pq_add(
            norm_p_sum(v, k - 1),
            norm_q_sum(v, k - 1),
            c_norm_p(v[k - 1]),
            c_norm_q(v[k - 1]),
        );
        if nonzero_vec(v.take(k)) {
            let i = choose|i: int| 0 <= i < k && #[trigger] v.take(k)[i] != c_zero();
            if i == k - 1 {
                assert(c_norm_p(v[k - 1]) >= 1);
            } else {
                assert(v.take(k - 1)[i] == v[i]);
                assert(nonzero_vec(v.take(k - 1)));
            }
        }
    }
}

/// The squared Euclidean norm of a well-formed state, written `P + Q*sqrt(2)`
/// with integers `P = norm_p_sum` and `Q = norm_q_sum`, is strictly positive:
/// `P >= 1` and `P^2 >= 2*Q^2`.  The physical state is the stored vector
/// divided by the square root of this quantity, so it always has norm one —
/// after construction, after every gate, and after every measurement.
pub proof fn lemma_state_norm_positive(v: Seq<C4>, n: nat)
    requires
        wf_state(v, n),
    ensures
        norm_p_sum(v, v.len() as int) >= 1,
        norm_p_sum(v, v.len() as int) * norm_p_sum(v, v.len() as int) >= 2 * (norm_q_sum(
            v,
            v.len() as int,
        ) * norm_q_sum(v, v.len() as int)),
{
    assert(v.take(v.len() as int) =~= v);
    lemma_norm_sum_bounds(v, v.len() as int);
}

/// The identity gate leaves every well-formed state exactly unchanged.
pub proof fn lemma_apply_identity(q: usize, n: nat, v: Seq<C4>)
    requires
        (q as nat) < n,
        wf_state(v, n),
    ensures
        apply_spec(Gate::I(q), n, v) == v,
{
    lemma_apply_self_inverse_once(Gate::I(q), n, v);
    let g = Gate::I(q);
    let w = mat_vec_mul(full_matrix(g, n), v);
    assert(w =~= v) by {
        lemma_gate_action(g, n, v);
        let dl = pow2(gate_span(g)) as int;
        let br = pow2((n - gate_pos(g) - gate_span(g)) as nat) as int;
        assert forall|x: int| 0 <= x < pow2(n) implies #[trigger] w[x] == v[x] by {
            let mid = midx(x, dl, br);
            assert(gate_row_map(g)(mid) == mid);
            assert(gate_sigma(g, n, x) == recomb(x, mid, dl, br));
            assert(recomb(x, mid, dl, br) == x + (mid - mid) * br);
            assert((mid - mid) * br == 0) by (nonlinear_arith);
            assert(gate_row_val(g)(mid) == c_one());
            lemma_c_mul_one(v[x]);
        }
    }
    lemma_vec_measure_nonneg(v);
    assert(reduce_spec(w) == v);
}

/// Helper: for a gate whose row values are all one, one application maps
/// entry `sigma(x)` to `x` and keeps the state nonzero and reduced.
proof fn lemma_apply_self_inverse_once(g: Gate, n: nat, v: Seq<C4>)
    requires
        gate_wf(g),
        !gate_is_h(g),
        gate_pos(g) + gate_span(g) <= n,
        wf_state(v, n),
    ensures
        wf_state(mat_vec_mul(full_matrix(g, n), v), n),
        apply_spec(g, n, v) == mat_vec_mul(full_matrix(g, n), v),
{
    lemma_gate_action(g, n, v);
    lemma_gate_action_preserves(g, n, v);
    let w = mat_vec_mul(full_matrix(g, n), v);
    lemma_vec_measure_nonneg(w);
    assert(reduce_spec(w) == w);
}

/// A gate whose local matrix is a plain permutation undoes itself: applying
/// it twice returns every well-formed state to its original value.
pub proof fn lemma_apply_permutation_twice(g: Gate, n: nat, v: Seq<C4>)
    requires
        gate_wf(g),
        !gate_is_h(g),
        gate_pos(g) + gate_span(g) <= n,
        forall|r: int|
            0 <= r < pow2(gate_span(g)) ==> #[trigger] gate_row_val(g)(r) == c_one(),
        wf_state(v, n),
    ensures
        apply_spec(g, n, apply_spec(g, n, v)) == v,
{
    let dl = pow2(gate_span(g)) as int;
    let br = pow2((n - gate_pos(g) - gate_span(g)) as nat) as int;
    lemma_pow2_pos(gate_span(g));
    lemma_pow2_pos((n - gate_pos(g) - gate_span(g)) as nat);
    lemma_apply_self_inverse_once(g, n, v);
    let w1 = mat_vec_mul(full_matrix(g, n), v);
    lemma_gate_action(g, n, v);
    lemma_apply_self_inverse_once(g, n, w1);
    let w2 = mat_vec_mul(full_matrix(g, n), w1);
    lemma_gate_action(g, n, w1);
    assert(w2 =~= v) by {
        assert forall|x: int| 0 <= x < pow2(n) implies #[trigger] w2[x] == v[x] by {
            crate::embed::lemma_decompose(x, dl, br);
            let y = gate_sigma(g, n, x);
            crate::embed::lemma_decompose(y, dl, br);
            assert(w2[x] == c_mul(
                gate_row_val(g)(midx(x, dl, br)),
                w1[y],
            ));
            assert(w1[y] == c_mul(gate_row_val(g)(midx(y, dl, br)), v[gate_sigma(g, n, y)]));
            assert(gate_sigma(g, n, y) == x);
            lemma_c_mul_one(v[x]);
            lemma_c_mul_one(w1[y]);
        }
    }
}

/// Applying a Pauli-X gate twice returns the state to its original value.
pub proof fn lemma_apply_x_twice(q: usize, n: nat, v: Seq<C4>)
    requires
        (q as nat) < n,
        wf_state(v, n),
    ensures
        apply_spec(Gate::X(q), n, apply_spec(Gate::X(q), n, v)) == v,
{
    lemma_apply_permutation_twice(Gate::X(q), n, v);
}

/// Applying a controlled-X gate twice is the identity transform, for every
/// control and target pair, adjacent or not.
pub proof fn lemma_apply_cx_twice(c: usize, t: usize, n: nat, v: Seq<C4>)
    requires
        c != t,
        (c as nat) < n,
        (t as nat) < n,
        wf_state(v, n),
    ensures
        apply_spec(Gate::CX(c, t), n, apply_spec(Gate::CX(c, t), n, v)) == v,
{
    lemma_apply_permutation_twice(Gate::CX(c, t), n, v);
}

/// Applying a Hadamard gate twice returns the state to its original value:
/// the matrix squares to twice the identity, and the factor of two is
/// removed by the canonical reduction.
pub proof fn lemma_apply_h_twice(q: usize, n: nat, v: Seq<C4>)
    requires
        (q as nat) < n,
        wf_state(v, n),
    ensures
        apply_spec(Gate::H(q), n, apply_spec(Gate::H(q), n, v)) == v,
{
    let g = Gate::H(q);
    let w1 = mat_vec_mul(full_matrix(g, n), v);
    lemma_h_double(q, n, v);
    let s1 = reduce_spec(w1);
    lemma_reduce_props(w1);
    lemma_reduce_unscale(w1);
    let e = choose|e: nat| scale_vec(pow2(e) as int, reduce_spec(w1)) =~= w1;
    let w2 = mat_vec_mul(full_matrix(g, n), s1);
    lemma_h_double(q, n, s1);
    assert(mat_vec_mul(full_matrix(g, n), w1) =~= scale_vec(2, v));
    assert(scale_vec(pow2(e) as int, s1) == w1);
    assert(mat_vec_mul(full_matrix(g, n), scale_vec(pow2(e) as int, s1)) =~= scale_vec(
        pow2(e) as int,
        w2,
    )) by {
        let m = full_matrix(g, n);
        assert forall|x: int|
            0 <= x < m.len() implies #[trigger] mat_vec_mul(m, scale_vec(pow2(e) as int, s1))[x]
            == scale_vec(pow2(e) as int, w2)[x] by {
            lemma_dotp_scale(m[x], s1, s1.len() as int, pow2(e) as int);
            assert(scale_vec(pow2(e) as int, w2)[x] == c_scale(pow2(e) as int, w2[x]));
            assert(w2[x] == dotp(m[x], s1, s1.len() as int));
        }
    }
    assert(scale_vec(pow2(e) as int, w2) == scale_vec(2, v));
    assert(nonzero_vec(w2)) by {
        assert(nonzero_vec(s1));
    }
    lemma_reduce_scale_pow2(w2, e);
    assert(reduce_spec(scale_vec(pow2(e) as int, w2)) == reduce_spec(w2));
    lemma_reduce_scale2(v);
    assert(reduce_spec(scale_vec(2, v)) == reduce_spec(v));
    lemma_vec_measure_nonneg(v);
    assert(reduce_spec(v) == v);
}

/// The basis index with the values of qubits `a` and `b` exchanged; qubit
/// `q` occupies the bit with mask `2^(n-1-q)`.
pub open spec fn swap_index(i: int, n: nat, a: nat, b: nat) -> int {
    let ma = pow2((n - 1 - a) as nat) as int;
    let mb = pow2((n - 1 - b) as nat) as int;
    i + (bitv(i, mb) - bitv(i, ma)) * ma + (bitv(i, ma) - bitv(i, mb)) * mb
}

/// Swapping two qubits of a computational basis state yields the basis
/// state whose index has those two bits exchanged; in particular, when the
/// bits differ, the state moves to the index with both bits flipped, with
/// amplitude one there.
pub proof fn lemma_apply_swap_basis(a: usize, b: usize, n: nat, i: int)
    requires
        a != b,
        (a as nat) < n,
        (b as nat) < n,
        0 <= i < pow2(n),
    ensures
        0 <= swap_index(i, n, a as nat, b as nat) < pow2(n),
        apply_spec(Gate::SWAP(a, b), n, basis_vec(pow2(n), i as nat)) == basis_vec(
            pow2(n),
            swap_index(i, n, a as nat, b as nat) as nat,
        ),
{
    let g = Gate::SWAP(a, b);
    let s = gate_span(g);
    let pos = gate_pos(g);
    let re = (n - pos - s) as nat;
    let dl = pow2(s) as int;
    let br = pow2(re) as int;
    let v = basis_vec(pow2(n), i as nat);
    lemma_pow2_pos(s);
    lemma_pow2_pos(re);
    assert(v[i] == c_one());
    assert(nonzero_vec(v));
    assert(!crate::complex::c_even(v[i]));
    assert(!all_even_vec(v));
    assert(wf_state(v, n));
    lemma_apply_self_inverse_once(g, n, v);
    lemma_gate_action(g, n, v);
    let w = mat_vec_mul(full_matrix(g, n), v);
    let j = gate_sigma(g, n, i);
    // The result is the basis vector at sigma(i).
    assert(w =~= basis_vec(pow2(n), j as nat)) by {
        assert forall|x: int| 0 <= x < pow2(n) implies #[trigger] w[x] == basis_vec(
            pow2(n),
            j as nat,
        )[x] by {
            let y = gate_sigma(g, n, x);
            assert(w[x] == c_mul(gate_row_val(g)(midx(x, dl, br)), v[y]));
            lemma_c_mul_one(v[y]);
            assert(w[x] == v[y]);
            if x == j {
                assert(gate_sigma(g, n, j) == i);
            } else {
                if y == i {
                    assert(gate_sigma(g, n, y) == x);
                    assert(gate_sigma(g, n, i) == x);
                    assert(false);
                }
                assert(v[y] == c_zero());
            }
        }
    }
    // sigma(i) is the index with the two qubit bits exchanged.
    assert(j == swap_index(i, n, a as nat, b as nat)) by {
        let ci = cx_cexp(a as int, b as int) as nat;
        let ti = cx_texp(a as int, b as int) as nat;
        let cm = pow2(ci) as int;
        let tm = pow2(ti) as int;
        crate::embed::lemma_decompose(i, dl, br);
        let mid = midx(i, dl, br);
        crate::embed::lemma_swap_map(mid, s, ci, ti);
        let bc = bitv(mid, cm);
        let bt = bitv(mid, tm);
        let fm = gate_row_map(g)(mid);
        assert(fm == mid + (bt - bc) * cm + (bc - bt) * tm);
        assert(j == i + (fm - mid) * br);
        crate::embed::lemma_mid_bit(i, s, re, ci);
        crate::embed::lemma_mid_bit(i, s, re, ti);
        lemma_pow2_adds(ci, re);
        lemma_pow2_adds(ti, re);
        assert(ci + re == (n - 1 - a) as nat);
        assert(ti + re == (n - 1 - b) as nat);
        let ma = pow2((n - 1 - a) as nat) as int;
        let mb = pow2((n - 1 - b) as nat) as int;
        assert(ma == cm * br && mb == tm * br);
        assert(bc == bitv(i, ma) && bt == bitv(i, mb));
        assert((fm - mid) * br == (bt - bc) * ma + (bc - bt) * mb) by (nonlinear_arith)
            requires
                fm == mid + (bt - bc) * cm + (bc - bt) * tm,
                ma == cm * br,
                mb == tm * br,
        ;
    }
}

/// A basis vector is nonzero only at its own index: together with the
/// contract of `measure`, a register in a one-hot basis state always
/// measures that index, and the collapsed state equals the state before.
pub proof fn lemma_basis_unique(len: nat, j: nat, i: int)
    requires
        j < len,
        0 <= i < len,
        basis_vec(len, j)[i] != c_zero(),
    ensures
        i == j,
{
}

} // verus!