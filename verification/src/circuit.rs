//! The circuit engine: a register state vector, gate application, and
//! probabilistic measurement.
//!
//! The stored amplitude vector is a nonzero, canonically reduced vector over
//! the cyclotomic ring; the physical state is its unit-norm scaling, so the
//! norm-one invariant holds by construction as long as the vector stays
//! nonzero — which `wf` demands and every operation preserves.

use vstd::prelude::*;
use vstd::arithmetic::power2::pow2;
use vstd::arithmetic::power2::lemma_pow2_pos;
use vstd::arithmetic::power2::lemma_pow2_adds;
use vstd::arithmetic::power2::lemma_pow2_strictly_increases;
use crate::complex::C4;
use crate::complex::c_zero;
use crate::complex::c_one;
use crate::complex::c_even;
use crate::complex::c_weight;
use crate::complex::lemma_weight_pos;
use crate::complex::Amp;
use crate::complex::WEIGHT_ONE;
use crate::complex::WEIGHT_SQRT2;
use crate::bigint::big_value;
use crate::bigint::big_from_i64;
use crate::bigint::big_add;
use crate::bigint::big_sub;
use crate::bigint::big_mul;
use crate::bigint::big_lt;
use crate::bigint::rng_new;
use crate::bigint::big_random_range;
use crate::linalg::amps_view;
use crate::linalg::mat_view;
use crate::linalg::nonzero_vec;
use crate::linalg::reduced_vec;
use crate::linalg::all_even_vec;
use crate::linalg::basis_vec;
use crate::linalg::reduce_spec;
use crate::linalg::mat_vec_mul;
use crate::linalg::mat_vec_mul_exec;
use crate::linalg::reduce_exec;
use crate::linalg::lemma_reduce_props;
use crate::gate::Gate;
use crate::gate::gate_wf;
use crate::gate::gate_span;
use crate::gate::gate_pos;
use crate::gate::gate_local;
use crate::gate::full_matrix;
use crate::gate::apply_spec;
use crate::gate::pow2_exec;
use crate::gate::embed_exec;
use crate::gate::lemma_gate_local_dims;
use crate::gate::lemma_gate_nonzero;
use crate::gate::lemma_pow2_gt_exp;

verus! {

/// Construction-time failures of the circuit constructors.
#[derive(Clone, Copy, PartialEq, Eq, Structural, Debug)]
pub enum CircuitError {
    /// The basis-set constructor was given no indices.
    EmptyInput,
    /// The basis-set constructor was given a repeated index.
    DuplicateState,
    /// The amplitude-vector constructor was given a length that is not a
    /// power of two.
    InvalidLength,
}

/// Floor of the base-two logarithm; zero below two.
pub open spec fn spec_log2(x: int) -> nat
    decreases x,
{
    if x < 2 {
        0
    } else {
        1 + spec_log2(x / 2)
    }
}

/// `pow2(log2(x)) <= x < pow2(log2(x) + 1)` for positive `x`.
pub proof fn lemma_log2_bounds(x: int)
    requires
        x >= 1,
    ensures
        pow2(spec_log2(x)) <= x < pow2(spec_log2(x) + 1),
    decreases x,
{
    vstd::arithmetic::power2::lemma2_to64();
    if x < 2 {
        assert(pow2(0) == 1 && pow2(1) == 2);
    } else {
        lemma_log2_bounds(x / 2);
        let l = spec_log2(x / 2);
        vstd::arithmetic::power2::lemma_pow2_unfold(l + 1);
        vstd::arithmetic::power2::lemma_pow2_unfold(l + 2);
        assert(x == 2 * (x / 2) + x % 2);
    }
}

/// Floor of the base-two logarithm, executed by repeated halving.
fn floor_log2_exec(x: usize) -> (r: usize)
    requires
        x >= 1,
    ensures
        r == spec_log2(x as int),
        (r as int) < x as int,
{
    let mut m: usize = x;
    let mut r: usize = 0;
    proof {
        lemma_pow2_gt_exp(spec_log2(x as int));
        lemma_log2_bounds(x as int);
    }
    while m >= 2
        invariant
            m >= 1,
            spec_log2(x as int) == spec_log2(m as int) + r,
            r <= spec_log2(x as int),
            spec_log2(x as int) < x as int,
        decreases m,
    {
        m = m / 2;
        r = r + 1;
    }
    r
}

/// Largest value among the first `k` entries; zero when `k` is zero.
pub open spec fn seq_max_prefix(s: Seq<usize>, k: int) -> int
    decreases k,
{
    if k <= 0 {
        0
    } else if s[k - 1] as int > seq_max_prefix(s, k - 1) {
        s[k - 1] as int
    } else {
        seq_max_prefix(s, k - 1)
    }
}

/// Largest value in the sequence; zero when it is empty.
pub open spec fn seq_max(s: Seq<usize>) -> int {
    seq_max_prefix(s, s.len() as int)
}

pub proof fn lemma_seq_max_prefix_mono(s: Seq<usize>, a: int, b: int)
    requires
        0 <= a <= b,
    ensures
        seq_max_prefix(s, a) <= seq_max_prefix(s, b),
    decreases b,
{
    if a < b {
        lemma_seq_max_prefix_mono(s, a, b - 1);
    }
}

/// Every entry is at most the sequence maximum.
pub proof fn lemma_seq_max_ge(s: Seq<usize>, i: int)
    requires
        0 <= i < s.len(),
    ensures
        s[i] as int <= seq_max(s),
{
    lemma_seq_max_prefix_mono(s, i + 1, s.len() as int);
}

/// Sum of the sampling weights of the first `k` amplitudes.
pub open spec fn wsum(v: Seq<C4>, k: int) -> int
    decreases k,
{
    if k <= 0 {
        0
    } else {
        wsum(v, k - 1) + c_weight(v[k - 1])
    }
}

/// Weight sums are nonnegative and grow with `k`.
pub proof fn lemma_wsum_mono(v: Seq<C4>, a: int, b: int)
    requires
        0 <= a <= b,
    ensures
        0 <= wsum(v, a) <= wsum(v, b),
    decreases b,
{
    if b > 0 {
        lemma_weight_pos(v[b - 1]);
        if a == b {
            lemma_wsum_mono(v, 0, b - 1);
        } else {
            lemma_wsum_mono(v, a, b - 1);
        }
    }
}

/// A vector with a nonzero entry has positive total weight.
pub proof fn lemma_wsum_pos(v: Seq<C4>)
    requires
        nonzero_vec(v),
    ensures
        wsum(v, v.len() as int) >= 1,
{
    let i = choose|i: int| 0 <= i < v.len() && #[trigger] v[i] != c_zero();
    lemma_weight_pos(v[i]);
    lemma_wsum_mono(v, 0, i);
    lemma_wsum_mono(v, i + 1, v.len() as int);
}

/// The sampling weight of one amplitude as an integer.
fn weight_exec(x: &Amp) -> (r: num::BigInt)
    ensures
        big_value(r) == c_weight(x@),
{
    let aa = big_mul(&x.a, &x.a);
    let bb = big_mul(&x.b, &x.b);
    let cc = big_mul(&x.c, &x.c);
    let dd = big_mul(&x.d, &x.d);
    let p = big_add(&big_add(&big_add(&aa, &bb), &cc), &dd);
    let ab = big_mul(&x.a, &x.b);
    let bc = big_mul(&x.b, &x.c);
    let cd = big_mul(&x.c, &x.d);
    let da = big_mul(&x.d, &x.a);
    let q = big_sub(&big_add(&big_add(&ab, &bc), &cd), &da);
    let scale_one = big_from_i64(WEIGHT_ONE);
    let scale_sqrt2 = big_from_i64(WEIGHT_SQRT2);
    big_add(&big_mul(&p, &scale_one), &big_mul(&q, &scale_sqrt2))
}

/// The one-hot amplitude vector with a one at `j`.
fn basis_exec(len: usize, j: usize) -> (r: Vec<Amp>)
    requires
        j < len,
    ensures
        amps_view(r@) == basis_vec(len as nat, j as nat),
{
    let mut r: Vec<Amp> = Vec::new();
    let mut i: usize = 0;
    while i < len
        invariant
            i <= len,
            r@.len() == i,
            forall|l: int|
                0 <= l < i ==> #[trigger] amps_view(r@)[l] == (if l == j {
                    c_one()
                } else {
                    c_zero()
                }),
        decreases len - i,
    {
        let e = if i == j {
            Amp::one()
        } else {
            Amp::zero()
        };
        let ghost prev = r@;
        r.push(e);
        proof {
            assert forall|l: int| 0 <= l <= i implies #[trigger] amps_view(r@)[l] == (if l == j {
                c_one()
            } else {
                c_zero()
            }) by {
                assert(amps_view(r@)[l] == r@[l]@);
                if l < i {
                    assert(r@[l] == prev[l]);
                    assert(amps_view(prev)[l] == prev[l]@);
                } else {
                    assert(r@[l] == e);
                }
            }
        }
        i += 1;
    }
    proof {
        assert(amps_view(r@) =~= basis_vec(len as nat, j as nat));
    }
    r
}

/// The register state: `2^num_qubits` exact amplitudes.
pub struct QuantumCircuit {
    pub amps: Vec<Amp>,
    pub num_qubits: usize,
    pub num_states: usize,
}

impl View for QuantumCircuit {
    type V = Seq<C4>;

    open spec fn view(&self) -> Seq<C4> {
        amps_view(self.amps@)
    }
}

impl QuantumCircuit {
    /// The invariant of a live register: the counts agree, and the stored
    /// vector is nonzero and canonically reduced, so the physical state —
    /// the unit-norm scaling of the stored vector — is well defined.
    pub open spec fn wf(self) -> bool {
        &&& self.num_states == pow2(self.num_qubits as nat)
        &&& self@.len() == self.num_states
        &&& nonzero_vec(self@)
        &&& reduced_vec(self@)
    }

    /// A register of `num_qubits` qubits in the computational basis state
    /// `initial_state`.
    pub fn new(num_qubits: usize, initial_state: usize) -> (r: QuantumCircuit)
        requires
            pow2(num_qubits as nat) <= usize::MAX,
            (initial_state as int) < pow2(num_qubits as nat),
        ensures
            r.wf(),
            r.num_qubits == num_qubits,
            r@ == basis_vec(pow2(num_qubits as nat), initial_state as nat),
    {
        let num_states = pow2_exec(num_qubits);
        let amps = basis_exec(num_states, initial_state);
        let r = QuantumCircuit { amps, num_qubits, num_states };
        proof {
            assert(r@[initial_state as int] == c_one());
            assert(nonzero_vec(r@));
            assert(!c_even(r@[initial_state as int]));
            assert(!all_even_vec(r@));
        }
        r
    }

    /// A register seeded with an equal superposition of the given basis
    /// states.  The qubit count is derived from the largest index; the set
    /// must be nonempty and duplicate-free.
    pub fn from_states(initial_states: Vec<usize>) -> (r: Result<QuantumCircuit, CircuitError>)
        requires
            forall|i: int|
                0 <= i < initial_states@.len() ==> #[trigger] initial_states@[i] <= usize::MAX
                    / 2,
        ensures
            match r {
                Result::Err(e) => {
                    &&& (e == CircuitError::EmptyInput <==> initial_states@.len() == 0)
                    &&& (e == CircuitError::DuplicateState ==> exists|i: int, j: int|
                        0 <= i < j < initial_states@.len() && initial_states@[i]
                            == initial_states@[j])
                    &&& e != CircuitError::InvalidLength
                },
                Result::Ok(c) => {
                    &&& initial_states@.len() > 0
                    &&& forall|i: int, j: int|
                        0 <= i < j < initial_states@.len() ==> initial_states@[i]
                            != initial_states@[j]
                    &&& c.wf()
                    &&& c.num_qubits as nat == spec_log2(seq_max(initial_states@) as int) + 1
                    &&& c@.len() == pow2(c.num_qubits as nat)
                    &&& forall|l: int|
                        0 <= l < c@.len() ==> #[trigger] c@[l] == (
                        if initial_states@.contains(l as usize) {
                            c_one()
                        } else {
                            c_zero()
                        })
                },
            },
    {
        let len = initial_states.len();
        if len == 0 {
            return Result::Err(CircuitError::EmptyInput);
        }
        // Reject repeated indices.
        let mut i: usize = 0;
        while i < len
            invariant
                len == initial_states@.len(),
                i <= len,
                forall|a: int, b: int|
                    0 <= a < i && a < b < len ==> initial_states@[a] != initial_states@[b],
            decreases len - i,
        {
            let mut j: usize = i + 1;
            while j < len
                invariant
                    len == initial_states@.len(),
                    i < len,
                    i < j <= len,
                    forall|b: int| i < b < j ==> initial_states@[i as int] != initial_states@[b],
                decreases len - j,
            {
                if initial_states[i] == initial_states[j] {
                    return Result::Err(CircuitError::DuplicateState);
                }
                j += 1;
            }
            i += 1;
        }
        // The largest index decides how many qubits are needed.
        let mut max: usize = 0;
        let mut k: usize = 0;
        while k < len
            invariant
                len == initial_states@.len(),
                k <= len,
                max as int == seq_max_prefix(initial_states@, k as int),
                forall|l: int|
                    0 <= l < initial_states@.len() ==> #[trigger] initial_states@[l]
                        <= usize::MAX / 2,
                max <= usize::MAX / 2,
            decreases len - k,
        {
            if initial_states[k] > max {
                max = initial_states[k];
            }
            k += 1;
        }
        proof {
            assert(max as int == seq_max(initial_states@));
        }
        let num_qubits = if max >= 1 {
            floor_log2_exec(max) + 1
        } else {
            1
        };
        proof {
            vstd::arithmetic::power2::lemma2_to64();
            if max >= 1 {
                lemma_log2_bounds(max as int);
                vstd::arithmetic::power2::lemma_pow2_unfold(spec_log2(max as int) + 1);
            }
            assert(pow2(num_qubits as nat) <= usize::MAX);
            assert((max as int) < pow2(num_qubits as nat));
        }
        let num_states = pow2_exec(num_qubits);
        // Ones at the listed indices, zeros elsewhere.
        let mut amps: Vec<Amp> = Vec::new();
        let mut l: usize = 0;
        while l < num_states
            invariant
                len == initial_states@.len(),
                l <= num_states,
                amps@.len() == l,
                forall|a: int|
                    0 <= a < l ==> #[trigger] amps_view(amps@)[a] == (
                    if initial_states@.contains(a as usize) {
                        c_one()
                    } else {
                        c_zero()
                    }),
            decreases num_states - l,
        {
            let mut hit = false;
            let mut s: usize = 0;
            while s < len
                invariant
                    len == initial_states@.len(),
                    s <= len,
                    hit == exists|b: int| 0 <= b < s && initial_states@[b] == l,
                decreases len - s,
            {
                if initial_states[s] == l {
                    hit = true;
                }
                s += 1;
            }
            let e = if hit {
                Amp::one()
            } else {
                Amp::zero()
            };
            let ghost prev = amps@;
            amps.push(e);
            proof {
                if hit {
                    assert(initial_states@.contains(l as usize));
                } else {
                    if initial_states@.contains(l as usize) {
                        let b = choose|b: int|
                            0 <= b < len && initial_states@[b] == l as usize;
                        assert(false);
                    }
                }
                assert forall|a: int| 0 <= a <= l implies #[trigger] amps_view(amps@)[a] == (
                if initial_states@.contains(a as usize) {
                    c_one()
                } else {
                    c_zero()
                }) by {
                    assert(amps_view(amps@)[a] == amps@[a]@);
                    if a < l {
                        assert(amps@[a] == prev[a]);
                        assert(amps_view(prev)[a] == prev[a]@);
                    } else {
                        assert(amps@[a] == e);
                    }
                }
            }
            l += 1;
        }
        let c = QuantumCircuit { amps, num_qubits, num_states };
        proof {
            lemma_seq_max_ge(initial_states@, 0);
            let s0 = initial_states@[0];
            assert(initial_states@.contains(s0));
            assert(s0 as int <= seq_max(initial_states@));
            assert(c@[s0 as int] == c_one());
            assert(nonzero_vec(c@));
            assert(!c_even(c@[s0 as int]));
            assert(!all_even_vec(c@));
        }
        Result::Ok(c)
    }

    /// A register taking over the given amplitude vector, whose length must
    /// be a nonzero power of two; the vector is brought to canonical reduced
    /// form on ingestion.
    pub fn from_state_vector(state_vector: Vec<Amp>) -> (r: Result<
        QuantumCircuit,
        CircuitError,
    >)
        requires
            nonzero_vec(amps_view(state_vector@)),
        ensures
            match r {
                Result::Err(e) => {
                    &&& e == CircuitError::InvalidLength
                    &&& !(state_vector@.len() >= 1 && state_vector@.len() == pow2(
                        spec_log2(state_vector@.len() as int),
                    ))
                },
                Result::Ok(c) => {
                    &&& state_vector@.len() == pow2(spec_log2(state_vector@.len() as int))
                    &&& c.wf()
                    &&& c.num_qubits as nat == spec_log2(state_vector@.len() as int)
                    &&& c.num_states == state_vector@.len()
                    &&& c@ == reduce_spec(amps_view(state_vector@))
                },
            },
    {
        let len = state_vector.len();
        if len == 0 {
            return Result::Err(CircuitError::InvalidLength);
        }
        let num_qubits = floor_log2_exec(len);
        proof {
            lemma_log2_bounds(len as int);
        }
        let num_states = pow2_exec(num_qubits);
        if num_states != len {
            return Result::Err(CircuitError::InvalidLength);
        }
        let ghost v0 = amps_view(state_vector@);
        let amps = reduce_exec(state_vector);
        proof {
            lemma_reduce_props(v0);
        }
        Result::Ok(QuantumCircuit { amps, num_qubits, num_states })
    }

    /// A read-only snapshot of the current amplitude vector.
    pub fn state(&self) -> (r: Vec<Amp>)
        ensures
            amps_view(r@) == self@,
    {
        let mut r: Vec<Amp> = Vec::new();
        let mut i: usize = 0;
        while i < self.amps.len()
            invariant
                i <= self.amps@.len(),
                r@.len() == i,
                forall|l: int| 0 <= l < i ==> #[trigger] amps_view(r@)[l] == self@[l],
            decreases self.amps@.len() - i,
        {
            let e = self.amps[i].dup();
            let ghost prev = r@;
            r.push(e);
            proof {
                assert forall|l: int| 0 <= l <= i implies #[trigger] amps_view(r@)[l]
                    == self@[l] by {
                    assert(amps_view(r@)[l] == r@[l]@);
                    if l < i {
                        assert(r@[l] == prev[l]);
                        assert(amps_view(prev)[l] == prev[l]@);
                    } else {
                        assert(r@[l] == e);
                        assert(self@[l] == self.amps@[l]@);
                    }
                }
            }
            i += 1;
        }
        proof {
            assert(amps_view(r@) =~= self@);
        }
        r
    }

    /// Apply a gate: embed its matrix at its position, multiply it onto the
    /// state vector, and renormalize to the canonical representative.
    pub fn apply_gate(&mut self, gate: Gate)
        requires
            old(self).wf(),
            gate_wf(gate),
            gate_pos(gate) + gate_span(gate) <= old(self).num_qubits as nat,
        ensures
            final(self).wf(),
            final(self).num_qubits == old(self).num_qubits,
            final(self).num_states == old(self).num_states,
            final(self)@ == apply_spec(gate, old(self).num_qubits as nat, old(self)@),
    {
        let n = self.num_qubits;
        let ghost nn = n as nat;
        let ghost v0 = self@;
        proof {
            lemma_pow2_gt_exp(nn);
            if gate_span(gate) < nn {
                lemma_pow2_strictly_increases(gate_span(gate), nn);
            }
            lemma_pow2_gt_exp(gate_span(gate));
        }
        let local = gate.matrix();
        let span = gate.num_qubits();
        let pos = gate.position();
        let rest = n - pos - span;
        proof {
            if (rest as nat) < nn {
                lemma_pow2_strictly_increases(rest as nat, nn);
            }
            lemma_pow2_adds(gate_span(gate), rest as nat);
            if ((span + rest) as nat) < nn {
                lemma_pow2_strictly_increases((span + rest) as nat, nn);
            }
            lemma_gate_local_dims(gate);
        }
        let br = pow2_exec(rest);
        let dl = pow2_exec(span);
        proof {
            lemma_pow2_pos(rest as nat);
            lemma_pow2_pos(gate_span(gate));
        }
        let full = embed_exec(&local, dl, br, self.num_states);
        proof {
            assert(full_matrix(gate, nn) == mat_view(full@));
            assert forall|i: int| 0 <= i < full@.len() implies self.amps@.len() <= #[trigger] full@[i]@.len() by {
                assert(mat_view(full@)[i] == amps_view(full@[i]@));
                assert(mat_view(full@)[i].len() == pow2(nn));
            }
        }
        let w = mat_vec_mul_exec(&full, &self.amps);
        proof {
            lemma_gate_nonzero(gate, nn, v0);
            assert(amps_view(w@) == mat_vec_mul(full_matrix(gate, nn), v0));
        }
        let reduced = reduce_exec(w);
        self.amps = reduced;
    }

    /// Measure the register: sample a basis index with probability
    /// proportional to the squared amplitude magnitude, collapse the state
    /// to that basis vector, and return the index.
    ///
    /// The weights use the exact squared magnitudes `p + q*sqrt(2)` with
    /// `sqrt(2)` replaced by a fixed rational approximation from below; the
    /// approximation keeps every nonzero amplitude's weight positive.
    pub fn measure(&mut self) -> (r: usize)
        requires
            old(self).wf(),
        ensures
            final(self).wf(),
            final(self).num_qubits == old(self).num_qubits,
            final(self).num_states == old(self).num_states,
            r < old(self).num_states,
            old(self)@[r as int] != c_zero(),
            final(self)@ == basis_vec(old(self).num_states as nat, r as nat),
    {
        let ghost v0 = self@;
        let len = self.amps.len();
        let mut weights: Vec<num::BigInt> = Vec::new();
        let mut i: usize = 0;
        while i < len
            invariant
                len == self.amps@.len(),
                v0 == self@,
                i <= len,
                weights@.len() == i,
                forall|l: int|
                    0 <= l < i ==> big_value(#[trigger] weights@[l]) == c_weight(v0[l]),
            decreases len - i,
        {
            let wt = weight_exec(&self.amps[i]);
            proof {
                assert(self@[i as int] == self.amps@[i as int]@);
            }
            weights.push(wt);
            i += 1;
        }
        let mut total = big_from_i64(0);
        let mut k: usize = 0;
        while k < len
            invariant
                len == weights@.len(),
                len == v0.len(),
                forall|l: int|
                    0 <= l < len ==> big_value(#[trigger] weights@[l]) == c_weight(v0[l]),
                k <= len,
                big_value(total) == wsum(v0, k as int),
            decreases len - k,
        {
            total = big_add(&total, &weights[k]);
            k += 1;
        }
        proof {
            lemma_wsum_pos(v0);
        }
        let zero = big_from_i64(0);
        let mut rng = rng_new();
        let pick = big_random_range(&mut rng, &zero, &total);
        let mut acc = big_from_i64(0);
        let mut j: usize = 0;
        while j < len
            invariant
                old(self).wf(),
                self == old(self),
                v0 == self@,
                len == self.amps@.len(),
                len == weights@.len(),
                len == v0.len(),
                len == old(self).num_states,
                forall|l: int|
                    0 <= l < len ==> big_value(#[trigger] weights@[l]) == c_weight(v0[l]),
                j <= len,
                big_value(acc) == wsum(v0, j as int),
                big_value(pick) >= wsum(v0, j as int),
                big_value(pick) < wsum(v0, len as int),
            decreases len - j,
        {
            let next = big_add(&acc, &weights[j]);
            if big_lt(&pick, &next) {
                proof {
                    assert(c_weight(v0[j as int]) >= 1);
                    lemma_weight_pos(v0[j as int]);
                    assert(v0[j as int] != c_zero());
                }
                let collapsed = basis_exec(len, j);
                self.amps = collapsed;
                proof {
                    assert(self@[j as int] == c_one());
                    assert(nonzero_vec(self@));
                    assert(!c_even(self@[j as int]));
                    assert(!all_even_vec(self@));
                }
                return j;
            }
            acc = next;
            j += 1;
        }
        proof {
            assert(big_value(pick) >= wsum(v0, len as int));
            assert(false);
        }
        0
    }
}

} // verus!
