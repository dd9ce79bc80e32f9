//! Gate descriptors and the unitary matrix of each.
//!
//! Each gate matrix is stored exactly over the amplitude ring, scaled by a
//! positive real factor where needed: the Hadamard matrix is kept as
//! `[[1, 1], [1, -1]]`, i.e. `sqrt(2)` times the unitary Hadamard.  The
//! scaling drops out when the state vector is renormalized, so the physical
//! action is unchanged.
//!
//! A controlled gate on qubits `c != t` acts as a dense block over the whole
//! contiguous qubit range between them: basis index `i` of the block maps to
//! `i` when the control bit is clear and to `i` with the target bit flipped
//! when it is set.  The swap gate is the composition of three controlled-X
//! gates over the same block.

use vstd::prelude::*;
use vstd::arithmetic::power2::pow2;
use vstd::arithmetic::power2::lemma_pow2_pos;
use vstd::arithmetic::power2::lemma_pow2_strictly_increases;
use crate::complex::C4;
use crate::complex::c_zero;
use crate::complex::c_one;
use crate::complex::c_imag;
use crate::complex::c_omega;
use crate::complex::c_neg;
use crate::complex::Amp;
use crate::linalg::mat_mul;
use crate::linalg::mat_vec_mul;
use crate::linalg::amps_view;
use crate::linalg::mat_view;
use crate::linalg::reduce_spec;
use crate::embed::cx_map;
use crate::embed::perm_mat;
use crate::embed::embed_entry;
use crate::embed::embed_matrix;
use crate::embed::midx;
use crate::embed::recomb;
use crate::embed::is_unit_rows;
use crate::embed::lemma_flip_self;
use crate::embed::lemma_flip_bound;
use crate::embed::lemma_cx_map_props;
use crate::complex::c_is_unit;
use crate::complex::c_mul;
use crate::complex::c_add;
use crate::complex::c_scale;
use crate::linalg::nonzero_vec;
use crate::linalg::all_even_vec;
use crate::complex::c_even;

verus! {

/// A gate descriptor: which gate, and on which qubit or qubit pair.
#[derive(Clone, Copy)]
pub enum Gate {
    I(usize),
    X(usize),
    Y(usize),
    Z(usize),
    H(usize),
    S(usize),
    T(usize),
    CX(usize, usize),
    SWAP(usize, usize),
}

/// A well-formed two-qubit gate has distinct control and target.
pub open spec fn gate_wf(g: Gate) -> bool {
    match g {
        Gate::CX(c, t) => c != t,
        Gate::SWAP(c, t) => c != t,
        _ => true,
    }
}

/// Width of the qubit block that the matrix of a gate covers.
pub open spec fn gate_span(g: Gate) -> nat {
    match g {
        Gate::CX(c, t) => ((if c > t {
            c - t
        } else {
            t - c
        }) + 1) as nat,
        Gate::SWAP(c, t) => ((if c > t {
            c - t
        } else {
            t - c
        }) + 1) as nat,
        _ => 1,
    }
}

/// The smallest qubit index of a gate's block.
pub open spec fn gate_pos(g: Gate) -> nat {
    match g {
        Gate::I(t) => t as nat,
        Gate::X(t) => t as nat,
        Gate::Y(t) => t as nat,
        Gate::Z(t) => t as nat,
        Gate::H(t) => t as nat,
        Gate::S(t) => t as nat,
        Gate::T(t) => t as nat,
        Gate::CX(c, t) => (if c < t {
            c
        } else {
            t
        }) as nat,
        Gate::SWAP(c, t) => (if c < t {
            c
        } else {
            t
        }) as nat,
    }
}

/// A fixed 2 x 2 matrix.
pub open spec fn mat2(e00: C4, e01: C4, e10: C4, e11: C4) -> Seq<Seq<C4>> {
    seq![seq![e00, e01], seq![e10, e11]]
}

/// Mask exponent of the control bit inside the block of `CX(c, t)`.
pub open spec fn cx_cexp(c: int, t: int) -> int {
    if c < t {
        t - c
    } else {
        0
    }
}

/// Mask exponent of the target bit inside the block of `CX(c, t)`.
pub open spec fn cx_texp(c: int, t: int) -> int {
    if c < t {
        0
    } else {
        c - t
    }
}

/// The local matrix of `CX(c, t)`: the permutation that flips the target
/// bit exactly where the control bit is set.
pub open spec fn cx_local(c: int, t: int) -> Seq<Seq<C4>> {
    let delta = if c > t {
        c - t
    } else {
        t - c
    };
    perm_mat(
        pow2((delta + 1) as nat),
        |x: int|
            cx_map(
                x,
                pow2(cx_cexp(c, t) as nat) as int,
                pow2(cx_texp(c, t) as nat) as int,
            ),
    )
}

/// The unitary matrix of a gate over its span, up to a positive real scalar.
pub open spec fn gate_local(g: Gate) -> Seq<Seq<C4>> {
    match g {
        Gate::I(_) => mat2(c_one(), c_zero(), c_zero(), c_one()),
        Gate::X(_) => mat2(c_zero(), c_one(), c_one(), c_zero()),
        Gate::Y(_) => mat2(c_zero(), c_neg(c_imag()), c_imag(), c_zero()),
        Gate::Z(_) => mat2(c_one(), c_zero(), c_zero(), c_neg(c_one())),
        Gate::H(_) => mat2(c_one(), c_one(), c_one(), c_neg(c_one())),
        Gate::S(_) => mat2(c_one(), c_zero(), c_zero(), c_imag()),
        Gate::T(_) => mat2(c_one(), c_zero(), c_zero(), c_omega()),
        Gate::CX(c, t) => cx_local(c as int, t as int),
        Gate::SWAP(c, t) => mat_mul(
            cx_local(c as int, t as int),
            mat_mul(cx_local(t as int, c as int), cx_local(c as int, t as int)),
        ),
    }
}

/// The operator on the whole register: identity on the qubits outside
/// the block, the local matrix on the block.
pub open spec fn full_matrix(g: Gate, n: nat) -> Seq<Seq<C4>> {
    embed_matrix(
        gate_local(g),
        pow2(gate_span(g)) as int,
        pow2((n - gate_pos(g) - gate_span(g)) as nat) as int,
        pow2(n),
    )
}

/// The state after applying gate `g` on an `n`-qubit register, in canonical
/// reduced form.
pub open spec fn apply_spec(g: Gate, n: nat, v: Seq<C4>) -> Seq<C4> {
    reduce_spec(mat_vec_mul(full_matrix(g, n), v))
}

impl Gate {
    /// Width of the qubit block that this gate's matrix covers.
    pub fn num_qubits(&self) -> (r: usize)
        requires
            gate_span(*self) <= usize::MAX,
        ensures
            r == gate_span(*self),
    {
        match *self {
            Gate::I(_) => 1,
            Gate::X(_) => 1,
            Gate::Y(_) => 1,
            Gate::Z(_) => 1,
            Gate::H(_) => 1,
            Gate::S(_) => 1,
            Gate::T(_) => 1,
            Gate::CX(c, t) => {
                proof {
                    assert(gate_span(*self) == ((if c > t {
                        c - t
                    } else {
                        t - c
                    }) + 1) as nat);
                }
                if c > t {
                    c - t + 1
                } else {
                    t - c + 1
                }
            },
            Gate::SWAP(c, t) => {
                proof {
                    assert(gate_span(*self) == ((if c > t {
                        c - t
                    } else {
                        t - c
                    }) + 1) as nat);
                }
                if c > t {
                    c - t + 1
                } else {
                    t - c + 1
                }
            },
        }
    }

    /// The smallest qubit index of this gate's block.
    pub fn position(&self) -> (r: usize)
        ensures
            r == gate_pos(*self),
    {
        match *self {
            Gate::I(t) => t,
            Gate::X(t) => t,
            Gate::Y(t) => t,
            Gate::Z(t) => t,
            Gate::H(t) => t,
            Gate::S(t) => t,
            Gate::T(t) => t,
            Gate::CX(c, t) => if c < t {
                c
            } else {
                t
            },
            Gate::SWAP(c, t) => if c < t {
                c
            } else {
                t
            },
        }
    }
}

/// `2^e` as a machine integer.
pub(crate) fn pow2_exec(e: usize) -> (r: usize)
    requires
        pow2(e as nat) <= usize::MAX,
    ensures
        r == pow2(e as nat),
{
    let mut r: usize = 1;
    let mut i: usize = 0;
    proof {
        vstd::arithmetic::power2::lemma2_to64();
    }
    while i < e
        invariant
            i <= e,
            r == pow2(i as nat),
            pow2(e as nat) <= usize::MAX,
        decreases e - i,
    {
        proof {
            vstd::arithmetic::power2::lemma_pow2_unfold((i + 1) as nat);
            if i + 1 < e {
                lemma_pow2_strictly_increases((i + 1) as nat, e as nat);
            }
        }
        r = 2 * r;
        i += 1;
    }
    r
}

/// Every exponent is below its power of two.
pub proof fn lemma_pow2_gt_exp(e: nat)
    ensures
        e < pow2(e),
    decreases e,
{
    vstd::arithmetic::power2::lemma2_to64();
    if e > 0 {
        lemma_pow2_gt_exp((e - 1) as nat);
        vstd::arithmetic::power2::lemma_pow2_unfold(e);
    }
}

/// The block index map of a controlled-X gate, executed on machine integers.
fn cx_map_exec(
    x: usize,
    cm: usize,
    tm: usize,
    Ghost(ci): Ghost<nat>,
    Ghost(ti): Ghost<nat>,
    Ghost(s): Ghost<nat>,
) -> (r: usize)
    requires
        cm == pow2(ci),
        tm == pow2(ti),
        ci < s,
        ti < s,
        ci != ti,
        (x as int) < pow2(s),
        pow2(s) <= usize::MAX,
    ensures
        r as int == cx_map(x as int, cm as int, tm as int),
        (r as int) < pow2(s),
{
    proof {
        lemma_pow2_pos(ci);
        lemma_pow2_pos(ti);
        lemma_flip_self(x as int, tm as int);
        lemma_flip_bound(x as int, s, ti);
    }
    if (x / cm) % 2 == 1 {
        if (x / tm) % 2 == 1 {
            x - tm
        } else {
            x + tm
        }
    } else {
        x
    }
}

impl Gate {
    /// The matrix of a controlled-X gate over its block, built row by row
    /// from the bit-mask rule.
    fn controlled_x_gate(c: usize, t: usize) -> (m: Vec<Vec<Amp>>)
        requires
            c != t,
            pow2(gate_span(Gate::CX(c, t))) <= usize::MAX,
        ensures
            mat_view(m@) == cx_local(c as int, t as int),
            m@.len() == pow2(gate_span(Gate::CX(c, t))),
    {
        proof {
            lemma_pow2_gt_exp(gate_span(Gate::CX(c, t)));
        }
        let control: usize = if c > t {
            c - t
        } else {
            0
        };
        let target: usize = if t > c {
            t - c
        } else {
            0
        };
        let span: usize = if c > t {
            c - t + 1
        } else {
            t - c + 1
        };
        proof {
            lemma_pow2_strictly_increases((span - 1 - control) as nat, span as nat);
            lemma_pow2_strictly_increases((span - 1 - target) as nat, span as nat);
        }
        let num_states = pow2_exec(span);
        let control_mask = pow2_exec(span - 1 - control);
        let target_mask = pow2_exec(span - 1 - target);
        let ghost ci = (span - 1 - control) as nat;
        let ghost ti = (span - 1 - target) as nat;
        let ghost goal = cx_local(c as int, t as int);
        proof {
            assert(ci == cx_cexp(c as int, t as int));
            assert(ti == cx_texp(c as int, t as int));
        }
        let mut m: Vec<Vec<Amp>> = Vec::new();
        let mut r: usize = 0;
        while r < num_states
            invariant
            c != t,
            span == gate_span(Gate::CX(c, t)),
            num_states == pow2(span as nat),
            pow2(span as nat) <= usize::MAX,
            control_mask == pow2(ci),
            target_mask == pow2(ti),
            ci == cx_cexp(c as int, t as int),
            ti == cx_texp(c as int, t as int),
            ci < span as nat,
            ti < span as nat,
            ci != ti,
            goal == cx_local(c as int, t as int),
            r <= num_states,
            m@.len() == r,
            forall|i: int| 0 <= i < r ==> #[trigger] mat_view(m@)[i] == goal[i],
            decreases num_states - r,
        {
            let mut row: Vec<Amp> = Vec::new();
            let mut cc: usize = 0;
            while cc < num_states
                invariant
                c != t,
                num_states == pow2(span as nat),
                pow2(span as nat) <= usize::MAX,
                control_mask == pow2(ci),
                target_mask == pow2(ti),
                ci < span as nat,
                ti < span as nat,
                ci != ti,
                r < num_states,
                cc <= num_states,
                row@.len() == cc,
                forall|j: int|
                    0 <= j < cc ==> #[trigger] amps_view(row@)[j] == (if r == cx_map(
                        j,
                        pow2(ci) as int,
                        pow2(ti) as int,
                    ) {
                        c_one()
                    } else {
                        c_zero()
                    }),
                decreases num_states - cc,
            {
                let fc = cx_map_exec(
                    cc,
                    control_mask,
                    target_mask,
                    Ghost(ci),
                    Ghost(ti),
                    Ghost(span as nat),
                );
                let e = if r == fc {
                    Amp::one()
                } else {
                    Amp::zero()
                };
                let ghost prev = row@;
                row.push(e);
                proof {
                    assert forall|j: int| 0 <= j <= cc implies #[trigger] amps_view(row@)[j] == (
                    if r == cx_map(j, pow2(ci) as int, pow2(ti) as int) {
                        c_one()
                    } else {
                        c_zero()
                    }) by {
                        assert(amps_view(row@)[j] == row@[j]@);
                        if j < cc {
                            assert(row@[j] == prev[j]);
                            assert(amps_view(prev)[j] == prev[j]@);
                        } else {
                            assert(row@[j] == e);
                        }
                    }
                }
                cc += 1;
            }
            let ghost prevm = m@;
            m.push(row);
            proof {
                assert forall|i: int| 0 <= i <= r implies #[trigger] mat_view(m@)[i]
                    == goal[i] by {
                    assert(mat_view(m@)[i] == amps_view(m@[i]@));
                    if i < r {
                        assert(m@[i] == prevm[i]);
                        assert(mat_view(prevm)[i] == amps_view(prevm[i]@));
                    } else {
                        assert(goal == perm_mat(
                            pow2(span as nat),
                            |x: int| cx_map(x, pow2(ci) as int, pow2(ti) as int),
                        ));
                        assert(mat_view(m@)[i] =~= goal[i]);
                    }
                }
            }
            r += 1;
        }
        proof {
            assert(mat_view(m@) =~= goal);
        }
        m
    }

    /// The unitary matrix of this gate over its span (up to the positive
    /// scalar noted at module level).
    pub fn matrix(&self) -> (m: Vec<Vec<Amp>>)
        requires
            gate_wf(*self),
            pow2(gate_span(*self)) <= usize::MAX,
        ensures
            mat_view(m@) == gate_local(*self),
            m@.len() == pow2(gate_span(*self)),
    {
        proof {
            vstd::arithmetic::power2::lemma2_to64();
        }
        match *self {
            Gate::I(_) => mat2_exec(Amp::one(), Amp::zero(), Amp::zero(), Amp::one()),
            Gate::X(_) => mat2_exec(Amp::zero(), Amp::one(), Amp::one(), Amp::zero()),
            Gate::Y(_) => mat2_exec(
                Amp::zero(),
                Amp::from_parts(0, 0, -1, 0),
                Amp::from_parts(0, 0, 1, 0),
                Amp::zero(),
            ),
            Gate::Z(_) => mat2_exec(
                Amp::one(),
                Amp::zero(),
                Amp::zero(),
                Amp::from_parts(-1, 0, 0, 0),
            ),
            Gate::H(_) => mat2_exec(
                Amp::one(),
                Amp::one(),
                Amp::one(),
                Amp::from_parts(-1, 0, 0, 0),
            ),
            Gate::S(_) => mat2_exec(
                Amp::one(),
                Amp::zero(),
                Amp::zero(),
                Amp::from_parts(0, 0, 1, 0),
            ),
            Gate::T(_) => mat2_exec(
                Amp::one(),
                Amp::zero(),
                Amp::zero(),
                Amp::from_parts(0, 1, 0, 0),
            ),
            Gate::CX(c, t) => Gate::controlled_x_gate(c, t),
            Gate::SWAP(c, t) => Gate::swap_gate(c, t),
        }
    }

    /// The matrix of the swap gate over its block: the composition of three
    /// controlled-X gates, `CX(c,t) * CX(t,c) * CX(c,t)`, realized as the
    /// permutation that composition performs.
    fn swap_gate(c: usize, t: usize) -> (m: Vec<Vec<Amp>>)
        requires
            c != t,
            pow2(gate_span(Gate::SWAP(c, t))) <= usize::MAX,
        ensures
            mat_view(m@) == gate_local(Gate::SWAP(c, t)),
            m@.len() == pow2(gate_span(Gate::SWAP(c, t))),
    {
        proof {
            lemma_pow2_gt_exp(gate_span(Gate::SWAP(c, t)));
        }
        let control: usize = if c > t {
            c - t
        } else {
            0
        };
        let target: usize = if t > c {
            t - c
        } else {
            0
        };
        let span: usize = if c > t {
            c - t + 1
        } else {
            t - c + 1
        };
        proof {
            lemma_pow2_strictly_increases((span - 1 - control) as nat, span as nat);
            lemma_pow2_strictly_increases((span - 1 - target) as nat, span as nat);
        }
        let num_states = pow2_exec(span);
        let control_mask = pow2_exec(span - 1 - control);
        let target_mask = pow2_exec(span - 1 - target);
        let ghost ci = (span - 1 - control) as nat;
        let ghost ti = (span - 1 - target) as nat;
        let ghost cm = pow2(ci) as int;
        let ghost tm = pow2(ti) as int;
        let ghost goal = gate_local(Gate::SWAP(c, t));
        proof {
            lemma_swap_local_perm(c, t);
        }
        let mut m: Vec<Vec<Amp>> = Vec::new();
        let mut r: usize = 0;
        while r < num_states
            invariant
            c != t,
            span == gate_span(Gate::SWAP(c, t)),
            num_states == pow2(span as nat),
            pow2(span as nat) <= usize::MAX,
            control_mask == pow2(ci),
            target_mask == pow2(ti),
            cm == pow2(ci) as int,
            tm == pow2(ti) as int,
            ci < span as nat,
            ti < span as nat,
            ci != ti,
            goal == gate_local(Gate::SWAP(c, t)),
            goal.len() == num_states,
            forall|rr: int, cc: int|
                0 <= rr < num_states && 0 <= cc < num_states ==> #[trigger] goal[rr][cc] == (
                if rr == cx_map(cx_map(cx_map(cc, cm, tm), tm, cm), cm, tm) {
                    c_one()
                } else {
                    c_zero()
                }),
            r <= num_states,
            m@.len() == r,
            forall|i: int| 0 <= i < r ==> #[trigger] mat_view(m@)[i] =~= goal[i],
            decreases num_states - r,
        {
            let mut row: Vec<Amp> = Vec::new();
            let mut cc: usize = 0;
            while cc < num_states
                invariant
                c != t,
                num_states == pow2(span as nat),
                pow2(span as nat) <= usize::MAX,
                control_mask == pow2(ci),
                target_mask == pow2(ti),
                cm == pow2(ci) as int,
                tm == pow2(ti) as int,
                ci < span as nat,
                ti < span as nat,
                ci != ti,
                r < num_states,
                cc <= num_states,
                row@.len() == cc,
                forall|j: int|
                    0 <= j < cc ==> #[trigger] amps_view(row@)[j] == (if r == cx_map(
                        cx_map(cx_map(j, cm, tm), tm, cm),
                        cm,
                        tm,
                    ) {
                        c_one()
                    } else {
                        c_zero()
                    }),
                decreases num_states - cc,
            {
                let y1 = cx_map_exec(
                    cc,
                    control_mask,
                    target_mask,
                    Ghost(ci),
                    Ghost(ti),
                    Ghost(span as nat),
                );
                let y2 = cx_map_exec(
                    y1,
                    target_mask,
                    control_mask,
                    Ghost(ti),
                    Ghost(ci),
                    Ghost(span as nat),
                );
                let y3 = cx_map_exec(
                    y2,
                    control_mask,
                    target_mask,
                    Ghost(ci),
                    Ghost(ti),
                    Ghost(span as nat),
                );
                let e = if r == y3 {
                    Amp::one()
                } else {
                    Amp::zero()
                };
                let ghost prev = row@;
                row.push(e);
                proof {
                    assert forall|j: int| 0 <= j <= cc implies #[trigger] amps_view(row@)[j] == (
                    if r == cx_map(cx_map(cx_map(j, cm, tm), tm, cm), cm, tm) {
                        c_one()
                    } else {
                        c_zero()
                    }) by {
                        assert(amps_view(row@)[j] == row@[j]@);
                        if j < cc {
                            assert(row@[j] == prev[j]);
                            assert(amps_view(prev)[j] == prev[j]@);
                        } else {
                            assert(row@[j] == e);
                        }
                    }
                }
                cc += 1;
            }
            let ghost prevm = m@;
            m.push(row);
            proof {
                assert forall|i: int| 0 <= i <= r implies #[trigger] mat_view(m@)[i]
                    =~= goal[i] by {
                    assert(mat_view(m@)[i] == amps_view(m@[i]@));
                    if i < r {
                        assert(m@[i] == prevm[i]);
                        assert(mat_view(prevm)[i] == amps_view(prevm[i]@));
                        assert(mat_view(prevm)[i] =~= goal[i]);
                    } else {
                        assert(amps_view(row@).len() == num_states);
                        assert(goal[i].len() == num_states);
                    }
                }
            }
            r += 1;
        }
        proof {
            assert forall|i: int| 0 <= i < num_states implies #[trigger] mat_view(m@)[i]
                == goal[i] by {
                assert(mat_view(m@)[i] =~= goal[i]);
            }
            assert(mat_view(m@) =~= goal);
        }
        m
    }
}

/// Build a fixed 2 x 2 amplitude matrix.
fn mat2_exec(e00: Amp, e01: Amp, e10: Amp, e11: Amp) -> (m: Vec<Vec<Amp>>)
    ensures
        mat_view(m@) == mat2(e00@, e01@, e10@, e11@),
        m@.len() == 2,
{
    let ghost goal = mat2(e00@, e01@, e10@, e11@);
    let row0 = vec![e00, e01];
    let row1 = vec![e10, e11];
    let m = vec![row0, row1];
    proof {
        assert(amps_view(m@[0]@) =~= goal[0]);
        assert(amps_view(m@[1]@) =~= goal[1]);
        assert(mat_view(m@) =~= goal);
    }
    m
}

/// The local swap matrix, defined as the composition of three controlled-X
/// matrices, is the permutation composing their three index maps.
pub proof fn lemma_swap_local_perm(c: usize, t: usize)
    requires
        c != t,
    ensures
        ({
            let dim = pow2(gate_span(Gate::SWAP(c, t))) as int;
            let cm = pow2(cx_cexp(c as int, t as int) as nat) as int;
            let tm = pow2(cx_texp(c as int, t as int) as nat) as int;
            let g = gate_local(Gate::SWAP(c, t));
            &&& g.len() == dim
            &&& forall|r: int| 0 <= r < dim ==> (#[trigger] g[r]).len() == dim
            &&& forall|r: int, cc: int|
                0 <= r < dim && 0 <= cc < dim ==> #[trigger] g[r][cc] == (if r == cx_map(
                    cx_map(cx_map(cc, cm, tm), tm, cm),
                    cm,
                    tm,
                ) {
                    c_one()
                } else {
                    c_zero()
                })
        }),
{
    let s = gate_span(Gate::SWAP(c, t));
    let dim = pow2(s) as int;
    let ci = cx_cexp(c as int, t as int) as nat;
    let ti = cx_texp(c as int, t as int) as nat;
    let cm = pow2(ci) as int;
    let tm = pow2(ti) as int;
    let f1 = |x: int| cx_map(x, cm, tm);
    let f2 = |x: int| cx_map(x, tm, cm);
    let g12 = |x: int| cx_map(cx_map(x, cm, tm), tm, cm);
    assert(ci < s && ti < s && ci != ti);
    assert forall|x: int| 0 <= x < dim implies 0 <= #[trigger] f1(x) < dim by {
        lemma_cx_map_props(x, s, ci, ti);
    }
    assert forall|x: int| 0 <= x < dim implies 0 <= #[trigger] f2(x) < dim by {
        lemma_cx_map_props(x, s, ti, ci);
    }
    assert forall|x: int| 0 <= x < dim implies 0 <= #[trigger] g12(x) < dim by {
        lemma_cx_map_props(x, s, ci, ti);
        lemma_cx_map_props(cx_map(x, cm, tm), s, ti, ci);
    }
    let a = cx_local(c as int, t as int);
    let b = cx_local(t as int, c as int);
    assert(a == perm_mat(pow2(s), f1)) by {
        assert(a =~~= perm_mat(pow2(s), f1));
    }
    assert(b == perm_mat(pow2(s), f2)) by {
        assert(gate_span(Gate::SWAP(c, t)) == ((if t > c {
            t - c
        } else {
            c - t
        }) + 1) as nat);
        assert(cx_cexp(t as int, c as int) == cx_texp(c as int, t as int));
        assert(cx_texp(t as int, c as int) == cx_cexp(c as int, t as int));
        assert(b =~~= perm_mat(pow2(s), f2));
    }
    lemma_pow2_pos(s);
    crate::embed::lemma_mat_mul_perm(b, dim, f1);
    let inner = mat_mul(b, a);
    assert(inner == perm_mat(pow2(s), g12)) by {
        assert forall|r: int, cc: int| 0 <= r < dim && 0 <= cc < dim implies #[trigger] inner[r][cc]
            == perm_mat(pow2(s), g12)[r][cc] by {
            assert(inner[r][cc] == b[r][f1(cc)]);
        }
        assert(inner =~~= perm_mat(pow2(s), g12));
    }
    crate::embed::lemma_mat_mul_perm(a, dim, g12);
    let outer = mat_mul(a, inner);
    assert forall|r: int, cc: int| 0 <= r < dim && 0 <= cc < dim implies #[trigger] outer[r][cc]
        == (if r == cx_map(cx_map(cx_map(cc, cm, tm), tm, cm), cm, tm) {
        c_one()
    } else {
        c_zero()
    }) by {
        assert(outer[r][cc] == a[r][g12(cc)]);
    }
    assert(gate_local(Gate::SWAP(c, t)) == outer);
}

/// True exactly for the Hadamard gate, the one gate whose matrix has more
/// than one entry per row.
pub open spec fn gate_is_h(g: Gate) -> bool {
    match g {
        Gate::H(_) => true,
        _ => false,
    }
}

/// Row map of a non-Hadamard gate: the single column in which row `r` of
/// the local matrix is nonzero.
pub open spec fn gate_row_map(g: Gate) -> spec_fn(int) -> int {
    match g {
        Gate::X(_) => |r: int| 1 - r,
        Gate::Y(_) => |r: int| 1 - r,
        Gate::CX(c, t) => |x: int|
            cx_map(
                x,
                pow2(cx_cexp(c as int, t as int) as nat) as int,
                pow2(cx_texp(c as int, t as int) as nat) as int,
            ),
        Gate::SWAP(c, t) => |x: int|
            {
                let cm = pow2(cx_cexp(c as int, t as int) as nat) as int;
                let tm = pow2(cx_texp(c as int, t as int) as nat) as int;
                cx_map(cx_map(cx_map(x, cm, tm), tm, cm), cm, tm)
            },
        _ => |r: int| r,
    }
}

/// Row value of a non-Hadamard gate: the unit standing in that column.
pub open spec fn gate_row_val(g: Gate) -> spec_fn(int) -> C4 {
    match g {
        Gate::Y(_) => |r: int|
            if r == 0 {
                c_neg(c_imag())
            } else {
                c_imag()
            },
        Gate::Z(_) => |r: int|
            if r == 0 {
                c_one()
            } else {
                c_neg(c_one())
            },
        Gate::S(_) => |r: int|
            if r == 0 {
                c_one()
            } else {
                c_imag()
            },
        Gate::T(_) => |r: int|
            if r == 0 {
                c_one()
            } else {
                c_omega()
            },
        _ => |r: int| c_one(),
    }
}

/// Every non-Hadamard local matrix is a signed permutation: unit rows, with
/// an involutive row map and unit values.
#[verifier::rlimit(60)]
pub proof fn lemma_gate_unit_rows(g: Gate)
    requires
        gate_wf(g),
        !gate_is_h(g),
    ensures
        is_unit_rows(
            gate_local(g),
            pow2(gate_span(g)) as int,
            gate_row_map(g),
            gate_row_val(g),
        ),
        forall|r: int|
            0 <= r < pow2(gate_span(g)) ==> #[trigger] gate_row_map(g)(gate_row_map(g)(r)) == r,
        forall|r: int|
            0 <= r < pow2(gate_span(g)) ==> c_is_unit(#[trigger] gate_row_val(g)(r)),
{
    let dim = pow2(gate_span(g)) as int;
    let f = gate_row_map(g);
    let u = gate_row_val(g);
    let m = gate_local(g);
    vstd::arithmetic::power2::lemma2_to64();
    lemma_pow2_pos(gate_span(g));
    match g {
        Gate::CX(c, t) => {
            let s = gate_span(g);
            let ci = cx_cexp(c as int, t as int) as nat;
            let ti = cx_texp(c as int, t as int) as nat;
            assert(ci < s && ti < s && ci != ti);
            assert forall|x: int| 0 <= x < dim implies 0 <= #[trigger] f(x) < dim && f(f(x))
                == x by {
                lemma_cx_map_props(x, s, ci, ti);
            }
            assert(m == perm_mat(pow2(s), f)) by {
                assert(m =~~= perm_mat(pow2(s), f));
            }
            crate::embed::lemma_perm_mat_unit_rows(dim, f);
            assert forall|r: int, c2: int| 0 <= r < dim && 0 <= c2 < dim implies #[trigger] m[r][c2]
                == (if c2 == f(r) {
                u(r)
            } else {
                c_zero()
            }) by {
                assert(is_unit_rows(m, dim, f, |r: int| c_one()));
            }
        },
        Gate::SWAP(c, t) => {
            let s = gate_span(g);
            let ci = cx_cexp(c as int, t as int) as nat;
            let ti = cx_texp(c as int, t as int) as nat;
            let cm = pow2(ci) as int;
            let tm = pow2(ti) as int;
            lemma_swap_local_perm(c, t);
            assert forall|x: int| 0 <= x < dim implies 0 <= #[trigger] f(x) < dim && f(f(x))
                == x by {
                lemma_cx_map_props(x, s, ci, ti);
                let y1 = cx_map(x, cm, tm);
                lemma_cx_map_props(y1, s, ti, ci);
                let y2 = cx_map(y1, tm, cm);
                lemma_cx_map_props(y2, s, ci, ti);
                let y3 = cx_map(y2, cm, tm);
                assert(f(x) == y3);
                lemma_cx_map_props(y3, s, ci, ti);
                let z1 = cx_map(y3, cm, tm);
                assert(z1 == y2);
                lemma_cx_map_props(z1, s, ti, ci);
                let z2 = cx_map(z1, tm, cm);
                assert(z2 == y1);
                lemma_cx_map_props(z2, s, ci, ti);
            }
            assert(m == perm_mat(pow2(s), f)) by {
                assert(m =~~= perm_mat(pow2(s), f));
            }
            crate::embed::lemma_perm_mat_unit_rows(dim, f);
            assert forall|r: int, c2: int| 0 <= r < dim && 0 <= c2 < dim implies #[trigger] m[r][c2]
                == (if c2 == f(r) {
                u(r)
            } else {
                c_zero()
            }) by {
                assert(is_unit_rows(m, dim, f, |r: int| c_one()));
            }
        },
        _ => {
            assert(dim == 2);
            assert(m[0].len() == 2 && m[1].len() == 2);
            assert(m[0][0] == (if 0 == f(0) {
                u(0)
            } else {
                c_zero()
            }));
            assert(m[0][1] == (if 1 == f(0) {
                u(0)
            } else {
                c_zero()
            }));
            assert(m[1][0] == (if 0 == f(1) {
                u(1)
            } else {
                c_zero()
            }));
            assert(m[1][1] == (if 1 == f(1) {
                u(1)
            } else {
                c_zero()
            }));
        },
    }
}

/// The block index map of a gate embedded at its position in an `n`-qubit
/// register.
pub open spec fn gate_sigma(g: Gate, n: nat, x: int) -> int {
    let dl = pow2(gate_span(g)) as int;
    let br = pow2((n - gate_pos(g) - gate_span(g)) as nat) as int;
    recomb(x, gate_row_map(g)(midx(x, dl, br)), dl, br)
}

/// Applying a non-Hadamard gate moves entry `sigma(x)` to `x`, scaled by a
/// unit; `sigma` is an involution on the index space.
pub proof fn lemma_gate_action(g: Gate, n: nat, v: Seq<C4>)
    requires
        gate_wf(g),
        !gate_is_h(g),
        gate_pos(g) + gate_span(g) <= n,
        v.len() == pow2(n),
    ensures
        mat_vec_mul(full_matrix(g, n), v).len() == pow2(n),
        forall|x: int| 0 <= x < pow2(n) ==> 0 <= #[trigger] gate_sigma(g, n, x) < pow2(n),
        forall|x: int|
            0 <= x < pow2(n) ==> #[trigger] mat_vec_mul(full_matrix(g, n), v)[x] == c_mul(
                gate_row_val(g)(
                    midx(
                        x,
                        pow2(gate_span(g)) as int,
                        pow2((n - gate_pos(g) - gate_span(g)) as nat) as int,
                    ),
                ),
                v[gate_sigma(g, n, x)],
            ),
        forall|x: int|
            0 <= x < pow2(n) ==> #[trigger] gate_sigma(g, n, gate_sigma(g, n, x)) == x,
        forall|r: int|
            0 <= r < pow2(gate_span(g)) ==> c_is_unit(#[trigger] gate_row_val(g)(r)),
{
    let dl = pow2(gate_span(g)) as int;
    let br = pow2((n - gate_pos(g) - gate_span(g)) as nat) as int;
    let bh = pow2(gate_pos(g)) as int;
    let f = gate_row_map(g);
    let u = gate_row_val(g);
    lemma_pow2_pos(gate_span(g));
    lemma_pow2_pos((n - gate_pos(g) - gate_span(g)) as nat);
    lemma_pow2_pos(gate_pos(g));
    lemma_gate_unit_rows(g);
    assert(pow2(n) == bh * (dl * br)) by {
        vstd::arithmetic::power2::lemma_pow2_adds(
            gate_span(g),
            (n - gate_pos(g) - gate_span(g)) as nat,
        );
        vstd::arithmetic::power2::lemma_pow2_adds(
            gate_pos(g),
            (n - gate_pos(g)) as nat,
        );
    }
    crate::embed::lemma_embed_unit_rows_apply(gate_local(g), dl, br, bh, f, u, v);
    assert forall|x: int| 0 <= x < pow2(n) implies 0 <= #[trigger] gate_sigma(g, n, x)
        < pow2(n) by {
        assert(gate_sigma(g, n, x) == recomb(x, f(midx(x, dl, br)), dl, br));
    }
    assert forall|x: int| 0 <= x < pow2(n) implies #[trigger] gate_sigma(g, n, gate_sigma(g, n, x))
        == x by {
        crate::embed::lemma_decompose(x, dl, br);
        let mid = midx(x, dl, br);
        let y = gate_sigma(g, n, x);
        crate::embed::lemma_recomb_parts(x, f(mid), dl, br, bh);
        assert(midx(y, dl, br) == f(mid));
        assert(f(f(mid)) == mid);
        assert(gate_sigma(g, n, y) == recomb(y, mid, dl, br));
        assert(recomb(y, mid, dl, br) == y + (mid - f(mid)) * br);
        assert(y == x + (f(mid) - mid) * br);
        assert(x + (f(mid) - mid) * br + (mid - f(mid)) * br == x) by (nonlinear_arith);
    }
}

/// Applying a non-Hadamard gate preserves a nonzero entry and preserves an
/// odd coordinate, so it preserves well-formed reduced states.
pub proof fn lemma_gate_action_preserves(g: Gate, n: nat, v: Seq<C4>)
    requires
        gate_wf(g),
        !gate_is_h(g),
        gate_pos(g) + gate_span(g) <= n,
        v.len() == pow2(n),
    ensures
        nonzero_vec(v) ==> nonzero_vec(mat_vec_mul(full_matrix(g, n), v)),
        !all_even_vec(v) ==> !all_even_vec(mat_vec_mul(full_matrix(g, n), v)),
{
    let dl = pow2(gate_span(g)) as int;
    let br = pow2((n - gate_pos(g) - gate_span(g)) as nat) as int;
    let w = mat_vec_mul(full_matrix(g, n), v);
    lemma_pow2_pos(gate_span(g));
    lemma_pow2_pos((n - gate_pos(g) - gate_span(g)) as nat);
    lemma_gate_action(g, n, v);
    if nonzero_vec(v) {
        let i = choose|i: int| 0 <= i < v.len() && #[trigger] v[i] != c_zero();
        let x = gate_sigma(g, n, i);
        assert(gate_sigma(g, n, x) == i);
        assert(w[x] == c_mul(gate_row_val(g)(midx(x, dl, br)), v[i]));
        crate::embed::lemma_decompose(x, dl, br);
        crate::complex::lemma_unit_mul(gate_row_val(g)(midx(x, dl, br)), v[i]);
        assert(w[x] != c_zero());
    }
    if !all_even_vec(v) {
        let i = choose|i: int| 0 <= i < v.len() && !c_even(#[trigger] v[i]);
        let x = gate_sigma(g, n, i);
        assert(gate_sigma(g, n, x) == i);
        assert(w[x] == c_mul(gate_row_val(g)(midx(x, dl, br)), v[i]));
        crate::embed::lemma_decompose(x, dl, br);
        crate::complex::lemma_unit_mul(gate_row_val(g)(midx(x, dl, br)), v[i]);
        assert(!c_even(w[x]));
    }
}

/// Applying the Hadamard gate twice scales the state by two: its matrix
/// squares to twice the identity.
pub proof fn lemma_h_double(q: usize, n: nat, v: Seq<C4>)
    requires
        (q as nat) < n,
        v.len() == pow2(n),
    ensures
        mat_vec_mul(full_matrix(Gate::H(q), n), v).len() == pow2(n),
        mat_vec_mul(
            full_matrix(Gate::H(q), n),
            mat_vec_mul(full_matrix(Gate::H(q), n), v),
        ) =~= crate::linalg::scale_vec(2, v),
        nonzero_vec(v) ==> nonzero_vec(mat_vec_mul(full_matrix(Gate::H(q), n), v)),
{
    let g = Gate::H(q);
    let m = gate_local(g);
    let br = pow2((n - q - 1) as nat) as int;
    let bh = pow2(q as nat) as int;
    lemma_pow2_pos((n - q - 1) as nat);
    lemma_pow2_pos(q as nat);
    vstd::arithmetic::power2::lemma2_to64();
    assert(pow2(n) == bh * (2 * br)) by {
        vstd::arithmetic::power2::lemma_pow2_adds(1, (n - q - 1) as nat);
        vstd::arithmetic::power2::lemma_pow2_adds(q as nat, (n - q) as nat);
    }
    assert(pow2(gate_span(g)) as int == 2);
    assert(full_matrix(g, n) == embed_matrix(m, 2, br, (bh * (2 * br)) as nat));
    let w = mat_vec_mul(full_matrix(g, n), v);
    crate::embed::lemma_embed2_apply(m, br, bh, v);
    assert(w.len() == pow2(n));
    let w2 = mat_vec_mul(full_matrix(g, n), w);
    crate::embed::lemma_embed2_apply(m, br, bh, w);
    assert forall|x: int| 0 <= x < pow2(n) implies #[trigger] w2[x] == c_scale(2, v[x]) by {
        crate::embed::lemma_decompose(x, 2, br);
        let b = midx(x, 2, br);
        let x0 = recomb(x, 0, 2, br);
        let x1 = recomb(x, 1, 2, br);
        crate::embed::lemma_recomb_parts(x, 0, 2, br, bh);
        crate::embed::lemma_recomb_parts(x, 1, 2, br, bh);
        assert(x1 == x0 + br) by (nonlinear_arith)
            requires
                x0 == x + (0 - b) * br,
                x1 == x + (1 - b) * br,
        ;
        assert(midx(x0, 2, br) == 0 && midx(x1, 2, br) == 1);
        assert(recomb(x0, 0, 2, br) == x0 && recomb(x1, 1, 2, br) == x1) by (nonlinear_arith)
            requires
                recomb(x0, 0, 2, br) == x0 + (0 - midx(x0, 2, br)) * br,
                recomb(x1, 1, 2, br) == x1 + (1 - midx(x1, 2, br)) * br,
                midx(x0, 2, br) == 0,
                midx(x1, 2, br) == 1,
        ;
        assert(recomb(x0, 1, 2, br) == x1 && recomb(x1, 0, 2, br) == x0) by (nonlinear_arith)
            requires
                recomb(x0, 1, 2, br) == x0 + (1 - midx(x0, 2, br)) * br,
                recomb(x1, 0, 2, br) == x1 + (0 - midx(x1, 2, br)) * br,
                midx(x0, 2, br) == 0,
                midx(x1, 2, br) == 1,
                x1 == x0 + br,
        ;
        let one = c_one();
        let neg1 = c_neg(c_one());
        assert(m[0][0] == one && m[0][1] == one && m[1][0] == one && m[1][1] == neg1);
        crate::complex::lemma_c_mul_one(v[x0]);
        crate::complex::lemma_c_mul_one(v[x1]);
        assert(w[x0] == c_add(v[x0], v[x1]));
        assert(w[x1] == c_add(v[x0], c_neg(v[x1]))) by {
            crate::complex::lemma_c_mul_neg_left(c_one(), v[x1]);
        }
        crate::complex::lemma_c_mul_one(w[x0]);
        crate::complex::lemma_c_mul_one(w[x1]);
        if b == 0 {
            assert(x == x0) by (nonlinear_arith)
                requires
                    x0 == x + (0 - b) * br,
                    b == 0,
            ;
            assert(w2[x] == c_add(w[x0], w[x1]));
        } else {
            assert(x == x1) by (nonlinear_arith)
                requires
                    x1 == x + (1 - b) * br,
                    b == 1,
            ;
            assert(w2[x] == c_add(w[x0], c_neg(w[x1]))) by {
                crate::complex::lemma_c_mul_neg_left(c_one(), w[x1]);
            }
        }
    }
    if nonzero_vec(v) {
        let i = choose|i: int| 0 <= i < v.len() && #[trigger] v[i] != c_zero();
        assert(c_scale(2, v[i]) != c_zero()) by (nonlinear_arith)
            requires
                c_scale(2, v[i]) == (C4 {
                    a: 2 * v[i].a,
                    b: 2 * v[i].b,
                    c: 2 * v[i].c,
                    d: 2 * v[i].d,
                }),
                v[i].a != 0 || v[i].b != 0 || v[i].c != 0 || v[i].d != 0,
        ;
        assert(w2[i] != c_zero());
        if !nonzero_vec(w) {
            assert forall|l: int| 0 <= l < pow2(n) implies #[trigger] w[l] == c_zero() by {
                assert(!(w[l] != c_zero()));
            }
            crate::embed::lemma_decompose(i, 2, br);
            crate::embed::lemma_recomb_parts(i, 0, 2, br, bh);
            crate::embed::lemma_recomb_parts(i, 1, 2, br, bh);
            crate::complex::lemma_c_mul_zero(m[midx(i, 2, br)][0]);
            crate::complex::lemma_c_mul_zero(m[midx(i, 2, br)][1]);
            assert(w2[i] == c_zero());
        }
    }
}

/// Applying any well-formed gate keeps the state vector nonzero.
pub proof fn lemma_gate_nonzero(g: Gate, n: nat, v: Seq<C4>)
    requires
        gate_wf(g),
        gate_pos(g) + gate_span(g) <= n,
        v.len() == pow2(n),
        nonzero_vec(v),
    ensures
        mat_vec_mul(full_matrix(g, n), v).len() == pow2(n),
        nonzero_vec(mat_vec_mul(full_matrix(g, n), v)),
{
    match g {
        Gate::H(q) => {
            lemma_h_double(q, n, v);
        },
        _ => {
            lemma_gate_action(g, n, v);
            lemma_gate_action_preserves(g, n, v);
        },
    }
}

/// The local matrix of a well-formed gate is square over its block.
pub proof fn lemma_gate_local_dims(g: Gate)
    requires
        gate_wf(g),
    ensures
        gate_local(g).len() == pow2(gate_span(g)),
        forall|r: int|
            0 <= r < pow2(gate_span(g)) ==> (#[trigger] gate_local(g)[r]).len() == pow2(
                gate_span(g),
            ),
{
    vstd::arithmetic::power2::lemma2_to64();
    match g {
        Gate::SWAP(c, t) => {
            lemma_swap_local_perm(c, t);
        },
        _ => {
        },
    }
}

/// Build the full-register operator for a local matrix on a block.
pub(crate) fn embed_exec(local: &Vec<Vec<Amp>>, dl: usize, br: usize, nd: usize) -> (r: Vec<
    Vec<Amp>,
>)
    requires
        dl >= 1,
        br >= 1,
        (dl as int) * (br as int) <= usize::MAX,
        mat_view(local@).len() == dl,
        forall|i: int| 0 <= i < dl ==> (#[trigger] mat_view(local@)[i]).len() == dl,
    ensures
        mat_view(r@) == embed_matrix(mat_view(local@), dl as int, br as int, nd as nat),
        r@.len() == nd,
{
    let ghost goal = embed_matrix(mat_view(local@), dl as int, br as int, nd as nat);
    proof {
        assert((dl as int) * (br as int) >= 1) by (nonlinear_arith)
            requires
                dl >= 1,
                br >= 1,
        ;
    }
    let db: usize = dl * br;
    let mut m: Vec<Vec<Amp>> = Vec::new();
    let mut r: usize = 0;
    while r < nd
        invariant
            dl >= 1,
            br >= 1,
            db == dl * br,
            db >= 1,
            mat_view(local@).len() == dl,
            forall|i: int| 0 <= i < dl ==> (#[trigger] mat_view(local@)[i]).len() == dl,
            goal == embed_matrix(mat_view(local@), dl as int, br as int, nd as nat),
            r <= nd,
            m@.len() == r,
            forall|i: int| 0 <= i < r ==> #[trigger] mat_view(m@)[i] == goal[i],
        decreases nd - r,
    {
        let mut row: Vec<Amp> = Vec::new();
        let mut cc: usize = 0;
        while cc < nd
            invariant
                dl >= 1,
                br >= 1,
                db == dl * br,
                db >= 1,
                r < nd,
                mat_view(local@).len() == dl,
                forall|i: int| 0 <= i < dl ==> (#[trigger] mat_view(local@)[i]).len() == dl,
                cc <= nd,
                row@.len() == cc,
                forall|j: int|
                    0 <= j < cc ==> #[trigger] amps_view(row@)[j] == embed_entry(
                        mat_view(local@),
                        dl as int,
                        br as int,
                        r as int,
                        j,
                    ),
            decreases nd - cc,
        {
            proof {
                vstd::arithmetic::div_mod::lemma_mod_bound(r as int, br as int);
                vstd::arithmetic::div_mod::lemma_mod_bound(cc as int, br as int);
                vstd::arithmetic::div_mod::lemma_mod_bound((r / br) as int, dl as int);
                vstd::arithmetic::div_mod::lemma_mod_bound((cc / br) as int, dl as int);
            }
            let e: Amp = if r / db == cc / db && r % br == cc % br {
                let lr = (r / br) % dl;
                let lc = (cc / br) % dl;
                proof {
                    assert(amps_view(local@[lr as int]@) == mat_view(local@)[lr as int]);
                    assert(amps_view(local@[lr as int]@)[lc as int] == local@[lr as int]@[lc
                        as int]@);
                }
                local[lr][lc].dup()
            } else {
                Amp::zero()
            };
            let ghost prev = row@;
            row.push(e);
            proof {
                assert forall|j: int| 0 <= j <= cc implies #[trigger] amps_view(row@)[j]
                    == embed_entry(mat_view(local@), dl as int, br as int, r as int, j) by {
                    assert(amps_view(row@)[j] == row@[j]@);
                    if j < cc {
                        assert(row@[j] == prev[j]);
                        assert(amps_view(prev)[j] == prev[j]@);
                    } else {
                        assert(row@[j] == e);
                    }
                }
            }
            cc += 1;
        }
        let ghost prevm = m@;
        m.push(row);
        proof {
            assert forall|i: int| 0 <= i <= r implies #[trigger] mat_view(m@)[i] == goal[i] by {
                assert(mat_view(m@)[i] == amps_view(m@[i]@));
                if i < r {
                    assert(m@[i] == prevm[i]);
                    assert(mat_view(prevm)[i] == amps_view(prevm[i]@));
                } else {
                    assert(mat_view(m@)[i] =~= goal[i]);
                }
            }
        }
        r += 1;
    }
    proof {
        assert(mat_view(m@) =~= goal);
    }
    m
}

} // verus!
