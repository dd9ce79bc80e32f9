use num::BigInt;
use num::ToPrimitive;
use qsim::circuit::CircuitError;
use qsim::circuit::QuantumCircuit;
use qsim::complex::Amp;
use qsim::gate::Gate;

const INV_SQRT2: f64 = 0.7071067811865476;
const TOL: f64 = 1e-9;

fn amp(a: i64, b: i64, c: i64, d: i64) -> Amp {
    Amp {
        a: BigInt::from(a),
        b: BigInt::from(b),
        c: BigInt::from(c),
        d: BigInt::from(d),
    }
}

fn amp_to_complex(x: &Amp) -> (f64, f64) {
    let a = x.a.to_f64().unwrap();
    let b = x.b.to_f64().unwrap();
    let c = x.c.to_f64().unwrap();
    let d = x.d.to_f64().unwrap();
    let s = INV_SQRT2;
    (a + (b - d) * s, c + (b + d) * s)
}

/// The normalized complex amplitudes of the circuit's state.
fn state_complex(c: &QuantumCircuit) -> Vec<(f64, f64)> {
    let raw: Vec<(f64, f64)> = c.state().iter().map(amp_to_complex).collect();
    let norm = raw.iter().map(|(re, im)| re * re + im * im).sum::<f64>().sqrt();
    raw.iter().map(|(re, im)| (re / norm, im / norm)).collect()
}

fn assert_close(x: f64, y: f64) {
    assert!((x - y).abs() < TOL, "{} vs {}", x, y);
}

#[test]
fn new_is_one_hot() {
    let c = QuantumCircuit::new(2, 1);
    let s = c.state();
    assert_eq!(s.len(), 4);
    for (i, e) in s.iter().enumerate() {
        let expect = if i == 1 { 1 } else { 0 };
        assert_eq!(e.a, BigInt::from(expect));
        assert_eq!(e.b, BigInt::from(0));
        assert_eq!(e.c, BigInt::from(0));
        assert_eq!(e.d, BigInt::from(0));
    }
}

#[test]
fn hadamard_yields_equal_superposition() {
    // One qubit starting at |0>, then H: amplitudes [1/sqrt(2), 1/sqrt(2)].
    let mut c = QuantumCircuit::new(1, 0);
    c.apply_gate(Gate::H(0));
    let s = state_complex(&c);
    assert_eq!(s.len(), 2);
    assert_close(s[0].0, INV_SQRT2);
    assert_close(s[0].1, 0.0);
    assert_close(s[1].0, INV_SQRT2);
    assert_close(s[1].1, 0.0);
}

#[test]
fn entangled_state_across_nonadjacent_qubits() {
    // Three qubits, H on qubit 0, then CX with control 0 and target 2:
    // nonzero amplitude only at 0b000 and 0b101, each of magnitude
    // 1/sqrt(2).
    let mut c = QuantumCircuit::new(3, 0);
    c.apply_gate(Gate::H(0));
    c.apply_gate(Gate::CX(0, 2));
    let s = state_complex(&c);
    assert_eq!(s.len(), 8);
    for (i, (re, im)) in s.iter().enumerate() {
        let mag = (re * re + im * im).sqrt();
        if i == 0b000 || i == 0b101 {
            assert_close(mag, INV_SQRT2);
        } else {
            assert_close(mag, 0.0);
        }
    }
}

#[test]
fn identity_leaves_state_unchanged() {
    let v = vec![amp(1, 0, 0, 0), amp(0, 1, 0, 0), amp(0, 0, 2, 0), amp(1, 1, 1, 1)];
    let mut c = QuantumCircuit::from_state_vector(v).unwrap();
    let before = c.state();
    c.apply_gate(Gate::I(1));
    let after = c.state();
    for (x, y) in before.iter().zip(after.iter()) {
        assert_eq!(x.a, y.a);
        assert_eq!(x.b, y.b);
        assert_eq!(x.c, y.c);
        assert_eq!(x.d, y.d);
    }
}

#[test]
fn pauli_x_twice_restores_state() {
    let v = vec![amp(3, 0, 1, 0), amp(0, 2, 0, 0), amp(1, 0, 0, 0), amp(0, 0, 0, 5)];
    let mut c = QuantumCircuit::from_state_vector(v).unwrap();
    let before = c.state();
    c.apply_gate(Gate::X(1));
    c.apply_gate(Gate::X(1));
    let after = c.state();
    for (x, y) in before.iter().zip(after.iter()) {
        assert_eq!(x.a, y.a);
        assert_eq!(x.b, y.b);
        assert_eq!(x.c, y.c);
        assert_eq!(x.d, y.d);
    }
}

#[test]
fn hadamard_twice_restores_state() {
    let mut c = QuantumCircuit::new(2, 2);
    c.apply_gate(Gate::H(1));
    c.apply_gate(Gate::H(1));
    let s = c.state();
    for (i, e) in s.iter().enumerate() {
        let expect = if i == 2 { 1 } else { 0 };
        assert_eq!(e.a, BigInt::from(expect));
        assert_eq!(e.b, BigInt::from(0));
    }
}

#[test]
fn controlled_x_twice_is_identity_nonadjacent() {
    let mut c = QuantumCircuit::new(3, 5);
    c.apply_gate(Gate::CX(0, 2));
    c.apply_gate(Gate::CX(0, 2));
    let s = c.state();
    for (i, e) in s.iter().enumerate() {
        let expect = if i == 5 { 1 } else { 0 };
        assert_eq!(e.a, BigInt::from(expect));
    }
}

#[test]
fn controlled_x_flips_target_when_control_set() {
    // |100>: qubit 0 (most significant bit) is set, so CX(0, 2) flips
    // qubit 2, giving |101>.
    let mut c = QuantumCircuit::new(3, 0b100);
    c.apply_gate(Gate::CX(0, 2));
    let s = c.state();
    for (i, e) in s.iter().enumerate() {
        let expect = if i == 0b101 { 1 } else { 0 };
        assert_eq!(e.a, BigInt::from(expect));
    }
}

#[test]
fn controlled_x_no_effect_when_control_clear() {
    let mut c = QuantumCircuit::new(3, 0b001);
    c.apply_gate(Gate::CX(0, 2));
    let s = c.state();
    for (i, e) in s.iter().enumerate() {
        let expect = if i == 0b001 { 1 } else { 0 };
        assert_eq!(e.a, BigInt::from(expect));
    }
}

#[test]
fn swap_exchanges_differing_bits() {
    // Basis state 0b10 with bits of qubits 0 and 1 differing: swap gives
    // 0b01 with amplitude one there.
    let mut c = QuantumCircuit::from_states(vec![2]).unwrap();
    c.apply_gate(Gate::SWAP(0, 1));
    let s = c.state();
    assert_eq!(s.len(), 4);
    for (i, e) in s.iter().enumerate() {
        let expect = if i == 1 { 1 } else { 0 };
        assert_eq!(e.a, BigInt::from(expect));
    }
}

#[test]
fn swap_fixes_equal_bits() {
    let mut c = QuantumCircuit::from_states(vec![3]).unwrap();
    c.apply_gate(Gate::SWAP(0, 1));
    let s = c.state();
    for (i, e) in s.iter().enumerate() {
        let expect = if i == 3 { 1 } else { 0 };
        assert_eq!(e.a, BigInt::from(expect));
    }
}

#[test]
fn swap_nonadjacent_basis_state() {
    // 0b100: qubits 0 and 2 differ; SWAP(0, 2) gives 0b001.
    let mut c = QuantumCircuit::new(3, 0b100);
    c.apply_gate(Gate::SWAP(0, 2));
    let s = c.state();
    for (i, e) in s.iter().enumerate() {
        let expect = if i == 0b001 { 1 } else { 0 };
        assert_eq!(e.a, BigInt::from(expect));
    }
}

#[test]
fn phase_gates_write_exact_units() {
    // S on |1> multiplies the amplitude by i; T by the eighth root of
    // unity; Z by minus one.
    let mut c = QuantumCircuit::new(1, 1);
    c.apply_gate(Gate::S(0));
    let s = c.state();
    assert_eq!(s[1].c, BigInt::from(1));
    assert_eq!(s[1].a, BigInt::from(0));

    let mut c = QuantumCircuit::new(1, 1);
    c.apply_gate(Gate::T(0));
    let s = c.state();
    assert_eq!(s[1].b, BigInt::from(1));

    let mut c = QuantumCircuit::new(1, 1);
    c.apply_gate(Gate::Z(0));
    let s = c.state();
    assert_eq!(s[1].a, BigInt::from(-1));

    let mut c = QuantumCircuit::new(1, 1);
    c.apply_gate(Gate::Y(0));
    let s = c.state();
    // Y |1> = -i |0>.
    assert_eq!(s[0].c, BigInt::from(-1));
    assert_eq!(s[1].a, BigInt::from(0));
}

#[test]
fn two_t_gates_compose_to_s() {
    // T twice multiplies |1> by w^2 = i, exactly as one S does.
    let mut ct = QuantumCircuit::new(1, 1);
    ct.apply_gate(Gate::T(0));
    ct.apply_gate(Gate::T(0));
    let mut cs = QuantumCircuit::new(1, 1);
    cs.apply_gate(Gate::S(0));
    let st = ct.state();
    let ss = cs.state();
    for (x, y) in st.iter().zip(ss.iter()) {
        assert_eq!(x.a, y.a);
        assert_eq!(x.b, y.b);
        assert_eq!(x.c, y.c);
        assert_eq!(x.d, y.d);
    }
    assert_eq!(st[1].c, BigInt::from(1));
}

#[test]
fn norm_stays_one_through_operations() {
    let mut c = QuantumCircuit::new(2, 0);
    let norm = |c: &QuantumCircuit| {
        state_complex(c).iter().map(|(re, im)| re * re + im * im).sum::<f64>()
    };
    assert_close(norm(&c), 1.0);
    c.apply_gate(Gate::H(0));
    assert_close(norm(&c), 1.0);
    c.apply_gate(Gate::T(1));
    assert_close(norm(&c), 1.0);
    c.apply_gate(Gate::CX(0, 1));
    assert_close(norm(&c), 1.0);
    c.measure();
    assert_close(norm(&c), 1.0);
}

#[test]
fn from_states_builds_equal_superposition() {
    let c = QuantumCircuit::from_states(vec![0, 3]).unwrap();
    let s = state_complex(&c);
    assert_eq!(s.len(), 4);
    assert_close(s[0].0, INV_SQRT2);
    assert_close(s[1].0, 0.0);
    assert_close(s[2].0, 0.0);
    assert_close(s[3].0, INV_SQRT2);
}

#[test]
fn from_states_rejects_empty_input() {
    match QuantumCircuit::from_states(vec![]) {
        Err(e) => assert_eq!(e, CircuitError::EmptyInput),
        Ok(_) => panic!("expected an error"),
    }
}

#[test]
fn from_states_rejects_duplicates() {
    match QuantumCircuit::from_states(vec![1, 2, 1]) {
        Err(e) => assert_eq!(e, CircuitError::DuplicateState),
        Ok(_) => panic!("expected an error"),
    }
}

#[test]
fn from_state_vector_rejects_non_power_of_two() {
    let v = vec![amp(1, 0, 0, 0), amp(0, 0, 0, 0), amp(0, 0, 0, 0)];
    match QuantumCircuit::from_state_vector(v) {
        Err(e) => assert_eq!(e, CircuitError::InvalidLength),
        Ok(_) => panic!("expected an error"),
    }
}

#[test]
fn from_state_vector_normalizes_on_ingestion() {
    // A uniformly scaled vector is brought to canonical form.
    let v = vec![amp(2, 0, 0, 0), amp(0, 0, 0, 0)];
    let c = QuantumCircuit::from_state_vector(v).unwrap();
    let s = c.state();
    assert_eq!(s[0].a, BigInt::from(1));
    assert_eq!(s[1].a, BigInt::from(0));
}

#[test]
fn measure_one_hot_returns_index_and_keeps_state() {
    let mut c = QuantumCircuit::new(3, 6);
    for _ in 0..20 {
        let r = c.measure();
        assert_eq!(r, 6);
        let s = c.state();
        for (i, e) in s.iter().enumerate() {
            let expect = if i == 6 { 1 } else { 0 };
            assert_eq!(e.a, BigInt::from(expect));
        }
    }
}

#[test]
fn measure_superposition_is_roughly_fair() {
    // An equal two-term superposition: each outcome should come up about
    // half the time over many trials.
    let trials = 1000;
    let mut zeros = 0;
    for _ in 0..trials {
        let mut c = QuantumCircuit::new(1, 0);
        c.apply_gate(Gate::H(0));
        let r = c.measure();
        assert!(r < 2);
        if r == 0 {
            zeros += 1;
        }
    }
    assert!(zeros > 350 && zeros < 650, "zeros = {}", zeros);
}

#[test]
fn measure_respects_collapsed_state() {
    let mut c = QuantumCircuit::new(1, 0);
    c.apply_gate(Gate::H(0));
    let first = c.measure();
    for _ in 0..10 {
        assert_eq!(c.measure(), first);
    }
}
