use num::BigInt;
use qsim::gate::Gate;

fn entry_a(m: &Vec<Vec<qsim::complex::Amp>>, r: usize, c: usize) -> BigInt {
    m[r][c].a.clone()
}

#[test]
fn single_qubit_spans_and_positions() {
    assert_eq!(Gate::H(4).num_qubits(), 1);
    assert_eq!(Gate::H(4).position(), 4);
    assert_eq!(Gate::X(0).num_qubits(), 1);
    assert_eq!(Gate::T(7).position(), 7);
}

#[test]
fn two_qubit_spans_and_positions() {
    assert_eq!(Gate::CX(0, 2).num_qubits(), 3);
    assert_eq!(Gate::CX(0, 2).position(), 0);
    assert_eq!(Gate::CX(2, 0).num_qubits(), 3);
    assert_eq!(Gate::CX(2, 0).position(), 0);
    assert_eq!(Gate::SWAP(3, 1).num_qubits(), 3);
    assert_eq!(Gate::SWAP(3, 1).position(), 1);
}

#[test]
fn hadamard_matrix_entries() {
    let m = Gate::H(0).matrix();
    assert_eq!(m.len(), 2);
    assert_eq!(entry_a(&m, 0, 0), BigInt::from(1));
    assert_eq!(entry_a(&m, 0, 1), BigInt::from(1));
    assert_eq!(entry_a(&m, 1, 0), BigInt::from(1));
    assert_eq!(entry_a(&m, 1, 1), BigInt::from(-1));
}

#[test]
fn pauli_x_matrix_entries() {
    let m = Gate::X(0).matrix();
    assert_eq!(entry_a(&m, 0, 0), BigInt::from(0));
    assert_eq!(entry_a(&m, 0, 1), BigInt::from(1));
    assert_eq!(entry_a(&m, 1, 0), BigInt::from(1));
    assert_eq!(entry_a(&m, 1, 1), BigInt::from(0));
}

#[test]
fn pauli_y_matrix_entries() {
    let m = Gate::Y(0).matrix();
    // Y = [[0, -i], [i, 0]] over the ring: the imaginary unit is the
    // third coordinate.
    assert_eq!(m[0][1].c, BigInt::from(-1));
    assert_eq!(m[1][0].c, BigInt::from(1));
    assert_eq!(m[0][0].a, BigInt::from(0));
    assert_eq!(m[1][1].a, BigInt::from(0));
}

#[test]
fn adjacent_controlled_x_is_textbook_cnot() {
    // CX(0, 1): the 4 x 4 permutation fixing 00 and 01 and exchanging
    // 10 with 11.
    let m = Gate::CX(0, 1).matrix();
    assert_eq!(m.len(), 4);
    let expected = [
        [1, 0, 0, 0],
        [0, 1, 0, 0],
        [0, 0, 0, 1],
        [0, 0, 1, 0],
    ];
    for r in 0..4 {
        for c in 0..4 {
            assert_eq!(entry_a(&m, r, c), BigInt::from(expected[r][c]));
        }
    }
}

#[test]
fn nonadjacent_controlled_x_block() {
    // CX(2, 0) over a three-qubit block: control is the low block bit
    // (mask 1), target the high block bit (mask 4).  Column i holds the
    // one in row i when the control bit is clear, in row i XOR 4 when set.
    let m = Gate::CX(2, 0).matrix();
    assert_eq!(m.len(), 8);
    for col in 0..8usize {
        let row = if col & 1 == 1 { col ^ 4 } else { col };
        for r in 0..8usize {
            let expect = if r == row { 1 } else { 0 };
            assert_eq!(entry_a(&m, r, col), BigInt::from(expect), "col {} row {}", col, r);
        }
    }
}

#[test]
fn swap_matrix_is_the_three_cx_composition() {
    // SWAP(0, 1) exchanges 01 and 10.
    let m = Gate::SWAP(0, 1).matrix();
    let expected = [
        [1, 0, 0, 0],
        [0, 0, 1, 0],
        [0, 1, 0, 0],
        [0, 0, 0, 1],
    ];
    for r in 0..4 {
        for c in 0..4 {
            assert_eq!(entry_a(&m, r, c), BigInt::from(expected[r][c]));
        }
    }
}
