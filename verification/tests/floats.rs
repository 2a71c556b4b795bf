use density_matrix::{DensityMatrix, Operator, Scalar, State, Tensor, TwoQubitsOp};
use num_complex::Complex;

#[derive(Clone, Copy, Debug, PartialEq)]
struct C64(Complex<f64>);

impl Scalar for C64 {
    type Tolerance = f64;

    fn zero() -> Self {
        C64(Complex::new(0.0, 0.0))
    }

    fn one() -> Self {
        C64(Complex::new(1.0, 0.0))
    }

    fn natural(n: usize) -> Self {
        C64(Complex::new(n as f64, 0.0))
    }

    fn plus(&self, other: &Self) -> Self {
        C64(self.0 + other.0)
    }

    fn times(&self, other: &Self) -> Self {
        C64(self.0 * other.0)
    }

    fn over(&self, other: &Self) -> Self {
        C64(self.0 / other.0)
    }

    fn negated(&self) -> Self {
        C64(-self.0)
    }

    fn conj(&self) -> Self {
        C64(self.0.conj())
    }

    fn close(&self, other: &Self, tol: &f64) -> bool {
        (self.0 - other.0).norm() < *tol
    }

    fn text(&self) -> String {
        format!("{}", self.0)
    }
}

fn c(re: f64, im: f64) -> C64 {
    C64(Complex::new(re, im))
}

fn op1(a: C64, b: C64, d: C64, e: C64) -> Operator<C64> {
    Operator { data: Tensor { data: vec![a, b, d, e], shape: vec![2, 2] }, nqubits: 1 }
}

fn hadamard() -> Operator<C64> {
    let h = c(0.5f64.sqrt(), 0.0);
    op1(h, h, h, c(-0.5f64.sqrt(), 0.0))
}

fn pauli_x() -> Operator<C64> {
    op1(c(0.0, 0.0), c(1.0, 0.0), c(1.0, 0.0), c(0.0, 0.0))
}

fn pauli_y() -> Operator<C64> {
    op1(c(0.0, 0.0), c(0.0, -1.0), c(0.0, 1.0), c(0.0, 0.0))
}

fn pauli_z() -> Operator<C64> {
    op1(c(1.0, 0.0), c(0.0, 0.0), c(0.0, 0.0), c(-1.0, 0.0))
}

fn close_all(m: &DensityMatrix<C64>, want: &[C64]) -> bool {
    m.data.data.len() == want.len()
        && (0..want.len()).all(|k| m.data.data[k].close(&want[k], &1e-12))
}

fn bell() -> DensityMatrix<C64> {
    let h = 0.5f64.sqrt();
    DensityMatrix::from_statevec(&[c(h, 0.0), c(0.0, 0.0), c(0.0, 0.0), c(h, 0.0)]).unwrap()
}

#[test]
fn new_zero_has_one_entry_first() {
    let m: DensityMatrix<C64> = DensityMatrix::new(2, State::ZERO);
    assert_eq!(m.size, 4);
    assert_eq!(m.nqubits, 2);
    assert_eq!(m.data.shape, vec![2, 2, 2, 2]);
    for k in 0..16 {
        assert_eq!(m.data.data[k], if k == 0 { c(1.0, 0.0) } else { c(0.0, 0.0) });
    }
}

#[test]
fn new_one_has_one_entry_last() {
    let m: DensityMatrix<C64> = DensityMatrix::new(2, State::ONE);
    for k in 0..16 {
        assert_eq!(m.data.data[k], if k == 15 { c(1.0, 0.0) } else { c(0.0, 0.0) });
    }
}

#[test]
fn new_plus_has_equal_entries() {
    let m: DensityMatrix<C64> = DensityMatrix::new(2, State::PLUS);
    assert_eq!(m.data.data.len(), 16);
    for k in 0..16 {
        assert_eq!(m.data.data[k], c(0.25, 0.0));
    }
}

#[test]
fn new_minus_has_signs() {
    let m: DensityMatrix<C64> = DensityMatrix::new(2, State::MINUS);
    let row = [0.25, -0.25, -0.25, 0.25];
    for i in 0..4 {
        for j in 0..4 {
            assert_eq!(m.data.data[i * 4 + j], c(row[i] * row[j] * 4.0, 0.0));
        }
    }
}

#[test]
fn new_without_qubits() {
    for s in [State::ZERO, State::ONE, State::PLUS, State::MINUS] {
        let m: DensityMatrix<C64> = DensityMatrix::new(0, s);
        assert_eq!(m.size, 1);
        assert_eq!(m.data.data, vec![c(1.0, 0.0)]);
        assert!(m.data.shape.is_empty());
    }
}

#[test]
fn statevec_gives_outer_product() {
    let m = DensityMatrix::from_statevec(&[c(0.6, 0.0), c(0.0, 0.8)]).unwrap();
    assert_eq!(m.nqubits, 1);
    assert!(close_all(&m, &[c(0.36, 0.0), c(0.0, -0.48), c(0.0, 0.48), c(0.64, 0.0)]));
}

#[test]
fn statevec_of_wrong_length() {
    let v = [c(1.0, 0.0), c(0.0, 0.0), c(0.0, 0.0)];
    assert_eq!(
        DensityMatrix::from_statevec(&v).err(),
        Some("The size of the statevec is not a power of two")
    );
    let none: [C64; 0] = [];
    assert_eq!(
        DensityMatrix::from_statevec(&none).err(),
        Some("The size of the statevec is not a power of two")
    );
}

#[test]
fn statevec_of_length_one() {
    let m = DensityMatrix::from_statevec(&[c(1.0, 0.0)]).unwrap();
    assert_eq!((m.nqubits, m.size), (0, 1));
    assert_eq!(m.data.data, vec![c(1.0, 0.0)]);
}

#[test]
fn tensor_sizes_are_checked() {
    let t = |shape: Vec<usize>| Tensor { data: vec![c(0.0, 0.0); 64], shape };
    assert_eq!(
        DensityMatrix::from_tensor(t(vec![3, 2])).err(),
        Some("Tensor size is not a power of two.")
    );
    assert_eq!(
        DensityMatrix::from_tensor(t(vec![2, 0])).err(),
        Some("Tensor size is not a power of two.")
    );
    assert_eq!(
        DensityMatrix::from_tensor(t(vec![2, 2, 2])).err(),
        Some("Tensor size is not valid. It should be of size 2^(2n) with n the number of qubits.")
    );
    let m = DensityMatrix::from_tensor(t(vec![2, 2, 2, 2, 2, 2])).unwrap();
    assert_eq!((m.nqubits, m.size), (3, 8));
    let m = DensityMatrix::from_tensor(t(vec![8, 8])).unwrap();
    assert_eq!((m.nqubits, m.size), (3, 8));
}

#[test]
fn tensor_of_a_matrix_gives_it_back() {
    let m: DensityMatrix<C64> = DensityMatrix::new(3, State::MINUS);
    let data = m.data.data.clone();
    let again = DensityMatrix::from_tensor(m.data).unwrap();
    assert_eq!((again.nqubits, again.size), (3, 8));
    assert_eq!(again.data.data, data);
}

#[test]
fn print_writes_rows() {
    let m: DensityMatrix<C64> = DensityMatrix::new(1, State::PLUS);
    assert_eq!(m.print(), "[[0.5+0i, 0.5+0i]\n[0.5+0i, 0.5+0i]]\n\n\n");
    let m: DensityMatrix<C64> = DensityMatrix::new(0, State::ZERO);
    assert_eq!(m.print(), "[[1+0i]]\n\n\n");
}

#[test]
fn set_then_get() {
    let mut m: DensityMatrix<C64> = DensityMatrix::new(2, State::ZERO);
    m.set(1, 2, c(3.0, 4.0));
    assert_eq!(m.get(1, 2), c(3.0, 4.0));
    assert_eq!(m.get(2, 1), c(0.0, 0.0));
    assert_eq!(m.get(0, 0), c(1.0, 0.0));
}

#[test]
fn get_reaches_far_rows() {
    let mut m: DensityMatrix<C64> = DensityMatrix::new(5, State::ZERO);
    m.set(31, 30, c(7.0, 0.0));
    assert_eq!(m.get(31, 30), c(7.0, 0.0));
    assert_eq!(m.data.data[31 * 32 + 30], c(7.0, 0.0));
}

#[test]
fn trace_of_many_qubits() {
    let m: DensityMatrix<C64> = DensityMatrix::new(6, State::PLUS);
    assert_eq!(m.trace(), c(1.0, 0.0));
}

#[test]
fn normalize_divides_by_the_trace() {
    let t = Tensor {
        data: vec![c(1.0, 0.0), c(0.0, 2.0), c(0.0, -2.0), c(3.0, 0.0)],
        shape: vec![2, 2],
    };
    let mut m = DensityMatrix::from_tensor(t).unwrap();
    assert_eq!(m.trace(), c(4.0, 0.0));
    m.normalize();
    assert_eq!(
        m.data.data,
        vec![c(0.25, 0.0), c(0.0, 0.5), c(0.0, -0.5), c(0.75, 0.0)]
    );
    assert_eq!(m.trace(), c(1.0, 0.0));
}

#[test]
fn expectation_of_paulis() {
    let zero: DensityMatrix<C64> = DensityMatrix::new(2, State::ZERO);
    assert_eq!(zero.expectation_single(&pauli_z(), 0), Ok(c(1.0, 0.0)));
    assert_eq!(zero.expectation_single(&pauli_x(), 1), Ok(c(0.0, 0.0)));
    let plus: DensityMatrix<C64> = DensityMatrix::new(3, State::PLUS);
    assert_eq!(plus.expectation_single(&pauli_x(), 2), Ok(c(1.0, 0.0)));
    let minus: DensityMatrix<C64> = DensityMatrix::new(3, State::MINUS);
    assert_eq!(minus.expectation_single(&pauli_x(), 0), Ok(c(-1.0, 0.0)));
}

#[test]
fn expectation_of_an_eigenstate() {
    let h = 0.5f64.sqrt();
    let m = DensityMatrix::from_statevec(&[c(h, 0.0), c(0.0, h)]).unwrap();
    let v = m.expectation_single(&pauli_y(), 0).unwrap();
    assert!(v.close(&c(1.0, 0.0), &1e-12));
}

#[test]
fn expectation_of_one_qubit_among_two() {
    let mut m: DensityMatrix<C64> = DensityMatrix::new(2, State::ZERO);
    m.evolve_single(&pauli_x(), 1).unwrap();
    assert_eq!(m.expectation_single(&pauli_z(), 0), Ok(c(1.0, 0.0)));
    assert_eq!(m.expectation_single(&pauli_z(), 1), Ok(c(-1.0, 0.0)));
}

#[test]
fn expectation_out_of_range() {
    let m: DensityMatrix<C64> = DensityMatrix::new(2, State::ZERO);
    assert_eq!(m.expectation_single(&pauli_z(), 2), Err("Index out of range"));
}

#[test]
fn evolve_single_turns_zero_into_plus() {
    let mut m: DensityMatrix<C64> = DensityMatrix::new(1, State::ZERO);
    m.evolve_single(&hadamard(), 0).unwrap();
    assert!(close_all(&m, &[c(0.5, 0.0); 4]));
}

#[test]
fn evolve_single_flips_the_named_qubit() {
    let mut m: DensityMatrix<C64> = DensityMatrix::new(3, State::ZERO);
    m.evolve_single(&pauli_x(), 0).unwrap();
    assert_eq!(m.data.data[4 * 8 + 4], c(1.0, 0.0));
    m.evolve_single(&pauli_x(), 2).unwrap();
    assert_eq!(m.data.data[5 * 8 + 5], c(1.0, 0.0));
}

#[test]
fn evolve_single_is_evolve_of_one() {
    let mut a: DensityMatrix<C64> = DensityMatrix::new(3, State::MINUS);
    let mut b: DensityMatrix<C64> = DensityMatrix::new(3, State::MINUS);
    a.evolve_single(&hadamard(), 1).unwrap();
    b.evolve(&hadamard(), &[1]).unwrap();
    assert_eq!(a.data.data, b.data.data);
}

#[test]
fn evolve_single_errors() {
    let mut m: DensityMatrix<C64> = DensityMatrix::new(2, State::PLUS);
    assert_eq!(
        m.evolve_single(&pauli_x(), 12),
        Err("Target qubit 12 is not in the range [0-2].".to_string())
    );
    assert_eq!(
        m.evolve_single(&Operator::two_qubits(TwoQubitsOp::CZ), 0),
        Err("Passed operator is not a one qubit operator.".to_string())
    );
    assert!(close_all(&m, &[c(0.25, 0.0); 16]));
}

#[test]
fn evolve_errors() {
    let mut m: DensityMatrix<C64> = DensityMatrix::new(2, State::PLUS);
    let cz: Operator<C64> = Operator::two_qubits(TwoQubitsOp::CZ);
    assert_eq!(
        m.evolve(&cz, &[0, 2]),
        Err("One or more target qubits are out of range [0-2].".to_string())
    );
    assert_eq!(
        m.evolve(&cz, &[0]),
        Err("Operator acts on 2 qubits, but 1 were provided.".to_string())
    );
    assert_eq!(
        m.evolve(&cz, &[5]),
        Err("One or more target qubits are out of range [0-2].".to_string())
    );
    assert!(close_all(&m, &[c(0.25, 0.0); 16]));
}

#[test]
fn evolve_takes_the_first_target_as_the_low_digit() {
    let cx: Operator<C64> = Operator::two_qubits(TwoQubitsOp::CX);
    let mut m: DensityMatrix<C64> = DensityMatrix::new(2, State::ZERO);
    m.evolve_single(&pauli_x(), 1).unwrap();
    m.evolve(&cx, &[0, 1]).unwrap();
    assert_eq!(m.data.data[3 * 4 + 3], c(1.0, 0.0));
}

#[test]
fn evolve_on_a_repeated_target() {
    let swap: Operator<C64> = Operator::two_qubits(TwoQubitsOp::SWAP);
    let mut m: DensityMatrix<C64> = DensityMatrix::new(1, State::ONE);
    m.evolve(&swap, &[0, 0]).unwrap();
    assert_eq!(m.data.data, vec![c(0.0, 0.0), c(0.0, 0.0), c(0.0, 0.0), c(1.0, 0.0)]);
}

#[test]
fn entangle_signs_the_last_row() {
    let mut m: DensityMatrix<C64> = DensityMatrix::new(2, State::PLUS);
    m.entangle(&(0, 1));
    for i in 0..4 {
        for j in 0..4 {
            let sign = if (i == 3) != (j == 3) { -0.25 } else { 0.25 };
            assert_eq!(m.data.data[i * 4 + j], c(sign, 0.0));
        }
    }
    m.entangle(&(0, 1));
    assert!(close_all(&m, &[c(0.25, 0.0); 16]));
}

#[test]
fn swap_moves_a_flipped_qubit() {
    let mut m: DensityMatrix<C64> = DensityMatrix::new(3, State::ZERO);
    m.evolve_single(&pauli_x(), 0).unwrap();
    m.swap(&(0, 2));
    assert_eq!(m.data.data[1 * 8 + 1], c(1.0, 0.0));
    m.swap(&(2, 0));
    assert_eq!(m.data.data[4 * 8 + 4], c(1.0, 0.0));
}

#[test]
fn cnot_flips_the_first_when_the_second_is_one() {
    let mut m: DensityMatrix<C64> = DensityMatrix::new(2, State::ZERO);
    m.cnot(&(0, 1));
    assert_eq!(m.data.data[0], c(1.0, 0.0));
    m.evolve_single(&pauli_x(), 1).unwrap();
    m.cnot(&(0, 1));
    assert_eq!(m.data.data[3 * 4 + 3], c(1.0, 0.0));
    m.cnot(&(1, 0));
    assert_eq!(m.data.data[2 * 4 + 2], c(1.0, 0.0));
}

#[test]
fn gates_out_of_range_change_nothing() {
    let mut m: DensityMatrix<C64> = DensityMatrix::new(2, State::PLUS);
    m.entangle(&(0, 2));
    m.swap(&(5, 1));
    m.cnot(&(2, 2));
    assert!(close_all(&m, &[c(0.25, 0.0); 16]));
}

#[test]
fn hadamard_and_cnot_make_a_bell_pair() {
    let mut m: DensityMatrix<C64> = DensityMatrix::new(2, State::ZERO);
    m.evolve_single(&hadamard(), 0).unwrap();
    m.cnot(&(1, 0));
    assert!(m.equals(bell(), 1e-12));
}

#[test]
fn equals_looks_at_entries_and_sizes() {
    let a: DensityMatrix<C64> = DensityMatrix::new(1, State::ZERO);
    assert!(a.equals(DensityMatrix::new(1, State::ZERO), 1e-9));
    assert!(!a.equals(DensityMatrix::new(1, State::ONE), 1e-9));
    assert!(!a.equals(DensityMatrix::new(2, State::ZERO), 1e-9));
    let mut b: DensityMatrix<C64> = DensityMatrix::new(1, State::ZERO);
    b.set(1, 1, c(1e-3, 0.0));
    assert!(!a.equals(b, 1e-4));
    let mut b: DensityMatrix<C64> = DensityMatrix::new(1, State::ZERO);
    b.set(1, 1, c(1e-3, 0.0));
    assert!(a.equals(b, 1e-2));
}

#[test]
fn equals_stops_before_a_missing_entry() {
    let a: DensityMatrix<C64> = DensityMatrix::new(1, State::ZERO);
    let mut b: DensityMatrix<C64> = DensityMatrix::new(1, State::ONE);
    b.data.data.truncate(1);
    assert!(!a.equals(b, 1e-9));
}

#[test]
fn tensor_of_zero_and_one() {
    let mut a: DensityMatrix<C64> = DensityMatrix::new(1, State::ZERO);
    let b: DensityMatrix<C64> = DensityMatrix::new(2, State::ONE);
    a.tensor(&b);
    assert_eq!((a.nqubits, a.size), (3, 8));
    assert_eq!(a.data.shape, vec![2; 6]);
    for k in 0..64 {
        assert_eq!(a.data.data[k], if k == 3 * 8 + 3 { c(1.0, 0.0) } else { c(0.0, 0.0) });
    }
}

#[test]
fn tensor_keeps_the_order_of_factors() {
    let mut a = DensityMatrix::from_tensor(Tensor {
        data: vec![c(1.0, 0.0), c(2.0, 0.0), c(3.0, 0.0), c(4.0, 0.0)],
        shape: vec![2, 2],
    })
    .unwrap();
    let b = DensityMatrix::from_tensor(Tensor {
        data: vec![c(5.0, 0.0), c(6.0, 0.0), c(7.0, 0.0), c(0.0, 1.0)],
        shape: vec![2, 2],
    })
    .unwrap();
    a.tensor(&b);
    assert_eq!(a.get(0, 3), c(12.0, 0.0));
    assert_eq!(a.get(2, 1), c(18.0, 0.0));
    assert_eq!(a.get(3, 3), c(0.0, 4.0));
}

#[test]
fn ptrace_of_a_bell_pair_is_mixed() {
    let mut m = bell();
    m.ptrace(&[0]).unwrap();
    assert_eq!((m.nqubits, m.size), (1, 2));
    assert_eq!(m.data.shape, vec![2, 2]);
    assert!(close_all(&m, &[c(0.5, 0.0), c(0.0, 0.0), c(0.0, 0.0), c(0.5, 0.0)]));
}

#[test]
fn ptrace_picks_the_remaining_qubits() {
    let mut m: DensityMatrix<C64> = DensityMatrix::new(3, State::ZERO);
    m.evolve_single(&pauli_x(), 1).unwrap();
    m.ptrace(&[2, 0]).unwrap();
    assert_eq!(m.data.data, vec![c(0.0, 0.0), c(0.0, 0.0), c(0.0, 0.0), c(1.0, 0.0)]);
}

#[test]
fn ptrace_of_everything() {
    let mut m: DensityMatrix<C64> = DensityMatrix::new(2, State::PLUS);
    m.ptrace(&[0, 1]).unwrap();
    assert_eq!((m.nqubits, m.size), (0, 1));
    assert_eq!(m.data.shape, vec![1]);
    assert_eq!(m.data.data, vec![c(1.0, 0.0)]);
}

#[test]
fn ptrace_shape_fits_the_entries() {
    let mut m: DensityMatrix<C64> = DensityMatrix::new(4, State::ZERO);
    m.ptrace(&[3]).unwrap();
    assert_eq!((m.nqubits, m.size), (3, 8));
    assert_eq!(m.data.data.len(), 64);
    assert_eq!(m.data.shape, vec![2; 6]);
    assert_eq!(m.get(0, 0), c(1.0, 0.0));
    assert!(m.equals(DensityMatrix::new(3, State::ZERO), 1e-9));
}

#[test]
fn ptrace_of_nothing() {
    let mut m = bell();
    let before = m.data.data.clone();
    m.ptrace(&[]).unwrap();
    assert_eq!(m.data.data, before);
    assert_eq!(m.nqubits, 2);
}

#[test]
fn ptrace_of_a_repeated_qubit() {
    let mut m: DensityMatrix<C64> = DensityMatrix::new(2, State::ZERO);
    m.ptrace(&[0, 0]).unwrap();
    assert_eq!((m.nqubits, m.size), (0, 1));
    assert_eq!(m.data.data, vec![c(2.0, 0.0), c(0.0, 0.0), c(0.0, 0.0), c(0.0, 0.0)]);
}

#[test]
fn ptrace_out_of_range() {
    let mut m: DensityMatrix<C64> = DensityMatrix::new(2, State::PLUS);
    assert_eq!(m.ptrace(&[0, 2]), Err("Wrong qubit argument for partial trace"));
    assert_eq!(m.nqubits, 2);
    assert!(close_all(&m, &[c(0.25, 0.0); 16]));
}
