use density_matrix::field9::{Trit, F9};
use density_matrix::{DensityMatrix, Operator, Scalar, State, Tensor, TwoQubitsOp};

const STATES: [State; 4] = [State::ZERO, State::ONE, State::PLUS, State::MINUS];

fn all() -> Vec<F9> {
    let parts = [Trit::Zero, Trit::One, Trit::Two];
    let mut v = Vec::new();
    for re in parts {
        for im in parts {
            v.push(F9 { re, im });
        }
    }
    v
}

/// A matrix with all kinds of entries.
fn sample(nqubits: usize) -> DensityMatrix<F9> {
    let size = 1usize << nqubits;
    let values = all();
    let data = (0..size * size).map(|k| values[(k * k + 5 * k + 2) % 9]).collect();
    DensityMatrix { data: Tensor { data, shape: vec![2; 2 * nqubits] }, size, nqubits }
}

fn i() -> F9 {
    F9 { re: Trit::Zero, im: Trit::One }
}

/// A unitary operator: i is a square root of -1, and the product of each row
/// with its conjugate is 1.
fn phase() -> Operator<F9> {
    Operator {
        data: Tensor { data: vec![F9::one(), F9::zero(), F9::zero(), i()], shape: vec![2, 2] },
        nqubits: 1,
    }
}

/// Another one: its columns are (1, 1) and (1, -1) divided by a root of 2.
fn rotation() -> Operator<F9> {
    let h = F9 { re: Trit::One, im: Trit::One };
    Operator { data: Tensor { data: vec![h, h, h, h.negated()], shape: vec![2, 2] }, nqubits: 1 }
}

#[test]
fn field_has_reciprocals() {
    for a in all() {
        for b in all() {
            if b != F9::zero() {
                assert_eq!(a.over(&b).times(&b), a);
            }
            assert_eq!(a.times(&b).conj(), a.conj().times(&b.conj()));
        }
        assert_eq!(a.plus(&a.negated()), F9::zero());
    }
    assert_eq!(i().times(&i()), F9::one().negated());
    assert_eq!(F9::natural(5), F9 { re: Trit::Two, im: Trit::Zero });
    assert_eq!(i().text(), "0+1i");
    assert!(i().close(&i(), &()));
    assert!(!i().close(&F9::one(), &()));
}

#[test]
fn states_are_products() {
    for s in STATES {
        let mut a: DensityMatrix<F9> = DensityMatrix::new(2, s);
        a.tensor(&DensityMatrix::new(1, s));
        let b: DensityMatrix<F9> = DensityMatrix::new(3, s);
        assert_eq!(a.data.data, b.data.data);
        assert_eq!(a.data.shape, b.data.shape);
    }
}

#[test]
fn states_have_trace_one() {
    for s in STATES {
        let m: DensityMatrix<F9> = DensityMatrix::new(3, s);
        assert_eq!(m.trace(), F9::one());
    }
}

#[test]
fn trace_of_product_is_product_of_traces() {
    let mut a = sample(1);
    let b = sample(2);
    let t = a.trace().times(&b.trace());
    a.tensor(&b);
    assert_eq!(a.trace(), t);
}

#[test]
fn normalized_matrix_has_trace_one() {
    let mut m = sample(1);
    m.set(0, 0, i());
    m.set(1, 1, i());
    assert_ne!(m.trace(), F9::zero());
    m.normalize();
    assert_eq!(m.trace(), F9::one());
    let before = m.data.data.clone();
    m.normalize();
    assert_eq!(m.data.data, before);
}

#[test]
fn gates_undo_themselves() {
    for edge in [(0, 1), (2, 0), (1, 2)] {
        let mut m = sample(3);
        let before = m.data.data.clone();
        m.entangle(&edge);
        assert_ne!(m.data.data, before);
        m.entangle(&edge);
        assert_eq!(m.data.data, before);
        m.swap(&edge);
        assert_ne!(m.data.data, before);
        m.swap(&edge);
        assert_eq!(m.data.data, before);
        m.cnot(&edge);
        assert_ne!(m.data.data, before);
        m.cnot(&edge);
        assert_eq!(m.data.data, before);
    }
}

#[test]
fn gates_keep_the_trace() {
    let mut m = sample(3);
    let t = m.trace();
    m.entangle(&(0, 2));
    m.cnot(&(1, 2));
    m.swap(&(0, 1));
    assert_eq!(m.trace(), t);
}

#[test]
fn edge_order_matters_for_cnot_alone() {
    let (mut a, mut b) = (sample(3), sample(3));
    a.entangle(&(0, 2));
    b.entangle(&(2, 0));
    assert_eq!(a.data.data, b.data.data);
    a.swap(&(0, 2));
    b.swap(&(2, 0));
    assert_eq!(a.data.data, b.data.data);
    a.cnot(&(0, 2));
    b.cnot(&(2, 0));
    assert_ne!(a.data.data, b.data.data);
}

#[test]
fn unitary_operators_keep_the_trace() {
    let mut m = sample(2);
    let t = m.trace();
    m.evolve_single(&phase(), 0).unwrap();
    m.evolve_single(&rotation(), 1).unwrap();
    assert_ne!(m.data.data, sample(2).data.data);
    assert_eq!(m.trace(), t);
}

#[test]
fn operators_compose() {
    let (p, r) = (phase(), rotation());
    let mut product = Vec::new();
    for row in 0..2 {
        for col in 0..2 {
            let a = r.data.data[row * 2].times(&p.data.data[col]);
            let b = r.data.data[row * 2 + 1].times(&p.data.data[2 + col]);
            product.push(a.plus(&b));
        }
    }
    let rp = Operator { data: Tensor { data: product, shape: vec![2, 2] }, nqubits: 1 };
    let (mut a, mut b) = (sample(2), sample(2));
    a.evolve_single(&p, 1).unwrap();
    a.evolve_single(&r, 1).unwrap();
    b.evolve_single(&rp, 1).unwrap();
    assert_eq!(a.data.data, b.data.data);
}

#[test]
fn pure_states_stay_hermitian() {
    let v: Vec<F9> = all().into_iter().skip(1).take(4).collect();
    let mut m = DensityMatrix::from_statevec(&v).unwrap();
    m.evolve_single(&rotation(), 0).unwrap();
    m.evolve(&Operator::two_qubits(TwoQubitsOp::CX), &[1, 0]).unwrap();
    for a in 0..4u8 {
        for b in 0..4u8 {
            assert_eq!(m.get(a, b), m.get(b, a).conj());
        }
    }
    m.ptrace(&[1]).unwrap();
    assert_eq!(m.get(0, 1), m.get(1, 0).conj());
}

#[test]
fn pure_states_multiply() {
    let v: Vec<F9> = all().into_iter().skip(3).take(2).collect();
    let w: Vec<F9> = all().into_iter().skip(5).take(4).collect();
    let mut joint = Vec::new();
    for x in &v {
        for y in &w {
            joint.push(x.times(y));
        }
    }
    let mut a = DensityMatrix::from_statevec(&v).unwrap();
    a.tensor(&DensityMatrix::from_statevec(&w).unwrap());
    let b = DensityMatrix::from_statevec(&joint).unwrap();
    assert_eq!(a.data.data, b.data.data);
}

#[test]
fn partial_trace_keeps_the_trace() {
    for traced in [vec![0], vec![1], vec![2, 0], vec![0, 1, 2]] {
        let mut m = sample(3);
        let t = m.trace();
        m.ptrace(&traced).unwrap();
        assert_eq!(m.trace(), t);
    }
}

#[test]
fn partial_trace_undoes_a_product() {
    let (a, b) = (sample(2), sample(1));
    let mut m = sample(2);
    m.tensor(&b);
    m.ptrace(&[2]).unwrap();
    for k in 0..16 {
        assert_eq!(m.data.data[k], a.data.data[k].times(&b.trace()));
    }
    let mut m = sample(2);
    m.tensor(&b);
    m.ptrace(&[0, 1]).unwrap();
    for k in 0..4 {
        assert_eq!(m.data.data[k], b.data.data[k].times(&a.trace()));
    }
}

#[test]
fn expectation_of_identity_is_the_trace() {
    let id = Operator {
        data: Tensor {
            data: vec![F9::one(), F9::zero(), F9::zero(), F9::one()],
            shape: vec![2, 2],
        },
        nqubits: 1,
    };
    let m = sample(3);
    for q in 0..3 {
        assert_eq!(m.expectation_single(&id, q), Ok(m.trace()));
    }
}

#[test]
fn gate_matrices() {
    let cx: Operator<F9> = Operator::two_qubits(TwoQubitsOp::CX);
    let one: Vec<usize> = (0..16).filter(|k| cx.data.data[*k] == F9::one()).collect();
    assert_eq!(one, vec![0, 5, 11, 14]);
    let swap: Operator<F9> = Operator::two_qubits(TwoQubitsOp::SWAP);
    let one: Vec<usize> = (0..16).filter(|k| swap.data.data[*k] == F9::one()).collect();
    assert_eq!(one, vec![0, 6, 9, 15]);
    let cz: Operator<F9> = Operator::two_qubits(TwoQubitsOp::CZ);
    assert_eq!(cz.data.data[15], F9::one().negated());
    assert_eq!(cz.nqubits, 2);
}
