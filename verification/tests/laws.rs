use density_matrix::field9::{Trit, F9};
use density_matrix::{DensityMatrix, Operator, Scalar, State, Tensor, TwoQubitsOp};

const PARTS: [Trit; 3] = [Trit::Zero, Trit::One, Trit::Two];

/// A number of the field, any of the nine.
fn number(k: usize) -> F9 {
    F9 { re: PARTS[k % 3], im: PARTS[(k / 3) % 3] }
}

/// A matrix with all kinds of entries; the seed chooses among several.
fn sample(nqubits: usize, seed: usize) -> DensityMatrix<F9> {
    let size = 1usize << nqubits;
    let data = (0..size * size).map(|k| number(k * k + seed * k + seed + 1)).collect();
    DensityMatrix { data: Tensor { data, shape: vec![2; 2 * nqubits] }, size, nqubits }
}

/// An operator with all kinds of entries.
fn operator(nqubits: usize, seed: usize) -> Operator<F9> {
    let size = 1usize << nqubits;
    let data = (0..size * size).map(|k| number(2 * k * k + seed * k + seed)).collect();
    let shape = if nqubits == 1 { vec![2, 2] } else { vec![2; 2 * nqubits] };
    Operator { data: Tensor { data, shape }, nqubits }
}

/// A unitary operator on one qubit.
fn rotation() -> Operator<F9> {
    let h = number(4);
    Operator { data: Tensor { data: vec![h, h, h, h.negated()], shape: vec![2, 2] }, nqubits: 1 }
}

#[test]
fn identity_changes_nothing() {
    let id = Operator {
        data: Tensor {
            data: vec![F9::one(), F9::zero(), F9::zero(), F9::one()],
            shape: vec![2, 2],
        },
        nqubits: 1,
    };
    let mut m = sample(2, 3);
    m.evolve(&id, &[1]).unwrap();
    assert_eq!(m.data.data, sample(2, 3).data.data);
}

#[test]
fn products_associate() {
    let (b, x) = (sample(2, 1), sample(1, 4));
    let mut left = sample(1, 2);
    left.tensor(&b);
    left.tensor(&x);
    let mut tail = sample(2, 1);
    tail.tensor(&x);
    let mut right = sample(1, 2);
    right.tensor(&tail);
    assert_eq!(left.data.data, right.data.data);
    assert_eq!(left.nqubits, 4);
}

#[test]
fn product_with_nothing() {
    let nothing: DensityMatrix<F9> = DensityMatrix::new(0, State::ZERO);
    let mut m = sample(2, 5);
    m.tensor(&nothing);
    assert_eq!(m.data.data, sample(2, 5).data.data);
    let mut m = nothing;
    m.tensor(&sample(2, 5));
    assert_eq!(m.data.data, sample(2, 5).data.data);
}

#[test]
fn trace_of_a_pure_state() {
    let v: Vec<F9> = (3..7).map(number).collect();
    let m = DensityMatrix::from_statevec(&v).unwrap();
    let mut total = F9::zero();
    for a in &v {
        total = total.plus(&a.times(&a.conj()));
    }
    assert_eq!(m.trace(), total);
}

#[test]
fn basis_states_are_pure() {
    for n in 0..3usize {
        let size = 1usize << n;
        for (state, k) in [(State::ZERO, 0), (State::ONE, size - 1)] {
            let mut v = vec![F9::zero(); size];
            v[k] = F9::one();
            let pure = DensityMatrix::from_statevec(&v).unwrap();
            let m: DensityMatrix<F9> = DensityMatrix::new(n, state);
            assert_eq!(m.data.data, pure.data.data);
        }
    }
}

#[test]
fn operators_take_pure_states_to_pure_states() {
    let u = operator(1, 2);
    let v: Vec<F9> = (2..6).map(number).collect();
    let mut m = DensityMatrix::from_statevec(&v).unwrap();
    m.evolve_single(&u, 0).unwrap();
    let mut w = Vec::new();
    for row in 0..4usize {
        let a = u.data.data[(row / 2) * 2].times(&v[row % 2]);
        let b = u.data.data[(row / 2) * 2 + 1].times(&v[2 + row % 2]);
        w.push(a.plus(&b));
    }
    assert_eq!(m.data.data, DensityMatrix::from_statevec(&w).unwrap().data.data);
}

#[test]
fn swap_exchanges_the_digits() {
    let mut m = sample(2, 4);
    m.swap(&(0, 1));
    let order = [0u8, 2, 1, 3];
    let before = sample(2, 4);
    for i in 0..4u8 {
        for j in 0..4u8 {
            assert_eq!(m.get(i, j), before.get(order[i as usize], order[j as usize]));
        }
    }
}

#[test]
fn cnot_flips_rows_and_columns() {
    let mut m = sample(2, 6);
    m.cnot(&(0, 1));
    let order = [0u8, 3, 2, 1];
    let before = sample(2, 6);
    for i in 0..4u8 {
        for j in 0..4u8 {
            assert_eq!(m.get(i, j), before.get(order[i as usize], order[j as usize]));
        }
    }
}

#[test]
fn operators_act_on_the_first_system_alone() {
    let u = operator(2, 3);
    let b = sample(1, 2);
    let mut left = sample(2, 1);
    left.tensor(&b);
    left.evolve(&u, &[1, 0]).unwrap();
    let mut right = sample(2, 1);
    right.evolve(&u, &[1, 0]).unwrap();
    right.tensor(&b);
    assert_eq!(left.data.data, right.data.data);
}

#[test]
fn operators_act_on_the_second_system_alone() {
    let u = operator(2, 5);
    let mut left = sample(1, 1);
    left.tensor(&sample(2, 2));
    left.evolve(&u, &[1, 2]).unwrap();
    let mut tail = sample(2, 2);
    tail.evolve(&u, &[0, 1]).unwrap();
    let mut right = sample(1, 1);
    right.tensor(&tail);
    assert_eq!(left.data.data, right.data.data);
}

#[test]
fn operators_on_different_qubits_commute() {
    let (u, v) = (operator(2, 1), operator(1, 4));
    let (mut a, mut b) = (sample(3, 2), sample(3, 2));
    a.evolve(&u, &[2, 0]).unwrap();
    a.evolve(&v, &[1]).unwrap();
    b.evolve(&v, &[1]).unwrap();
    b.evolve(&u, &[2, 0]).unwrap();
    assert_eq!(a.data.data, b.data.data);
}

#[test]
fn unitary_operators_are_hidden_from_the_others() {
    let mut before = sample(3, 3);
    before.ptrace(&[2, 0]).unwrap();
    let mut after = sample(3, 3);
    after.evolve_single(&rotation(), 0).unwrap();
    after.evolve(&Operator::two_qubits(TwoQubitsOp::CX), &[2, 0]).unwrap();
    after.ptrace(&[2, 0]).unwrap();
    assert_eq!(before.data.data, after.data.data);
}

#[test]
fn partial_trace_ignores_the_order() {
    let (mut a, mut b) = (sample(3, 7), sample(3, 7));
    a.ptrace(&[0, 2]).unwrap();
    b.ptrace(&[2, 0]).unwrap();
    assert_eq!(a.data.data, b.data.data);
}

#[test]
fn partial_traces_in_turn() {
    let mut a = sample(4, 5);
    a.ptrace(&[1]).unwrap();
    a.ptrace(&[2, 0]).unwrap();
    let mut b = sample(4, 5);
    b.ptrace(&[1, 3, 0]).unwrap();
    assert_eq!(a.data.data, b.data.data);
    assert_eq!((a.nqubits, b.nqubits), (1, 1));
}

#[test]
fn partial_trace_of_everything_is_the_trace() {
    let mut m = sample(2, 8);
    let t = m.trace();
    m.ptrace(&[1, 0]).unwrap();
    assert_eq!(m.data.data, vec![t]);
    assert_eq!(m.data.shape, vec![1]);
}

#[test]
fn expectation_needs_the_partial_trace_alone() {
    let op = operator(1, 7);
    let m = sample(3, 1);
    let value = m.expectation_single(&op, 1);
    let mut small = sample(3, 1);
    small.ptrace(&[2, 0]).unwrap();
    let mut total = F9::zero();
    for a in 0..2 {
        for b in 0..2 {
            let x = small.data.data[a * 2 + b];
            total = total.plus(&x.times(&op.data.data[b * 2 + a]));
        }
    }
    assert_eq!(value, Ok(total));
}

#[test]
fn starting_states_are_hermitian() {
    for s in [State::ZERO, State::ONE, State::PLUS, State::MINUS] {
        let mut m: DensityMatrix<F9> = DensityMatrix::new(2, s);
        m.tensor(&DensityMatrix::new(1, s));
        for i in 0..8u8 {
            for j in 0..8u8 {
                assert_eq!(m.get(i, j), m.get(j, i).conj());
            }
        }
    }
}

#[test]
fn expectation_of_a_pauli_operator() {
    let i = number(3);
    let m = DensityMatrix::from_statevec(&[F9::one(), i]).unwrap();
    let y = Operator {
        data: Tensor { data: vec![F9::zero(), i.negated(), i, F9::zero()], shape: vec![2, 2] },
        nqubits: 1,
    };
    assert_eq!(m.expectation_single(&y, 0), Ok(F9::natural(2)));
}

#[test]
fn expectation_is_the_trace_of_the_product() {
    let op = operator(1, 5);
    let m = sample(2, 6);
    // The operator on the qubit 0 of two.
    let whole = |i: usize, j: usize| {
        if i % 2 == j % 2 {
            op.data.data[(i / 2) * 2 + j / 2]
        } else {
            F9::zero()
        }
    };
    let mut total = F9::zero();
    for i in 0..4 {
        for j in 0..4 {
            total = total.plus(&m.data.data[i * 4 + j].times(&whole(j, i)));
        }
    }
    assert_eq!(m.expectation_single(&op, 0), Ok(total));
}

#[test]
fn single_operators_act_together_as_their_product() {
    let (u, v) = (operator(1, 2), operator(1, 3));
    let mut data = Vec::new();
    for row in 0..4usize {
        for col in 0..4usize {
            let high = v.data.data[(row / 2) * 2 + col / 2];
            let low = u.data.data[(row % 2) * 2 + col % 2];
            data.push(high.times(&low));
        }
    }
    let both = Operator { data: Tensor { data, shape: vec![2; 4] }, nqubits: 2 };
    for (a, b) in [(0, 2), (2, 0), (1, 2)] {
        let mut x = sample(3, 4);
        x.evolve_single(&u, a).unwrap();
        x.evolve_single(&v, b).unwrap();
        let mut y = sample(3, 4);
        y.evolve(&both, &[a, b]).unwrap();
        assert_eq!(x.data.data, y.data.data);
    }
}

#[test]
fn a_common_phase_does_not_show() {
    let v: Vec<F9> = (1..5).map(number).collect();
    let i = number(3);
    assert_eq!(i.times(&i.conj()), F9::one());
    let w: Vec<F9> = v.iter().map(|a| i.times(a)).collect();
    assert_ne!(v, w);
    let a = DensityMatrix::from_statevec(&v).unwrap();
    let b = DensityMatrix::from_statevec(&w).unwrap();
    assert_eq!(a.data.data, b.data.data);
}

#[test]
fn starting_states_are_their_own_squares() {
    for s in [State::ZERO, State::ONE, State::PLUS, State::MINUS] {
        let m: DensityMatrix<F9> = DensityMatrix::new(2, s);
        for i in 0..4u8 {
            for j in 0..4u8 {
                let mut total = F9::zero();
                for k in 0..4u8 {
                    total = total.plus(&m.get(i, k).times(&m.get(k, j)));
                }
                assert_eq!(total, m.get(i, j));
            }
        }
    }
}

#[test]
fn normalizing_forgets_a_factor() {
    let mut a = sample(1, 2);
    assert_ne!(a.trace(), F9::zero());
    let mut b = sample(1, 2);
    for x in b.data.data.iter_mut() {
        *x = x.times(&number(5));
    }
    a.normalize();
    b.normalize();
    assert_eq!(a.data.data, b.data.data);
}

#[test]
fn partial_trace_can_be_made_into_a_matrix_again() {
    for (n, traced) in [(4usize, vec![3usize]), (2, vec![0, 1]), (3, vec![1])] {
        let mut m = sample(n, 3);
        m.ptrace(&traced).unwrap();
        let data = m.data.data.clone();
        let left = n - traced.len();
        let again = DensityMatrix::from_tensor(m.data).unwrap();
        assert_eq!(again.nqubits, left);
        assert_eq!(again.data.data, data);
    }
}

#[test]
fn starting_states_lose_qubits() {
    for s in [State::ZERO, State::ONE, State::PLUS, State::MINUS] {
        let mut m: DensityMatrix<F9> = DensityMatrix::new(4, s);
        m.ptrace(&[3]).unwrap();
        assert!(m.equals(DensityMatrix::new(3, s), ()));
    }
}
