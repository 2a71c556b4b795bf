//! Operators on qubits.
use crate::scalar::Scalar;
use crate::tensor::{lemma_product_of_twos, twos, Tensor};
use vstd::arithmetic::power2::*;
use vstd::prelude::*;

verus! {

/// The two-qubit gates.
#[derive(Debug, Copy, Clone)]
pub enum TwoQubitsOp {
    /// Controlled NOT: it flips the low digit where the high digit is 1.
    CX,
    /// Controlled Z: the sign changes where both digits are 1.
    CZ,
    /// The two digits change places.
    SWAP,
}

/// A linear map on `nqubits` qubits: a square matrix with `2^nqubits` rows, in
/// row-major order.
pub struct Operator<T> {
    pub data: Tensor<T>,
    pub nqubits: usize,
}

impl<T> Operator<T> {
    /// Whether all the entries of the matrix are there.
    pub open spec fn wf(&self) -> bool {
        pow2(self.nqubits as nat) * pow2(self.nqubits as nat) <= self.data.data@.len()
    }
}

/// The row that has its one entry other than zero in the column `c`.
pub open spec fn gate_row(kind: TwoQubitsOp, c: int) -> int {
    match kind {
        TwoQubitsOp::CX => if c == 2 {
            3
        } else if c == 3 {
            2
        } else {
            c
        },
        TwoQubitsOp::CZ => c,
        TwoQubitsOp::SWAP => if c == 1 {
            2
        } else if c == 2 {
            1
        } else {
            c
        },
    }
}

/// The entries of a two-qubit gate. Each row and each column has one entry
/// other than zero: it is 1, or -1 in the last row of the controlled Z.
pub open spec fn gate_entry<T: Scalar>(kind: TwoQubitsOp, r: int, c: int) -> T {
    if r != gate_row(kind, c) {
        T::zero_spec()
    } else if kind is CZ && r == 3 {
        T::one_spec().negated_spec()
    } else {
        T::one_spec()
    }
}

/// The matrix of a two-qubit gate in row-major order.
pub open spec fn gate_matrix<T: Scalar>(kind: TwoQubitsOp) -> Seq<T> {
    Seq::new(16, |k: int| gate_entry(kind, k / 4, k % 4))
}

impl<T: Scalar> Operator<T> {
    /// The operator of a two-qubit gate.
    pub fn two_qubits(kind: TwoQubitsOp) -> (r: Self)
        ensures
            r.wf(),
            r.nqubits == 2,
            r.data.wf(),
            r.data.shape@ == seq![2usize, 2, 2, 2],
            r.data.data@ == gate_matrix::<T>(kind),
    {
        let o: T = T::zero();
        let e: T = T::one();
        let entries: Vec<T> = match kind {
            TwoQubitsOp::CX => vec![e, o, o, o, o, e, o, o, o, o, o, e, o, o, e, o],
            TwoQubitsOp::CZ => vec![e, o, o, o, o, e, o, o, o, o, e, o, o, o, o, e.negated()],
            TwoQubitsOp::SWAP => vec![e, o, o, o, o, o, e, o, o, e, o, o, o, o, o, e],
        };
        proof {
            lemma2_to64();
            assert(entries@ =~= gate_matrix::<T>(kind));
            assert(seq![2usize, 2, 2, 2] =~= twos(4));
            lemma_product_of_twos(4);
        }
        Operator { data: Tensor::from_vec(&entries, vec![2, 2, 2, 2]), nqubits: 2 }
    }
}

} // verus!
