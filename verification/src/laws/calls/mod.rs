//! What the functions return and change, said of the calls themselves.
//!
//! Every law here takes what a call got and what it gave, and says how they
//! hang together: entry by entry, digit by digit, error by error.
pub mod create;
pub mod entries;
pub mod evolve;
pub mod expectation;
pub mod gates;
pub mod ptrace;
pub mod text;
pub mod tools;

use crate::bits::{bit, lemma_bit_step};
use crate::density_matrix::DensityMatrix;
use vstd::arithmetic::power2::*;
use vstd::prelude::*;

verus! {

/// The value of the qubit `q` of `n` in the row or column `i`: the qubit 0 is the
/// most significant binary digit.
pub open spec fn value_of(n: nat, q: int, i: int) -> int {
    (i / (pow2((n - 1 - q) as nat) as int)) % 2
}

/// Whether a matrix has `2^nqubits` rows and as many columns.
pub open spec fn whole<T>(m: DensityMatrix<T>) -> bool {
    &&& m.size == pow2(m.nqubits as nat)
    &&& m.data.data@.len() == pow2(m.nqubits as nat) * pow2(m.nqubits as nat)
}

/// The value of a qubit is a binary digit.
pub proof fn lemma_value_of(n: nat, q: int, i: int)
    requires
        0 <= q < n,
        0 <= i,
    ensures
        value_of(n, q, i) == bit(i as nat, (n - 1 - q) as nat),
        value_of(n, q, i) == 0 || value_of(n, q, i) == 1,
{
    lemma_bit_step(i as nat, (n - 1 - q) as nat);
}

} // verus!
