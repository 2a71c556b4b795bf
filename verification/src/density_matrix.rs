//! Density matrices of systems of qubits.
use crate::binary::{bitwise_bin_vec_to_int, bitwise_int_to_bin_vec, count_ones, ones};
use crate::bits::{bit_at, exponent, exponent_of, lemma_exponent_fits, power_of_two};
use crate::matrix::{
    assigned, diagonal, entry, evolved, evolved_at, evolved_entry, evolved_terms, expectation_term,
    expectation_terms, joint_digits, joint_row, kronecker, lemma_joint_row_bound,
    lemma_remaining_bounds, lemma_remaining_count, lemma_square_of_pow2, normalized, positions_of,
    pure_matrix, reduced, reduced_entry, reduced_terms, remaining, state_matrix, trace_of,
};
use crate::operators::{gate_matrix, Operator, TwoQubitsOp};
use crate::parallel::{map_range, sum_range};
use crate::positions::{
    clear_bits, cleared, gather, gather_bits, inserted, lemma_cleared_bits, lemma_gather_bits,
    raise_bits,
};
use crate::scalar::Scalar;
use crate::sums::{
    is_some_sum, lemma_div_mod_bounds, lemma_div_mod_of, lemma_flat_bound, lemma_some_sum_same, sum,
};
use crate::tensor::{
    lemma_flat_of_binary, lemma_product_of_twos, lemma_twos_fit, product, product_fits, product_of,
    twos, Tensor,
};
use crate::text::{cells_text, decimal, decimal_text, matrix_text, rows_text};
use std::collections::HashSet;
use vstd::arithmetic::power2::*;
use vstd::prelude::*;
use vstd::string::*;

verus! {

/// The states that a density matrix can start in, the same on every qubit.
#[derive(Debug, Copy, Clone)]
pub enum State {
    ZERO,
    ONE,
    PLUS,
    MINUS,
}

/// A density matrix: `size * size` entries in row-major order, where `size`
/// is `2^nqubits`. The binary digits of a row number, the most significant
/// first, are the values of the qubits `0`, ..., `nqubits - 1`.
pub struct DensityMatrix<T> {
    pub data: Tensor<T>,
    pub size: usize,
    pub nqubits: usize,
}

impl<T> DensityMatrix<T> {
    /// Whether the number of rows is `2^nqubits` and all entries are there.
    pub open spec fn wf(&self) -> bool {
        &&& self.size == pow2(self.nqubits as nat)
        &&& self.data.data@.len() == self.size * self.size
    }
}

/// `n` copies of a value.
fn filled<T: Copy>(value: T, n: usize) -> (r: Vec<T>)
    ensures
        r@ == Seq::new(n as nat, |k: int| value),
{
    let mut v: Vec<T> = Vec::with_capacity(n);
    let mut k: usize = 0;
    while k < n
        invariant
            k <= n,
            v@ == Seq::new(k as nat, |i: int| value),
        decreases n - k,
    {
        v.push(value);
        k = k + 1;
        assert(v@ =~= Seq::new(k as nat, |i: int| value));
    }
    v
}

impl<T: Scalar> DensityMatrix<T> {
    /// The density matrix in which every qubit is in the given state.
    pub fn new(nqubits: usize, initial_state: State) -> (r: Self)
        requires
            pow2(2 * nqubits as nat) <= usize::MAX,
        ensures
            r.wf(),
            r.nqubits == nqubits,
            r.data.shape@ == twos(2 * nqubits as nat),
            r.data.data@ == state_matrix::<T>(initial_state, nqubits as nat),
    {
        let ghost n = nqubits as nat;
        let ghost want = state_matrix::<T>(initial_state, n);
        proof {
            lemma_square_of_pow2(n);
            lemma_exponent_fits(2 * n);
            lemma_product_of_twos(2 * n);
            assert(pow2(n) <= pow2(n) * pow2(n)) by (nonlinear_arith)
                requires
                    0 < pow2(n),
            ;
        }
        let size: usize = power_of_two(nqubits);
        let shape: usize = 2 * nqubits;
        let mut data: Tensor<T> = Tensor::from_vec(
            &filled(T::zero(), size * size),
            filled(2usize, shape),
        );
        assert(data.shape@ =~= twos(2 * n));
        match initial_state {
            State::PLUS => {
                let share: T = T::one().over(&T::natural(size));
                data.data = filled(share, size * size);
                assert(data.data@ =~= want);
            },
            State::ZERO => {
                let indices = bitwise_int_to_bin_vec(0, shape);
                proof {
                    lemma_flat_of_binary(0, 2 * n);
                }
                data.set(&indices, T::one());
                proof {
                    assert forall|k: int| 0 <= k < size * size implies data.data@[k] == want[k] by {
                        lemma_div_mod_bounds(k, size as int, size as int);
                        assert(0 * (size as int) == 0) by (nonlinear_arith);
                        if k == 0 {
                            lemma_div_mod_of(0, 0, size as int);
                        }
                    }
                    assert(data.data@ =~= want);
                }
            },
            State::ONE => {
                let last: usize = size * size - 1;
                let indices = bitwise_int_to_bin_vec(last, shape);
                proof {
                    lemma_flat_of_binary(last as nat, 2 * n);
                }
                data.set(&indices, T::one());
                proof {
                    let top = size - 1;
                    assert(top * size + top == last) by (nonlinear_arith)
                        requires
                            top == size - 1,
                            last == size * size - 1,
                    ;
                    lemma_div_mod_of(top, top, size as int);
                    assert forall|k: int| 0 <= k < size * size implies data.data@[k] == want[k] by {
                        lemma_div_mod_bounds(k, size as int, size as int);
                    }
                    assert(data.data@ =~= want);
                }
            },
            State::MINUS => {
                let factor: T = T::one().over(&T::natural(size));
                let mut i: usize = 0;
                while i < size
                    invariant
                        i <= size,
                        size == pow2(n),
                        n == nqubits,
                        shape == 2 * n,
                        shape < usize::BITS,
                        size * size == pow2(2 * n) <= usize::MAX,
                        factor == T::one_spec().over_spec(T::natural_spec(pow2(n))),
                        want == state_matrix::<T>(State::MINUS, n),
                        data.wf(),
                        data.shape@ == twos(2 * n),
                        data.data@.len() == size * size,
                        forall|k: int| 0 <= k < i * size ==> data.data@[k] == #[trigger] want[k],
                    decreases size - i,
                {
                    let mut j: usize = 0;
                    while j < size
                        invariant
                            i < size,
                            j <= size,
                            size == pow2(n),
                            n == nqubits,
                            shape == 2 * n,
                            shape < usize::BITS,
                            size * size == pow2(2 * n) <= usize::MAX,
                            factor == T::one_spec().over_spec(T::natural_spec(pow2(n))),
                            want == state_matrix::<T>(State::MINUS, n),
                            data.wf(),
                            data.shape@ == twos(2 * n),
                            data.data@.len() == size * size,
                            forall|k: int|
                                0 <= k < i * size + j ==> data.data@[k] == #[trigger] want[k],
                        decreases size - j,
                    {
                        proof {
                            lemma_flat_bound(i as int, j as int, size as int, size as int);
                            lemma_div_mod_of(i as int, j as int, size as int);
                            lemma_flat_of_binary((i * size + j) as nat, 2 * n);
                        }
                        let sign: T = if (count_ones(i) % 2 + count_ones(j) % 2) % 2 == 0 {
                            T::one()
                        } else {
                            T::one().negated()
                        };
                        let value: T = factor.times(&sign);
                        let indices = bitwise_int_to_bin_vec(i * size + j, shape);
                        data.set(&indices, value);
                        j = j + 1;
                    }
                    proof {
                        assert((i + 1) * size == i * size + size) by (nonlinear_arith);
                    }
                    i = i + 1;
                }
                assert(data.data@ =~= want);
            },
        }
        DensityMatrix { data, size, nqubits }
    }

    /// The density matrix of the pure state with the given amplitudes.
    pub fn from_statevec(statevec: &[T]) -> (r: Result<Self, &'static str>)
        requires
            exponent(statevec@.len()) is Some ==> statevec@.len() * statevec@.len() <= usize::MAX,
        ensures
            match exponent(statevec@.len()) {
                None => r matches Err(e) && e@
                    == "The size of the statevec is not a power of two"@,
                Some(n) => r matches Ok(m) && {
                    &&& m.wf()
                    &&& m.nqubits == n
                    &&& m.data.shape@ == twos(2 * n)
                    &&& m.data.data@ == pure_matrix(statevec@)
                },
            },
    {
        let size: usize = statevec.len();
        match exponent_of(size) {
            None => Err("The size of the statevec is not a power of two"),
            Some(nqubits) => {
                let ghost want = pure_matrix(statevec@);
                proof {
                    lemma_square_of_pow2(nqubits as nat);
                    lemma_exponent_fits(2 * nqubits as nat);
                }
                let count: usize = size * size;
                let mut data: Vec<T> = Vec::with_capacity(count);
                let mut k: usize = 0;
                while k < count
                    invariant
                        k <= count,
                        0 < size,
                        size == statevec@.len(),
                        count == size * size,
                        want == pure_matrix(statevec@),
                        data@ == want.take(k as int),
                    decreases count - k,
                {
                    proof {
                        lemma_div_mod_bounds(k as int, size as int, size as int);
                    }
                    data.push(statevec[k / size].times(&statevec[k % size].conj()));
                    k = k + 1;
                    assert(data@ =~= want.take(k as int));
                }
                assert(data@ =~= want);
                let shape: Vec<usize> = filled(2usize, 2 * nqubits);
                assert(shape@ =~= twos(2 * nqubits as nat));
                Ok(DensityMatrix { data: Tensor::from_vec(&data, shape), size, nqubits })
            },
        }
    }

    /// The density matrix with the given entries.
    pub fn from_tensor(tensor: Tensor<T>) -> (r: Result<Self, &'static str>)
        requires
            product_fits(tensor.shape@),
        ensures
            match exponent(product(tensor.shape@)) {
                None => r matches Err(e) && e@ == "Tensor size is not a power of two."@,
                Some(e) => if e % 2 == 0 {
                    r matches Ok(m) && {
                        &&& m.data == tensor
                        &&& m.nqubits == e / 2
                        &&& m.size == pow2(e / 2)
                        &&& tensor.wf() ==> m.wf()
                    }
                } else {
                    r matches Err(e) && e@
                        == "Tensor size is not valid. It should be of size 2^(2n) with n the number of qubits."@
                },
            },
    {
        let size: usize = product_of(&tensor.shape);
        match exponent_of(size) {
            None => Err("Tensor size is not a power of two."),
            Some(n) => {
                if n % 2 != 0 {
                    return Err(
                        "Tensor size is not valid. It should be of size 2^(2n) with n the number of qubits.",
                    );
                }
                let nqubits: usize = n / 2;
                proof {
                    lemma_square_of_pow2(nqubits as nat);
                    lemma_le_square(pow2(nqubits as nat) as int);
                }
                Ok(DensityMatrix { data: tensor, size: power_of_two(nqubits), nqubits })
            },
        }
    }

    /// The text of the matrix: one row on a line, in brackets.
    pub fn print(&self) -> (r: String)
        requires
            self.wf(),
        ensures
            r@ == matrix_text(self.data.data@, self.size as nat),
    {
        let ghost m = self.data.data@;
        let ghost d = self.size as nat;
        let mut out = "[".to_owned();
        assert(out@ =~= "["@ + rows_text(m, d, 0));
        let mut i: usize = 0;
        while i < self.size
            invariant
                self.wf(),
                m == self.data.data@,
                d == self.size,
                i <= self.size,
                out@ == "["@ + rows_text(m, d, i as nat),
            decreases self.size - i,
        {
            out.append("[");
            let ghost before = "["@ + rows_text(m, d, i as nat) + "["@;
            assert(out@ =~= before + cells_text(m, d, i as int, 0));
            let mut j: usize = 0;
            while j < self.size
                invariant
                    self.wf(),
                    m == self.data.data@,
                    d == self.size,
                    i < self.size,
                    j <= self.size,
                    out@ == before + cells_text(m, d, i as int, j as nat),
                decreases self.size - j,
            {
                proof {
                    assert(self.data.data.len() <= usize::MAX);
                    lemma_flat_bound(i as int, j as int, self.size as int, self.size as int);
                }
                out.append(self.data.data[i * self.size + j].text().as_str());
                if j != self.size - 1 {
                    out.append(", ");
                }
                j = j + 1;
                assert(out@ =~= before + cells_text(m, d, i as int, j as nat));
            }
            out.append("]");
            if i == self.size - 1 {
                out.append("]");
            }
            out.append("\n");
            i = i + 1;
            assert(out@ =~= "["@ + rows_text(m, d, i as nat));
        }
        out.append("\n\n");
        assert(out@ =~= matrix_text(m, d));
        out
    }

    /// The entry in row `i` and column `j`.
    pub fn get(&self, i: u8, j: u8) -> (r: T)
        requires
            self.wf(),
            i * self.size + j < self.size * self.size,
        ensures
            r == entry(self.data.data@, self.size as nat, i as int, j as int),
    {
        proof {
            assert(self.data.data.len() <= usize::MAX);
            assert(0 <= i * self.size) by (nonlinear_arith);
        }
        self.data.data[i as usize * self.size + j as usize]
    }

    /// Replaces the entry in row `i` and column `j`.
    pub fn set(&mut self, i: u8, j: u8, value: T)
        requires
            old(self).wf(),
            i * old(self).size + j < old(self).size * old(self).size,
        ensures
            final(self).wf(),
            final(self).nqubits == old(self).nqubits,
            final(self).data.shape == old(self).data.shape,
            final(self).data.data@ == old(self).data.data@.update(
                i * old(self).size + j,
                value,
            ),
    {
        proof {
            assert(self.data.data.len() <= usize::MAX);
            assert(0 <= i * self.size) by (nonlinear_arith);
        }
        self.data.data.set(i as usize * self.size + j as usize, value);
    }

    /// One term of the expectation value of an operator on the digit at `pos`.
    fn expectation_term_at(&self, op: &Operator<T>, pos: usize, k: usize) -> (r: T)
        requires
            self.wf(),
            pos < self.nqubits,
            k < self.size * self.size,
            acts_on_digit(op),
        ensures
            r == expectation_term(
                self.data.data@,
                self.nqubits as nat,
                op_entries(op),
                pos as nat,
                k as int,
            ),
    {
        proof {
            assert(self.data.data.len() <= usize::MAX);
            lemma_pow2_pos(self.nqubits as nat);
            lemma_le_square(self.size as int);
            lemma_exponent_fits(self.nqubits as nat);
            lemma_div_mod_bounds(k as int, self.size as int, self.size as int);
        }
        let i: usize = k / self.size;
        let j: usize = k % self.size;
        let positions: Vec<usize> = vec![pos];
        let ghost ps = positions@;
        let op_i: usize = bit_at(i, pos);
        let op_j: usize = bit_at(j, pos);
        proof {
            assert(ps.drop_last() =~= Seq::<usize>::empty());
            reveal_with_fuel(cleared, 2);
        }
        if clear_bits(i, &positions) == clear_bits(j, &positions) {
            let indices: [u8; 2] = [op_j as u8, op_i as u8];
            assert(indices@ =~= seq![op_j as u8, op_i as u8]);
            self.data.data[k].times(op.data.get(&indices))
        } else {
            T::zero()
        }
    }

    /// The expectation value of a one-qubit operator on the qubit `index`: the
    /// trace of the matrix times the operator. It is the sum over all entries
    /// whose row and column agree outside the qubit, each times the entry of the
    /// operator in the row that the qubit's value in the column gives and in the
    /// column that its value in the row gives. The terms are added in order; the
    /// parentheses stand where the threads that share the work put them.
    pub fn expectation_single(&self, op: &Operator<T>, index: usize) -> (r: Result<
        T,
        &'static str,
    >)
        requires
            index < self.nqubits ==> self.wf() && acts_on_digit(op),
        ensures
            index >= self.nqubits ==> (r matches Err(e) && e@ == "Index out of range"@),
            index < self.nqubits ==> (r matches Ok(v) && is_some_sum(
                expectation_terms(
                    self.data.data@,
                    self.nqubits as nat,
                    op_entries(op),
                    (self.nqubits - index - 1) as nat,
                ),
                (self.size * self.size) as nat,
                v,
            )),
    {
        if index >= self.nqubits {
            return Err("Index out of range");
        }
        let pos: usize = self.nqubits - index - 1;
        let count: usize = self.data.data.len();
        let f = |k: usize| -> (x: T)
            requires
                self.wf(),
                pos < self.nqubits,
                k < self.size * self.size,
                acts_on_digit(op),
            ensures
                x == expectation_term(
                    self.data.data@,
                    self.nqubits as nat,
                    op_entries(op),
                    pos as nat,
                    k as int,
                ),
            { self.expectation_term_at(op, pos, k) };
        let total: T = sum_range(count, f);
        proof {
            let terms = expectation_terms(
                self.data.data@,
                self.nqubits as nat,
                op_entries(op),
                pos as nat,
            );
            let value = choose|value: spec_fn(int) -> T|
                {
                    &&& #[trigger] is_some_sum(value, count as nat, total)
                    &&& forall|i: usize|
                        i < count ==> call_ensures(f, (i,), #[trigger] value(i as int))
                };
            assert forall|i: int| 0 <= i < count implies #[trigger] value(i) == terms(i) by {
                assert(call_ensures(f, (i as usize,), value((i as usize) as int)));
            }
            lemma_some_sum_same(value, terms, count as nat, total);
        }
        Ok(total)
    }

    /// The sum of the diagonal entries.
    pub fn trace(&self) -> (r: T)
        requires
            self.wf(),
        ensures
            r == trace_of(self.data.data@, self.size as nat),
    {
        let ghost f = diagonal(self.data.data@, self.size as nat);
        let mut total: T = T::zero();
        let mut i: usize = 0;
        while i < self.size
            invariant
                self.wf(),
                i <= self.size,
                f == diagonal(self.data.data@, self.size as nat),
                total == sum(f, i as nat),
            decreases self.size - i,
        {
            proof {
                assert(self.data.data.len() <= usize::MAX);
                lemma_flat_bound(i as int, i as int, self.size as int, self.size as int);
            }
            total = total.plus(&self.data.data[i * self.size + i]);
            i = i + 1;
        }
        total
    }

    /// Divides every entry by the trace.
    pub fn normalize(&mut self)
        requires
            old(self).wf(),
        ensures
            final(self).wf(),
            final(self).nqubits == old(self).nqubits,
            final(self).data.shape == old(self).data.shape,
            final(self).data.data@ == normalized(old(self).data.data@, old(self).size as nat),
    {
        let trace: T = self.trace();
        let entries: &Vec<T> = &self.data.data;
        let f = |k: usize| -> (x: T)
            requires
                k < entries@.len(),
            ensures
                x == entries@[k as int].over_spec(trace),
            { entries[k].over(&trace) };
        let scaled: Vec<T> = map_range(entries.len(), f);
        proof {
            let want = normalized(self.data.data@, self.size as nat);
            assert forall|i: int| 0 <= i < want.len() implies scaled@[i] == want[i] by {
                assert(call_ensures(f, (i as usize,), scaled@[(i as usize) as int]));
            }
            assert(scaled@ =~= want);
        }
        self.data.data = scaled;
    }

    /// Whether two matrices have as many entries by their shapes and all entries
    /// are equal up to the tolerance.
    pub fn equals(&self, other: DensityMatrix<T>, tol: T::Tolerance) -> (r: bool)
        requires
            product_fits(self.data.shape@),
            product_fits(other.data.shape@),
            product(self.data.shape@) == product(other.data.shape@) ==> {
                ||| self.data.data@.len() <= other.data.data@.len()
                ||| !agree(self.data.data@, other.data.data@, tol, other.data.data@.len())
            },
        ensures
            r == (product(self.data.shape@) == product(other.data.shape@) && agree(
                self.data.data@,
                other.data.data@,
                tol,
                self.data.data@.len(),
            )),
    {
        if product_of(&self.data.shape) == product_of(&other.data.shape) {
            let mut i: usize = 0;
            while i < self.data.data.len()
                invariant
                    i <= self.data.data@.len(),
                    i <= other.data.data@.len(),
                    agree(self.data.data@, other.data.data@, tol, i as nat),
                    self.data.data@.len() <= other.data.data@.len() || !agree(
                        self.data.data@,
                        other.data.data@,
                        tol,
                        other.data.data@.len(),
                    ),
                decreases self.data.data@.len() - i,
            {
                if !self.data.data[i].close(&other.data.data[i], &tol) {
                    return false;
                }
                i = i + 1;
            }
            true
        } else {
            false
        }
    }

    /// Appends the qubits of another matrix: the result is the Kronecker product.
    pub fn tensor(&mut self, other: &DensityMatrix<T>)
        requires
            old(self).wf(),
            other.wf(),
            pow2(2 * (old(self).nqubits + other.nqubits) as nat) <= usize::MAX,
        ensures
            final(self).wf(),
            final(self).nqubits == old(self).nqubits + other.nqubits,
            final(self).data.shape@ == twos(2 * final(self).nqubits as nat),
            final(self).data.data@ == kronecker(
                old(self).data.data@,
                old(self).size as nat,
                other.data.data@,
                other.size as nat,
            ),
    {
        let ghost m = self.nqubits as nat;
        let ghost n = other.nqubits as nat;
        proof {
            lemma_exponent_fits(2 * (m + n));
            lemma_square_of_pow2(m + n);
            lemma_pow2_adds(m, n);
            lemma_le_square(pow2(m + n) as int);
            lemma_pow2_pos(n);
            lemma_pow2_pos(m);
            lemma_twos_fit(2 * (m + n));
            lemma_product_of_twos(2 * (m + n));
        }
        let nqubits: usize = self.nqubits + other.nqubits;
        let new_dim: usize = self.size * other.size;
        let new_shape: Vec<usize> = filled(2usize, 2 * nqubits);
        assert(new_shape@ =~= twos(2 * (m + n)));
        let mut result: Tensor<T> = Tensor::new(&new_shape);
        let count: usize = result.data.len();
        let ghost want = kronecker(
            self.data.data@,
            self.size as nat,
            other.data.data@,
            other.size as nat,
        );
        let mut k: usize = 0;
        while k < count
            invariant
                self.wf(),
                other.wf(),
                k <= count,
                0 < self.size,
                0 < other.size,
                new_dim == self.size * other.size,
                0 < new_dim,
                count == new_dim * new_dim,
                want == kronecker(
                    self.data.data@,
                    self.size as nat,
                    other.data.data@,
                    other.size as nat,
                ),
                result.data@.len() == count,
                result.shape@ == twos(2 * (m + n)),
                forall|x: int| 0 <= x < k ==> #[trigger] result.data@[x] == want[x],
            decreases count - k,
        {
            let i: usize = k / new_dim;
            let j: usize = k % new_dim;
            proof {
                assert(self.data.data.len() <= usize::MAX);
                assert(other.data.data.len() <= usize::MAX);
                let c = self.size as int;
                let d = other.size as int;
                lemma_div_mod_bounds(k as int, new_dim as int, new_dim as int);
                lemma_div_mod_bounds(i as int, c, d);
                lemma_div_mod_bounds(j as int, c, d);
                lemma_flat_bound(i as int / d, j as int / d, c, c);
                lemma_flat_bound(i as int % d, j as int % d, d, d);
            }
            let (self_row, other_row): (usize, usize) = (i / other.size, i % other.size);
            let (self_col, other_col): (usize, usize) = (j / other.size, j % other.size);
            let mine: T = self.data.data[self_row * self.size + self_col];
            let theirs: T = other.data.data[other_row * other.size + other_col];
            result.data.set(k, mine.times(&theirs));
            k = k + 1;
        }
        assert(result.data@ =~= want);
        self.data = result;
        self.size = new_dim;
        self.nqubits = nqubits;
    }

    /// One entry of the matrix after the operator has acted on the digits at the
    /// given positions.
    fn evolved_entry_at(&self, op: &Operator<T>, pos: &Vec<usize>, i: usize, j: usize) -> (r: T)
        requires
            self.wf(),
            i < self.size,
            j < self.size,
            forall|k: int| 0 <= k < pos@.len() ==> #[trigger] pos@[k] < self.nqubits,
            pow2(pos@.len()) * pow2(pos@.len()) <= op.data.data@.len(),
        ensures
            r == evolved_entry(
                self.data.data@,
                self.nqubits as nat,
                op.data.data@,
                pos@,
                i as int,
                j as int,
            ),
    {
        let ghost n = self.nqubits as nat;
        let ghost m = pos@.len();
        let ghost f = evolved_terms(self.data.data@, n, op.data.data@, pos@, i as int, j as int);
        proof {
            assert(op.data.data.len() <= usize::MAX);
            assert(self.data.data.len() <= usize::MAX);
            lemma_square_of_pow2(m);
            lemma_square_of_pow2(n);
            lemma_le_square(pow2(m) as int);
            lemma_le_square(pow2(n) as int);
            lemma_exponent_fits(m);
            lemma_exponent_fits(n);
            assert forall|k: int| 0 <= k < pos@.len() implies #[trigger] pos@[k] < usize::BITS by {
                assert(pos@[k] < self.nqubits);
            }
            lemma_gather_bits(i as nat, pos@);
            lemma_gather_bits(j as nat, pos@);
            lemma_cleared_bits(i as nat, pos@, 0);
            lemma_cleared_bits(j as nat, pos@, 0);
        }
        let d: usize = power_of_two(pos.len());
        let b_i: usize = gather_bits(i, pos);
        let b_j: usize = gather_bits(j, pos);
        let i_base: usize = clear_bits(i, pos);
        let j_base: usize = clear_bits(j, pos);
        let mut total: T = T::zero();
        let mut p: usize = 0;
        while p < d
            invariant
                self.wf(),
                n == self.nqubits,
                m == pos@.len(),
                m <= usize::BITS,
                i < self.size,
                j < self.size,
                p <= d,
                d == pow2(m),
                d * d <= op.data.data@.len() <= usize::MAX,
                self.data.data@.len() <= usize::MAX,
                pow2(n) <= usize::MAX,
                forall|k: int| 0 <= k < pos@.len() ==> #[trigger] pos@[k] < n,
                b_i == gather(i as nat, pos@) < d,
                b_j == gather(j as nat, pos@) < d,
                i_base == cleared(i as nat, pos@) < pow2(n),
                j_base == cleared(j as nat, pos@) < pow2(n),
                f == evolved_terms(self.data.data@, n, op.data.data@, pos@, i as int, j as int),
                total == sum(f, (p * d) as nat),
            decreases d - p,
        {
            let i_prime: usize = raise_bits(i_base, pos, p, self.nqubits);
            let mut q: usize = 0;
            while q < d
                invariant
                    self.wf(),
                    n == self.nqubits,
                    m == pos@.len(),
                    m <= usize::BITS,
                    i < self.size,
                    j < self.size,
                    p < d,
                    q <= d,
                    d == pow2(m),
                    d * d <= op.data.data@.len() <= usize::MAX,
                    self.data.data@.len() <= usize::MAX,
                    pow2(n) <= usize::MAX,
                    forall|k: int| 0 <= k < pos@.len() ==> #[trigger] pos@[k] < n,
                    b_i == gather(i as nat, pos@) < d,
                    b_j == gather(j as nat, pos@) < d,
                    i_prime == inserted(i as nat, pos@, p as nat) < pow2(n),
                    j_base == cleared(j as nat, pos@) < pow2(n),
                    f == evolved_terms(
                        self.data.data@,
                        n,
                        op.data.data@,
                        pos@,
                        i as int,
                        j as int,
                    ),
                    total == sum(f, (p * d + q) as nat),
                decreases d - q,
            {
                let j_prime: usize = raise_bits(j_base, pos, q, self.nqubits);
                let ghost size = self.size as int;
                proof {
                    lemma_flat_bound(b_i as int, p as int, d as int, d as int);
                    lemma_flat_bound(b_j as int, q as int, d as int, d as int);
                    lemma_flat_bound(i_prime as int, j_prime as int, size, size);
                    lemma_flat_bound(p as int, q as int, d as int, d as int);
                    lemma_div_mod_of(p as int, q as int, d as int);
                }
                let left: T = op.data.data[b_i * d + p];
                let middle: T = self.data.data[i_prime * self.size + j_prime];
                let right: T = op.data.data[b_j * d + q].conj();
                let term: T = left.times(&middle).times(&right);
                assert(term == f(p * d + q));
                total = total.plus(&term);
                q = q + 1;
            }
            proof {
                assert((p + 1) * d == p * d + d) by (nonlinear_arith);
            }
            p = p + 1;
        }
        total
    }

    /// The entries of the matrix after the operator has acted on the digits at
    /// the given positions.
    fn evolved_data(&self, op: &Operator<T>, pos: &Vec<usize>) -> (r: Vec<T>)
        requires
            self.wf(),
            forall|k: int| 0 <= k < pos@.len() ==> #[trigger] pos@[k] < self.nqubits,
            pow2(pos@.len()) * pow2(pos@.len()) <= op.data.data@.len(),
        ensures
            r@ == evolved_at(self.data.data@, self.nqubits as nat, op.data.data@, pos@),
    {
        let ghost want = evolved_at(
            self.data.data@,
            self.nqubits as nat,
            op.data.data@,
            pos@,
        );
        let count: usize = self.data.data.len();
        let mut v: Vec<T> = Vec::with_capacity(count);
        let mut k: usize = 0;
        while k < count
            invariant
                self.wf(),
                k <= count,
                count == self.size * self.size,
                forall|i: int| 0 <= i < pos@.len() ==> #[trigger] pos@[i] < self.nqubits,
                pow2(pos@.len()) * pow2(pos@.len()) <= op.data.data@.len(),
                want == evolved_at(
                    self.data.data@,
                    self.nqubits as nat,
                    op.data.data@,
                    pos@,
                ),
                v@ == want.take(k as int),
            decreases count - k,
        {
            proof {
                lemma_pow2_pos(self.nqubits as nat);
                lemma_div_mod_bounds(k as int, self.size as int, self.size as int);
            }
            v.push(self.evolved_entry_at(op, pos, k / self.size, k % self.size));
            k = k + 1;
            assert(v@ =~= want.take(k as int));
        }
        assert(want.take(k as int) =~= want);
        v
    }

    /// Lets a one-qubit operator act on the qubit `index`.
    pub fn evolve_single(&mut self, op: &Operator<T>, index: usize) -> (r: Result<(), String>)
        requires
            index < old(self).nqubits && op.nqubits == 1 ==> old(self).wf() && op.wf(),
        ensures
            index >= old(self).nqubits ==> {
                &&& r matches Err(e) && e@ == target_error(index as nat, old(self).nqubits as nat)
                &&& *final(self) == *old(self)
            },
            index < old(self).nqubits && op.nqubits != 1 ==> {
                &&& r matches Err(e) && e@ == "Passed operator is not a one qubit operator."@
                &&& *final(self) == *old(self)
            },
            index < old(self).nqubits && op.nqubits == 1 ==> {
                &&& r is Ok
                &&& final(self).wf()
                &&& final(self).nqubits == old(self).nqubits
                &&& final(self).data.shape == old(self).data.shape
                &&& final(self).data.data@ == evolved(
                    old(self).data.data@,
                    old(self).nqubits as nat,
                    op.data.data@,
                    seq![index],
                )
            },
    {
        if index >= self.nqubits {
            let mut message = "Target qubit ".to_owned();
            message.append(decimal_text(index).as_str());
            message.append(" is not in the range [0-");
            message.append(decimal_text(self.nqubits).as_str());
            message.append("].");
            return Err(message);
        }
        if op.nqubits != 1 {
            return Err("Passed operator is not a one qubit operator.".to_owned());
        }
        let shift: usize = self.nqubits - index - 1;
        let pos: Vec<usize> = vec![shift];
        assert(pos@ =~= positions_of(self.nqubits as nat, seq![index]));
        self.data.data = self.evolved_data(op, &pos);
        Ok(())
    }

    /// Lets an operator act on the given qubits. The first of them is the least
    /// significant digit of the operator's rows and columns.
    pub fn evolve(&mut self, op: &Operator<T>, indices: &[usize]) -> (r: Result<(), String>)
        requires
            targets_fit(indices@, old(self).nqubits) && op.nqubits == indices@.len() ==> {
                &&& old(self).wf()
                &&& op.wf()
            },
        ensures
            !targets_fit(indices@, old(self).nqubits) ==> {
                &&& r matches Err(e) && e@ == targets_error(old(self).nqubits as nat)
                &&& *final(self) == *old(self)
            },
            targets_fit(indices@, old(self).nqubits) && op.nqubits != indices@.len() ==> {
                &&& r matches Err(e) && e@ == arity_error(op.nqubits as nat, indices@.len())
                &&& *final(self) == *old(self)
            },
            targets_fit(indices@, old(self).nqubits) && op.nqubits == indices@.len() ==> {
                &&& r is Ok
                &&& final(self).wf()
                &&& final(self).nqubits == old(self).nqubits
                &&& final(self).data.shape == old(self).data.shape
                &&& final(self).data.data@ == evolved(
                    old(self).data.data@,
                    old(self).nqubits as nat,
                    op.data.data@,
                    indices@,
                )
            },
    {
        let n_targets: usize = indices.len();
        let mut pos: Vec<usize> = Vec::with_capacity(n_targets);
        let ghost want = positions_of(self.nqubits as nat, indices@);
        let mut k: usize = 0;
        while k < n_targets
            invariant
                k <= n_targets,
                n_targets == indices@.len(),
                *self == *old(self),
                want == positions_of(self.nqubits as nat, indices@),
                forall|i: int| 0 <= i < k ==> #[trigger] indices@[i] < self.nqubits,
                pos@ == want.take(k as int),
            decreases n_targets - k,
        {
            if indices[k] >= self.nqubits {
                let mut message = "One or more target qubits are out of range [0-".to_owned();
                message.append(decimal_text(self.nqubits).as_str());
                message.append("].");
                return Err(message);
            }
            pos.push(self.nqubits - indices[k] - 1);
            k = k + 1;
            assert(pos@ =~= want.take(k as int));
        }
        if op.nqubits != n_targets {
            let mut message = "Operator acts on ".to_owned();
            message.append(decimal_text(op.nqubits).as_str());
            message.append(" qubits, but ");
            message.append(decimal_text(n_targets).as_str());
            message.append(" were provided.");
            return Err(message);
        }
        proof {
            assert(pos@ =~= want);
            assert forall|i: int| 0 <= i < pos@.len() implies #[trigger] pos@[i] < self.nqubits by {
                assert(indices@[i] < self.nqubits);
            }
        }
        self.data.data = self.evolved_data(op, &pos);
        Ok(())
    }

    /// Applies the controlled Z to two qubits. Nothing changes when one of them
    /// is out of range.
    pub fn entangle(&mut self, edge: &(usize, usize))
        requires
            edge.0 < old(self).nqubits && edge.1 < old(self).nqubits ==> old(self).wf(),
        ensures
            gate_applied(*old(self), *final(self), TwoQubitsOp::CZ, *edge),
    {
        let _ = self.evolve(&Operator::two_qubits(TwoQubitsOp::CZ), &[edge.0, edge.1]);
    }

    /// Exchanges two qubits. Nothing changes when one of them is out of range.
    pub fn swap(&mut self, edge: &(usize, usize))
        requires
            edge.0 < old(self).nqubits && edge.1 < old(self).nqubits ==> old(self).wf(),
        ensures
            gate_applied(*old(self), *final(self), TwoQubitsOp::SWAP, *edge),
    {
        let _ = self.evolve(&Operator::two_qubits(TwoQubitsOp::SWAP), &[edge.0, edge.1]);
    }

    /// Applies the controlled NOT to two qubits: the first one is flipped where
    /// the second one is 1. Nothing changes when one of them is out of range.
    pub fn cnot(&mut self, edge: &(usize, usize))
        requires
            edge.0 < old(self).nqubits && edge.1 < old(self).nqubits ==> old(self).wf(),
        ensures
            gate_applied(*old(self), *final(self), TwoQubitsOp::CX, *edge),
    {
        let _ = self.evolve(&Operator::two_qubits(TwoQubitsOp::CX), &[edge.0, edge.1]);
    }

    /// One entry of the partial trace over the given qubits.
    fn reduced_entry_at(&self, kept: &Vec<usize>, qargs: &[usize], i: usize, j: usize) -> (r: T)
        requires
            self.wf(),
            targets_fit(qargs@, self.nqubits),
            qargs@.len() <= self.nqubits,
            kept@ == remaining(self.nqubits as nat, qargs@),
        ensures
            r == reduced_entry(
                self.data.data@,
                self.nqubits as nat,
                qargs@,
                i as int,
                j as int,
            ),
    {
        let n: usize = self.nqubits;
        let ghost f = reduced_terms(self.data.data@, n as nat, qargs@, i as int, j as int);
        proof {
            assert(self.data.data.len() <= usize::MAX);
            lemma_le_square(self.size as int);
            if qargs@.len() < n {
                lemma_pow2_strictly_increases(qargs@.len(), n as nat);
            }
        }
        let count: usize = power_of_two(qargs.len());
        let mut total: T = T::zero();
        let mut t: usize = 0;
        while t < count
            invariant
                self.wf(),
                n == self.nqubits,
                self.size <= usize::MAX,
                targets_fit(qargs@, n),
                qargs@.len() <= n,
                kept@ == remaining(n as nat, qargs@),
                t <= count,
                count == pow2(qargs@.len()),
                f == reduced_terms(self.data.data@, n as nat, qargs@, i as int, j as int),
                total == sum(f, t as nat),
            decreases count - t,
        {
            let row: usize = joint_row_at(n, kept, qargs, i, t);
            let column: usize = joint_row_at(n, kept, qargs, j, t);
            proof {
                assert(self.data.data.len() <= usize::MAX);
                lemma_flat_bound(row as int, column as int, self.size as int, self.size as int);
            }
            total = total.plus(&self.data.data[row * self.size + column]);
            t = t + 1;
        }
        total
    }

    /// Replaces the matrix by its partial trace over the given qubits.
    ///
    /// A qubit that is given twice counts twice in the number of qubits that
    /// are left, so the matrix is well formed afterwards only when the qubits
    /// are distinct.
    pub fn ptrace(&mut self, qargs: &[usize]) -> (r: Result<(), &'static str>)
        requires
            targets_fit(qargs@, old(self).nqubits) ==> {
                &&& old(self).wf()
                &&& qargs@.len() <= old(self).nqubits
            },
        ensures
            !targets_fit(qargs@, old(self).nqubits) ==> {
                &&& r matches Err(e) && e@ == "Wrong qubit argument for partial trace"@
                &&& *final(self) == *old(self)
            },
            targets_fit(qargs@, old(self).nqubits) ==> {
                &&& r is Ok
                &&& final(self).nqubits == old(self).nqubits - qargs@.len()
                &&& final(self).size == pow2(final(self).nqubits as nat)
                &&& final(self).data.shape@ == reduced_shape(
                    remaining(old(self).nqubits as nat, qargs@).len(),
                )
                &&& final(self).data.data@ == reduced(
                    old(self).data.data@,
                    old(self).nqubits as nat,
                    qargs@,
                )
                &&& final(self).data.wf()
                &&& qargs@.no_duplicates() ==> final(self).wf()
            },
    {
        let n: usize = self.nqubits;
        let mut k: usize = 0;
        while k < qargs.len()
            invariant
                k <= qargs@.len(),
                *self == *old(self),
                n == self.nqubits,
                forall|i: int| 0 <= i < k ==> #[trigger] qargs@[i] < n,
            decreases qargs@.len() - k,
        {
            if qargs[k] >= n {
                return Err("Wrong qubit argument for partial trace");
            }
            k = k + 1;
        }
        let kept: Vec<usize> = kept_qubits(n, qargs);
        proof {
            lemma_remaining_bounds(n as nat, qargs@);
            lemma_exponent_fits(n as nat);
            lemma_pow2_order(kept@.len(), n as nat);
            lemma_pow2_order((n - qargs@.len()) as nat, n as nat);
            assert(self.data.data.len() <= usize::MAX);
            lemma_le_square(self.size as int);
            lemma_square_order(pow2(kept@.len()) as int, pow2(n as nat) as int);
            lemma_pow2_pos(kept@.len());
        }
        let dim: usize = power_of_two(kept.len());
        let source: &Self = self;
        let f = |k: usize| -> (x: T)
            requires
                source.wf(),
                targets_fit(qargs@, source.nqubits),
                qargs@.len() <= source.nqubits,
                kept@ == remaining(source.nqubits as nat, qargs@),
                dim > 0,
            ensures
                x == reduced_entry(
                    source.data.data@,
                    source.nqubits as nat,
                    qargs@,
                    k as int / dim as int,
                    k as int % dim as int,
                ),
            { source.reduced_entry_at(&kept, qargs, k / dim, k % dim) };
        let entries: Vec<T> = map_range(dim * dim, f);
        proof {
            let want = reduced(self.data.data@, n as nat, qargs@);
            assert forall|i: int| 0 <= i < want.len() implies entries@[i] == want[i] by {
                assert(call_ensures(f, (i as usize,), entries@[(i as usize) as int]));
            }
            assert(entries@ =~= want);
        }
        self.data.data = entries;
        self.data.shape = if kept.len() != 0 {
            filled(2usize, 2 * kept.len())
        } else {
            vec![1]
        };
        self.nqubits = n - qargs.len();
        self.size = power_of_two(self.nqubits);
        proof {
            assert(self.data.shape@ =~= reduced_shape(kept@.len()));
            lemma_reduced_shape(kept@.len());
            if qargs@.no_duplicates() {
                lemma_remaining_count(n as nat, qargs@);
            }
        }
        Ok(())
    }
}

/// The shape that a partial trace gives the entries when it leaves `k` qubits.
pub open spec fn reduced_shape(k: nat) -> Seq<usize> {
    if k == 0 {
        seq![1usize]
    } else {
        twos(2 * k)
    }
}

/// The shape of a partial trace has as many entries as the matrix.
pub proof fn lemma_reduced_shape(k: nat)
    ensures
        product(reduced_shape(k)) == pow2(k) * pow2(k),
{
    lemma_square_of_pow2(k);
    if k == 0 {
        lemma2_to64();
        let shape = seq![1usize];
        assert(shape.drop_last() =~= Seq::<usize>::empty());
        reveal_with_fuel(product, 2);
        assert(shape.last() == 1);
    } else {
        lemma_product_of_twos(2 * k);
    }
}

/// The qubits below `n` that are not among the given ones, in order.
fn kept_qubits(n: usize, qargs: &[usize]) -> (r: Vec<usize>)
    ensures
        r@ == remaining(n as nat, qargs@),
{
    broadcast use vstd::std_specs::hash::group_hash_axioms;

    let mut traced: HashSet<usize> = HashSet::new();
    let mut k: usize = 0;
    while k < qargs.len()
        invariant
            k <= qargs@.len(),
            traced@ == qargs@.take(k as int).to_set(),
        decreases qargs@.len() - k,
    {
        traced.insert(qargs[k]);
        proof {
            assert(qargs@.take(k + 1) =~= qargs@.take(k as int).push(qargs@[k as int]));
            lemma_set_of_push(qargs@.take(k as int), qargs@[k as int]);
        }
        k = k + 1;
    }
    assert(qargs@.take(k as int) =~= qargs@);
    let mut kept: Vec<usize> = Vec::new();
    let mut q: usize = 0;
    while q < n
        invariant
            q <= n,
            traced@ == qargs@.to_set(),
            kept@ == remaining(q as nat, qargs@),
        decreases n - q,
    {
        if !traced.contains(&q) {
            kept.push(q);
        }
        q = q + 1;
    }
    kept
}

/// The row of the whole matrix in which the kept qubits have the digits of `r`
/// and the traced ones those of `t`.
fn joint_row_at(n: usize, kept: &Vec<usize>, qargs: &[usize], r: usize, t: usize) -> (row: usize)
    requires
        pow2(n as nat) <= usize::MAX,
        targets_fit(qargs@, n),
        qargs@.len() <= n,
        kept@ == remaining(n as nat, qargs@),
    ensures
        row == joint_row(n as nat, qargs@, r as nat, t as nat),
        row < pow2(n as nat),
{
    proof {
        lemma_exponent_fits(n as nat);
        lemma_remaining_bounds(n as nat, qargs@);
    }
    let r_digits = bitwise_int_to_bin_vec(r, kept.len());
    let t_digits = bitwise_int_to_bin_vec(t, qargs.len());
    let mut digits: Vec<u8> = filled(0u8, n);
    let ghost blank = digits@;
    assert(blank =~= Seq::new(n as nat, |k: int| 0u8));
    let mut k: usize = 0;
    while k < kept.len()
        invariant
            k <= kept@.len(),
            kept@.len() == r_digits@.len(),
            forall|i: int| 0 <= i < kept@.len() ==> #[trigger] kept@[i] < n,
            digits@.len() == n,
            digits@ == assigned(blank, kept@.take(k as int), r_digits@),
        decreases kept@.len() - k,
    {
        proof {
            assert(kept@.take(k + 1).drop_last() =~= kept@.take(k as int));
            assert(kept@[k as int] < n);
        }
        digits.set(kept[k], r_digits[k]);
        k = k + 1;
    }
    assert(kept@.take(k as int) =~= kept@);
    let ghost half = digits@;
    let mut k: usize = 0;
    while k < qargs.len()
        invariant
            k <= qargs@.len(),
            qargs@.len() == t_digits@.len(),
            targets_fit(qargs@, n),
            digits@.len() == n,
            digits@ == assigned(half, qargs@.take(k as int), t_digits@),
        decreases qargs@.len() - k,
    {
        proof {
            assert(qargs@.take(k + 1).drop_last() =~= qargs@.take(k as int));
            assert(qargs@[k as int] < n);
        }
        digits.set(qargs[k], t_digits[k]);
        k = k + 1;
    }
    proof {
        assert(qargs@.take(k as int) =~= qargs@);
        lemma_joint_row_bound(n as nat, qargs@, r as nat, t as nat);
        assert(digits@ == joint_digits(n as nat, qargs@, r as nat, t as nat));
    }
    bitwise_bin_vec_to_int(&digits)
}

/// A set with one more element in the sequence.
proof fn lemma_set_of_push(s: Seq<usize>, x: usize)
    ensures
        s.push(x).to_set() == s.to_set().insert(x),
{
    let longer = s.push(x);
    assert forall|y: usize| longer.to_set().contains(y) == s.to_set().insert(x).contains(y) by {
        if longer.contains(y) && y != x {
            let k = choose|k: int| 0 <= k < longer.len() && longer[k] == y;
            assert(s[k] == y);
        }
        if s.contains(y) {
            let k = choose|k: int| 0 <= k < s.len() && s[k] == y;
            assert(longer[k] == y);
        }
        assert(longer[s.len() as int] == x);
    }
    assert(longer.to_set() =~= s.to_set().insert(x));
}

/// Powers of two are ordered as their exponents.
proof fn lemma_pow2_order(a: nat, b: nat)
    requires
        a <= b,
    ensures
        pow2(a) <= pow2(b),
{
    if a < b {
        lemma_pow2_strictly_increases(a, b);
    }
}

/// Squares are ordered as the numbers.
proof fn lemma_square_order(x: int, y: int)
    requires
        0 <= x <= y,
    ensures
        x * x <= y * y,
{
    assert(x * x <= y * y) by (nonlinear_arith)
        requires
            0 <= x <= y,
    ;
}

/// Whether every target is one of `n` qubits.
pub open spec fn targets_fit(targets: Seq<usize>, n: usize) -> bool {
    forall|k: int| 0 <= k < targets.len() ==> #[trigger] targets[k] < n
}

/// Whether the entries up to `count` of two matrices are equal up to the tolerance.
pub open spec fn agree<T: Scalar>(a: Seq<T>, b: Seq<T>, tol: T::Tolerance, count: nat) -> bool {
    forall|k: int| 0 <= k < count ==> #[trigger] a[k].close_spec(b[k], tol)
}

/// Whether an operator has two indices that take the values 0 and 1 at least.
pub open spec fn acts_on_digit<T>(op: &Operator<T>) -> bool {
    &&& op.data.wf()
    &&& op.data.shape@.len() == 2
    &&& op.data.shape@[0] >= 2
    &&& op.data.shape@[1] >= 2
}

/// The entries of an operator by row and column.
pub open spec fn op_entries<T>(op: &Operator<T>) -> spec_fn(int, int) -> T {
    |a: int, b: int| op.data.at(seq![a as u8, b as u8])
}

/// The message for a target that is out of range.
pub open spec fn target_error(index: nat, n: nat) -> Seq<char> {
    "Target qubit "@ + decimal(index) + " is not in the range [0-"@ + decimal(n) + "]."@
}

/// The message for a list of targets one of which is out of range.
pub open spec fn targets_error(n: nat) -> Seq<char> {
    "One or more target qubits are out of range [0-"@ + decimal(n) + "]."@
}

/// The message for an operator on another number of qubits than were given.
pub open spec fn arity_error(arity: nat, given: nat) -> Seq<char> {
    "Operator acts on "@ + decimal(arity) + " qubits, but "@ + decimal(given) + " were provided."@
}

/// Whether `after` is what a two-qubit gate makes of `before`.
pub open spec fn gate_applied<T: Scalar>(
    before: DensityMatrix<T>,
    after: DensityMatrix<T>,
    kind: TwoQubitsOp,
    edge: (usize, usize),
) -> bool {
    if edge.0 < before.nqubits && edge.1 < before.nqubits {
        &&& after.wf()
        &&& after.nqubits == before.nqubits
        &&& after.data.shape == before.data.shape
        &&& after.data.data@ == evolved(
            before.data.data@,
            before.nqubits as nat,
            gate_matrix::<T>(kind),
            seq![edge.0, edge.1],
        )
    } else {
        after == before
    }
}

/// A number other than zero is at most its square.
proof fn lemma_le_square(x: int)
    requires
        0 <= x,
    ensures
        x <= x * x,
{
    assert(x <= x * x) by (nonlinear_arith)
        requires
            0 <= x,
    ;
}

} // verus!
