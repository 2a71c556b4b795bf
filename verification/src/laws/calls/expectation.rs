//! Expectation values.
use crate::bits::{bit, clear_bit, lemma_bits_determine, lemma_clear_bit};
use crate::density_matrix::{op_entries, DensityMatrix};
use crate::laws::algebra::lemma_rows;
use crate::laws::calls::{lemma_value_of, value_of, whole};
use crate::matrix::expectation_terms;
use crate::operators::Operator;
use crate::scalar::{ExactScalar, Scalar};
use crate::sums::{is_some_sum, lemma_some_sum_is_sum, lemma_some_sum_same, lemma_sum_pairs, sum};
use crate::tensor::{flat, product};
use vstd::arithmetic::power2::*;
use vstd::prelude::*;

verus! {

/// Whether all qubits but one have the same values in `i` and in `j`.
pub open spec fn agree_but(n: nat, index: usize, i: int, j: int) -> bool {
    forall|q: int|
        0 <= q < n && q != index ==> #[trigger] value_of(n, q, i) == value_of(n, q, j)
}

/// Rows that agree but for one digit are the same without it.
proof fn lemma_agree_but(n: nat, index: usize, i: int, j: int)
    requires
        index < n,
        0 <= i < pow2(n),
        0 <= j < pow2(n),
    ensures
        agree_but(n, index, i, j) == (clear_bit(i as nat, (n - index - 1) as nat) == clear_bit(
            j as nat,
            (n - index - 1) as nat,
        )),
{
    let p = (n - index - 1) as nat;
    let x = clear_bit(i as nat, p);
    let y = clear_bit(j as nat, p);
    lemma_clear_bit(i as nat, p, 0);
    lemma_clear_bit(j as nat, p, 0);
    if agree_but(n, index, i, j) {
        assert forall|k: nat| k < n implies bit(x, k) == bit(y, k) by {
            let q = n - 1 - k;
            lemma_clear_bit(i as nat, p, k);
            lemma_clear_bit(j as nat, p, k);
            lemma_value_of(n, q, i);
            lemma_value_of(n, q, j);
            if k != p {
                assert(value_of(n, q, i) == value_of(n, q, j));
            }
        }
        lemma_bits_determine(x, y, n);
    }
    if x == y {
        assert forall|q: int| 0 <= q < n && q != index implies #[trigger] value_of(n, q, i)
            == value_of(n, q, j) by {
            let k = (n - 1 - q) as nat;
            lemma_clear_bit(i as nat, p, k);
            lemma_clear_bit(j as nat, p, k);
            lemma_value_of(n, q, i);
            lemma_value_of(n, q, j);
        }
    }
}

/// An entry of an operator with two indices.
proof fn lemma_op_entry<T>(op: &Operator<T>, a: int, b: int)
    requires
        op.data.shape@.len() == 2,
        0 <= a < 2,
        0 <= b < 2,
    ensures
        op_entries(op)(a, b) == op.data.data@[a * op.data.shape@[1] + b],
{
    let shape = op.data.shape@;
    let indices = seq![a as u8, b as u8];
    let s = shape.drop_last();
    let i = indices.drop_last();
    assert(s.drop_last().len() == 0 && i.drop_last().len() == 0);
    reveal_with_fuel(flat, 3);
    assert(flat(s.drop_last(), i.drop_last()) == 0);
    assert(i.last() == a as u8 && indices.last() == b as u8 && shape.last() == shape[1]);
    assert(0 * (s.last() as nat) == 0) by (nonlinear_arith);
    assert(flat(s, i) == a);
    assert(flat(shape, indices) == a * shape[1] + b);
}

/// What `expectation_single` adds up: for every entry whose row and column agree in all
/// qubits but the one, the entry times the operator's entry in the row that the qubit's
/// value in the column gives and in the column that its value in the row gives. Entries
/// whose row and column do not agree count as zero.
pub proof fn law_expectation_terms<T: Scalar>(
    m: &DensityMatrix<T>,
    op: &Operator<T>,
    index: usize,
    r: Result<T, &'static str>,
    f: spec_fn(int, int) -> T,
)
    requires
        whole(*m),
        index < m.nqubits,
        op.data.shape@.len() == 2,
        call_ensures(DensityMatrix::<T>::expectation_single, (m, op, index), r),
        forall|i: int, j: int|
            0 <= i < m.size && 0 <= j < m.size ==> #[trigger] f(i, j) == if agree_but(
                m.nqubits as nat,
                index,
                i,
                j,
            ) {
                m.data.data@[i * m.size + j].times_spec(
                    op.data.data@[value_of(m.nqubits as nat, index as int, j) * op.data.shape@[1]
                        + value_of(m.nqubits as nat, index as int, i)],
                )
            } else {
                T::zero_spec()
            },
    ensures
        r is Ok,
        is_some_sum(
            |k: int| f(k / (m.size as int), k % (m.size as int)),
            (m.size * m.size) as nat,
            r->Ok_0,
        ),
{
    let n = m.nqubits as nat;
    let size = m.size as nat;
    let p = (n - index - 1) as nat;
    let terms = expectation_terms(m.data.data@, n, op_entries(op), p);
    let flat = |k: int| f(k / (m.size as int), k % (m.size as int));
    assert forall|k: int| 0 <= k < size * size implies #[trigger] terms(k) == flat(k) by {
        lemma_rows(k, size);
        let i = k / (size as int);
        let j = k % (size as int);
        lemma_agree_but(n, index, i, j);
        lemma_value_of(n, index as int, i);
        lemma_value_of(n, index as int, j);
        lemma_op_entry(op, value_of(n, index as int, j), value_of(n, index as int, i));
        assert(f(i, j) == flat(k));
    }
    lemma_some_sum_same(terms, flat, size * size, r->Ok_0);
}

/// Without rounding, the expectation value is the sum of these terms over all rows and
/// columns.
pub proof fn law_expectation_adds<T: ExactScalar>(
    m: &DensityMatrix<T>,
    op: &Operator<T>,
    index: usize,
    r: Result<T, &'static str>,
    f: spec_fn(int, int) -> T,
)
    requires
        whole(*m),
        index < m.nqubits,
        op.data.shape@.len() == 2,
        call_ensures(DensityMatrix::<T>::expectation_single, (m, op, index), r),
        forall|i: int, j: int|
            0 <= i < m.size && 0 <= j < m.size ==> #[trigger] f(i, j) == if agree_but(
                m.nqubits as nat,
                index,
                i,
                j,
            ) {
                m.data.data@[i * m.size + j].times_spec(
                    op.data.data@[value_of(m.nqubits as nat, index as int, j) * op.data.shape@[1]
                        + value_of(m.nqubits as nat, index as int, i)],
                )
            } else {
                T::zero_spec()
            },
    ensures
        r is Ok,
        r->Ok_0 == sum(|i: int| sum(|j: int| f(i, j), m.size as nat), m.size as nat),
{
    law_expectation_terms(m, op, index, r, f);
    let size = m.size as nat;
    lemma_pow2_pos(m.nqubits as nat);
    lemma_some_sum_is_sum(
        |k: int| f(k / (m.size as int), k % (m.size as int)),
        (m.size * m.size) as nat,
        r->Ok_0,
    );
    lemma_sum_pairs(f, size, size);
}

/// `expectation_single` refuses a qubit exactly if it is not there.
pub proof fn law_expectation_refuses<T: Scalar>(
    m: &DensityMatrix<T>,
    op: &Operator<T>,
    index: usize,
    r: Result<T, &'static str>,
)
    requires
        call_ensures(DensityMatrix::<T>::expectation_single, (m, op, index), r),
    ensures
        r is Err == (index >= m.nqubits),
        r matches Err(e) ==> e@ == "Index out of range"@,
        index >= m.nqubits || (whole(*m) && op.data.shape@ == seq![2usize, 2] && op.data.data@.len()
            == 4) ==> call_requires(DensityMatrix::<T>::expectation_single, (m, op, index)),
{
    if op.data.shape@ == seq![2usize, 2] {
        let shape = op.data.shape@;
        assert(shape.drop_last().drop_last().len() == 0);
        reveal_with_fuel(product, 3);
        assert(shape.last() == 2 && shape.drop_last().last() == 2);
        assert(product(shape) == 4);
    }
}

} // verus!
