//! Expectation values.
use crate::bits::{bit, clear_bit, lemma_bit_step, lemma_bits_determine, lemma_clear_bit};
use crate::laws::algebra::lemma_rows;
use crate::laws::evolution::{identity_entry, lemma_product_entry, matrix_product};
use crate::laws::linear::{dot, lemma_dot_pick};
use crate::matrix::{diagonal, entry, expectation_terms, lemma_tabulated_entry, tabulated, trace_of};
use crate::positions::{inserted, lemma_inserted_bits, lemma_inserted_bound, listed, marked};
use crate::scalar::{lemma_times_zero, ExactScalar, Scalar};
use crate::sums::{
    is_some_sum, lemma_some_sum_is_sum, lemma_sum_exchange, lemma_sum_pairs, lemma_sum_same,
    lemma_sum_single, lemma_sum_zero, sum,
};
use vstd::arithmetic::power2::*;
use vstd::prelude::*;

verus! {

/// The row `i` with the digit at the position `pos` replaced by `b`.
pub open spec fn with_digit(i: int, pos: usize, b: int) -> int {
    inserted(i as nat, seq![pos], b as nat) as int
}

/// The row `i` of the matrix at the two columns that agree with `i` but for the
/// digit at `pos`.
pub open spec fn near_row<T>(m: Seq<T>, n: nat, pos: usize, i: int) -> spec_fn(int) -> T {
    |b: int| entry(m, pow2(n), i, with_digit(i, pos, b))
}

/// The column of an operator that belongs to the digit of `i` at `pos`.
pub open spec fn digit_column<T>(
    op: spec_fn(int, int) -> T,
    pos: usize,
    i: int,
) -> spec_fn(int) -> T {
    |b: int| op(b, bit(i as nat, pos as nat) as int)
}

/// The digits of a row with one digit replaced.
proof fn lemma_with_digit(n: nat, pos: usize, i: int, b: int)
    requires
        pos < n,
        0 <= i < pow2(n),
        0 <= b < 2,
    ensures
        0 <= with_digit(i, pos, b) < pow2(n),
        bit(with_digit(i, pos, b) as nat, pos as nat) == b,
        clear_bit(with_digit(i, pos, b) as nat, pos as nat) == clear_bit(i as nat, pos as nat),
{
    let s = seq![pos];
    let p = pos as nat;
    let x = i as nat;
    let y = inserted(x, s, b as nat);
    lemma_inserted_bound(x, s, b as nat, n);
    lemma2_to64();
    lemma_bit_step(b as nat, 0);
    lemma_inserted_bits(x, s, b as nat, p);
    assert(s[0] == p);
    assert(listed(s, p));
    assert(marked(s, b as nat, p) == (b == 1));
    lemma_clear_bit(x, p, 0);
    lemma_clear_bit(y, p, 0);
    let cx = clear_bit(x, p);
    let cy = clear_bit(y, p);
    assert forall|k: nat| k < n implies bit(cy, k) == bit(cx, k) by {
        lemma_clear_bit(x, p, k);
        lemma_clear_bit(y, p, k);
        lemma_inserted_bits(x, s, b as nat, k);
        if k != p {
            assert(!listed(s, k));
            assert(!marked(s, b as nat, k));
        }
    }
    lemma_bits_determine(cy, cx, n);
}

/// A column that agrees with the row `i` outside a digit is the row with that
/// digit replaced.
proof fn lemma_only_near(n: nat, pos: usize, i: int, j: int)
    requires
        pos < n,
        0 <= i < pow2(n),
        0 <= j < pow2(n),
        clear_bit(i as nat, pos as nat) == clear_bit(j as nat, pos as nat),
    ensures
        j == with_digit(i, pos, bit(j as nat, pos as nat) as int),
{
    let p = pos as nat;
    let b = bit(j as nat, p);
    lemma_bit_step(j as nat, p);
    lemma_with_digit(n, pos, i, b as int);
    let y = with_digit(i, pos, b as int) as nat;
    assert forall|k: nat| k < n implies bit(y, k) == bit(j as nat, k) by {
        lemma_clear_bit(y, p, k);
        lemma_clear_bit(j as nat, p, k);
    }
    lemma_bits_determine(y, j as nat, n);
}

/// Without rounding, the expectation value adds up, for every row, the two
/// entries whose column differs from the row in the one digit at most, each
/// times the operator's entry in the row of the column's digit and the column of
/// the row's digit.
pub proof fn law_expectation_value<T: ExactScalar>(
    m: Seq<T>,
    n: nat,
    op: spec_fn(int, int) -> T,
    pos: usize,
    total: T,
)
    requires
        pos < n,
        is_some_sum(expectation_terms(m, n, op, pos as nat), pow2(n) * pow2(n), total),
    ensures
        total == sum(|i: int| dot(near_row(m, n, pos, i), digit_column(op, pos, i), 2), pow2(n)),
{
    let size = pow2(n);
    let terms = expectation_terms(m, n, op, pos as nat);
    lemma_some_sum_is_sum(terms, size * size, total);
    lemma_pow2_pos(n);
    let f = |i: int, j: int|
        if clear_bit(i as nat, pos as nat) == clear_bit(j as nat, pos as nat) {
            entry(m, size, i, j).times_spec(
                op(bit(j as nat, pos as nat) as int, bit(i as nat, pos as nat) as int),
            )
        } else {
            T::zero_spec()
        };
    let flat = |k: int| f(k / (size as int), k % (size as int));
    assert forall|k: int| 0 <= k < size * size implies #[trigger] terms(k) == flat(k) by {
        lemma_rows(k, size);
    }
    lemma_sum_same(terms, flat, size * size);
    lemma_sum_pairs(f, size, size);
    let rows = |i: int| sum(|j: int| f(i, j), size);
    let dots = |i: int| dot(near_row(m, n, pos, i), digit_column(op, pos, i), 2);
    assert forall|i: int| 0 <= i < size implies #[trigger] rows(i) == dots(i) by {
        lemma_row_of_two(m, n, op, pos, i, |j: int| f(i, j));
    }
    lemma_sum_same(rows, dots, size);
}

/// One row of the expectation value has two terms.
proof fn lemma_row_of_two<T: ExactScalar>(
    m: Seq<T>,
    n: nat,
    op: spec_fn(int, int) -> T,
    pos: usize,
    i: int,
    f: spec_fn(int) -> T,
)
    requires
        pos < n,
        0 <= i < pow2(n),
        forall|j: int|
            0 <= j < pow2(n) ==> #[trigger] f(j) == if clear_bit(i as nat, pos as nat)
                == clear_bit(j as nat, pos as nat) {
                entry(m, pow2(n), i, j).times_spec(
                    op(bit(j as nat, pos as nat) as int, bit(i as nat, pos as nat) as int),
                )
            } else {
                T::zero_spec()
            },
    ensures
        sum(f, pow2(n)) == dot(near_row(m, n, pos, i), digit_column(op, pos, i), 2),
{
    let size = pow2(n);
    // Each term is counted for the digit that its column has.
    let h = |j: int, b: int|
        if j == with_digit(i, pos, b) {
            f(j)
        } else {
            T::zero_spec()
        };
    let rows = |j: int| sum(|b: int| h(j, b), 2);
    assert forall|j: int| 0 <= j < size implies #[trigger] f(j) == rows(j) by {
        let g = |b: int| h(j, b);
        lemma_bit_step(j as nat, pos as nat);
        let b = bit(j as nat, pos as nat) as int;
        lemma_with_digit(n, pos, i, 0);
        lemma_with_digit(n, pos, i, 1);
        if clear_bit(i as nat, pos as nat) == clear_bit(j as nat, pos as nat) {
            lemma_only_near(n, pos, i, j);
            lemma_sum_single(g, 2, b);
        } else {
            lemma_sum_zero(g, 2);
        }
    }
    lemma_sum_same(f, rows, size);
    lemma_sum_exchange(h, size, 2);
    let columns = |b: int| sum(|j: int| h(j, b), size);
    let x = near_row(m, n, pos, i);
    let y = digit_column(op, pos, i);
    let products = |b: int| x(b).times_spec(y(b));
    assert forall|b: int| 0 <= b < 2 implies #[trigger] columns(b) == products(b) by {
        lemma_with_digit(n, pos, i, b);
        let j = with_digit(i, pos, b);
        let g = |j: int| h(j, b);
        lemma_sum_single(g, size, j);
        assert(f(j) == products(b));
    }
    lemma_sum_same(columns, products, 2);
}

/// The expectation value of the identity is the trace.
pub proof fn law_expectation_of_identity<T: ExactScalar>(
    m: Seq<T>,
    n: nat,
    op: spec_fn(int, int) -> T,
    pos: usize,
    total: T,
)
    requires
        pos < n,
        forall|a: int, b: int|
            0 <= a < 2 && 0 <= b < 2 ==> #[trigger] op(a, b) == identity_entry::<T>(a, b),
        is_some_sum(expectation_terms(m, n, op, pos as nat), pow2(n) * pow2(n), total),
    ensures
        total == trace_of(m, pow2(n)),
{
    let size = pow2(n);
    law_expectation_value(m, n, op, pos, total);
    let dots = |i: int| dot(near_row(m, n, pos, i), digit_column(op, pos, i), 2);
    assert forall|i: int| 0 <= i < size implies #[trigger] dots(i) == diagonal(m, size)(i) by {
        let x = near_row(m, n, pos, i);
        let y = digit_column(op, pos, i);
        let b = bit(i as nat, pos as nat) as int;
        lemma_bit_step(i as nat, pos as nat);
        lemma_dot_pick(y, x, 2, b);
        lemma_only_near(n, pos, i, i);
    }
    lemma_sum_same(dots, diagonal(m, size), size);
}

/// The matrix on `n` qubits of an operator on the digit at `pos`: its entries are
/// the operator's where row and column agree elsewhere, and zero where they do not.
pub open spec fn on_digit<T: Scalar>(
    op: spec_fn(int, int) -> T,
    n: nat,
    pos: usize,
) -> Seq<T> {
    tabulated(pow2(n), |i: int, j: int| on_digit_entry(op, pos, i, j))
}

/// The entry in row `i` and column `j` of that matrix.
pub open spec fn on_digit_entry<T: Scalar>(
    op: spec_fn(int, int) -> T,
    pos: usize,
    i: int,
    j: int,
) -> T {
    if clear_bit(i as nat, pos as nat) == clear_bit(j as nat, pos as nat) {
        op(bit(i as nat, pos as nat) as int, bit(j as nat, pos as nat) as int)
    } else {
        T::zero_spec()
    }
}

/// Without rounding, the expectation value is the trace of the matrix times the
/// operator.
pub proof fn law_expectation_is_trace<T: ExactScalar>(
    m: Seq<T>,
    n: nat,
    op: spec_fn(int, int) -> T,
    pos: usize,
    total: T,
)
    requires
        pos < n,
        is_some_sum(expectation_terms(m, n, op, pos as nat), pow2(n) * pow2(n), total),
    ensures
        total == trace_of(matrix_product(m, on_digit(op, n, pos), pow2(n)), pow2(n)),
{
    let d = pow2(n);
    let u = on_digit(op, n, pos);
    let terms = expectation_terms(m, n, op, pos as nat);
    lemma_some_sum_is_sum(terms, d * d, total);
    lemma_pow2_pos(n);
    let f = |i: int, j: int| entry(m, d, i, j).times_spec(entry(u, d, j, i));
    let flat = |k: int| f(k / (d as int), k % (d as int));
    assert forall|k: int| 0 <= k < d * d implies #[trigger] terms(k) == flat(k) by {
        lemma_rows(k, d);
        lemma_tabulated_entry(
            d,
            |i: int, j: int| on_digit_entry(op, pos, i, j),
            k % (d as int),
            k / (d as int),
        );
        lemma_times_zero(m[k]);
    }
    lemma_sum_same(terms, flat, d * d);
    lemma_sum_pairs(f, d, d);
    let rows = |i: int| sum(|j: int| f(i, j), d);
    let mu = matrix_product(m, u, d);
    assert forall|i: int| 0 <= i < d implies #[trigger] diagonal(mu, d)(i) == rows(i) by {
        lemma_product_entry(m, u, d, i, i);
        lemma_sum_same(
            |j: int| (|k: int| entry(m, d, i, k))(j).times_spec((|k: int| entry(u, d, k, i))(j)),
            |j: int| f(i, j),
            d,
        );
    }
    lemma_sum_same(diagonal(mu, d), rows, d);
}

} // verus!
