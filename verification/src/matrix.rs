//! What the operations on density matrices compute, entry by entry.
//!
//! A matrix with `2^n` rows is the sequence of its entries in row-major order.
//! The binary digits of a row number, the most significant first, are the
//! values of the qubits `0`, ..., `n - 1`.
use crate::binary::{
    all_binary, from_binary, lemma_binary_digits, lemma_to_from_binary, ones, to_binary,
};
use crate::bits::{bit, clear_bit};
use crate::density_matrix::State;
use crate::positions::{gather, inserted};
use crate::scalar::Scalar;
use crate::sums::{lemma_div_mod_of, lemma_flat_bound, sum};
use vstd::arithmetic::power2::*;
use vstd::prelude::*;

verus! {

/// The square matrix with `d` rows whose entries are given by `f`.
pub open spec fn tabulated<T>(d: nat, f: spec_fn(int, int) -> T) -> Seq<T> {
    Seq::new(d * d, |k: int| f(k / (d as int), k % (d as int)))
}

/// The entry in row `i` and column `j` of a matrix with `d` columns.
pub open spec fn entry<T>(m: Seq<T>, d: nat, i: int, j: int) -> T {
    m[i * d + j]
}

/// The entry in row `i` and column `j` of a starting state.
pub open spec fn state_entry<T: Scalar>(s: State, n: nat, i: int, j: int) -> T {
    let share = T::one_spec().over_spec(T::natural_spec(pow2(n)));
    match s {
        State::ZERO => if i == 0 && j == 0 {
            T::one_spec()
        } else {
            T::zero_spec()
        },
        State::ONE => if i == pow2(n) - 1 && j == pow2(n) - 1 {
            T::one_spec()
        } else {
            T::zero_spec()
        },
        State::PLUS => share,
        State::MINUS => share.times_spec(
            if (ones(i as nat) + ones(j as nat)) % 2 == 0 {
                T::one_spec()
            } else {
                T::one_spec().negated_spec()
            },
        ),
    }
}

/// The matrix of a starting state on `n` qubits.
pub open spec fn state_matrix<T: Scalar>(s: State, n: nat) -> Seq<T> {
    tabulated(pow2(n), |i: int, j: int| state_entry(s, n, i, j))
}

/// The matrix of the pure state with the given amplitudes.
pub open spec fn pure_matrix<T: Scalar>(amplitudes: Seq<T>) -> Seq<T> {
    tabulated(
        amplitudes.len(),
        |i: int, j: int| amplitudes[i].times_spec(amplitudes[j].conj_spec()),
    )
}

/// The entries on the diagonal.
pub open spec fn diagonal<T>(m: Seq<T>, d: nat) -> spec_fn(int) -> T {
    |i: int| entry(m, d, i, i)
}

/// The sum of the diagonal entries.
pub open spec fn trace_of<T: Scalar>(m: Seq<T>, d: nat) -> T {
    sum(diagonal(m, d), d)
}

/// Every entry divided by the trace.
pub open spec fn normalized<T: Scalar>(m: Seq<T>, d: nat) -> Seq<T> {
    m.map_values(|c: T| c.over_spec(trace_of(m, d)))
}

/// The positions, counted from the least significant digit, of the given
/// qubits among `n`.
pub open spec fn positions_of(n: nat, targets: Seq<usize>) -> Seq<usize> {
    targets.map_values(|q: usize| (n - q - 1) as usize)
}

/// One term of an entry of `U m U^*`: an entry of `m` that agrees with the row
/// `i` and the column `j` outside the given positions and has the digits of `p`
/// and `q` there, between the entries of `U` that lead to it.
pub open spec fn evolved_term<T: Scalar>(
    m: Seq<T>,
    n: nat,
    u: Seq<T>,
    pos: Seq<usize>,
    i: int,
    j: int,
    p: int,
    q: int,
) -> T {
    let d = pow2(pos.len());
    entry(u, d, gather(i as nat, pos) as int, p).times_spec(
        entry(
            m,
            pow2(n),
            inserted(i as nat, pos, p as nat) as int,
            inserted(j as nat, pos, q as nat) as int,
        ),
    ).times_spec(entry(u, d, gather(j as nat, pos) as int, q).conj_spec())
}

/// All the terms of an entry of `U m U^*`, in the order in which they are added.
pub open spec fn evolved_terms<T: Scalar>(
    m: Seq<T>,
    n: nat,
    u: Seq<T>,
    pos: Seq<usize>,
    i: int,
    j: int,
) -> spec_fn(int) -> T {
    let d = pow2(pos.len()) as int;
    |k: int| evolved_term(m, n, u, pos, i, j, k / d, k % d)
}

/// The entry in row `i` and column `j` of `U m U^*`, where `U` acts on the
/// digits at the given positions, the first of them its least significant.
pub open spec fn evolved_entry<T: Scalar>(
    m: Seq<T>,
    n: nat,
    u: Seq<T>,
    pos: Seq<usize>,
    i: int,
    j: int,
) -> T {
    sum(evolved_terms(m, n, u, pos, i, j), pow2(pos.len()) * pow2(pos.len()))
}

/// The matrix `U m U^*`, where `U` acts on the digits at the given positions.
pub open spec fn evolved_at<T: Scalar>(m: Seq<T>, n: nat, u: Seq<T>, pos: Seq<usize>) -> Seq<T> {
    tabulated(pow2(n), |i: int, j: int| evolved_entry(m, n, u, pos, i, j))
}

/// The matrix `U m U^*`, where `U` acts on the given qubits, the first of them
/// its least significant.
pub open spec fn evolved<T: Scalar>(m: Seq<T>, n: nat, u: Seq<T>, targets: Seq<usize>) -> Seq<T> {
    evolved_at(m, n, u, positions_of(n, targets))
}

/// The Kronecker product of a matrix with `c` rows and one with `d` rows.
pub open spec fn kronecker<T: Scalar>(a: Seq<T>, c: nat, b: Seq<T>, d: nat) -> Seq<T> {
    tabulated(
        c * d,
        |i: int, j: int|
            entry(a, c, i / (d as int), j / (d as int)).times_spec(
                entry(b, d, i % (d as int), j % (d as int)),
            ),
    )
}

/// The qubits below `n` that are not among the given ones, in order.
pub open spec fn remaining(n: nat, traced: Seq<usize>) -> Seq<usize>
    decreases n,
{
    if n == 0 {
        seq![]
    } else {
        let rest = remaining((n - 1) as nat, traced);
        if traced.contains((n - 1) as usize) {
            rest
        } else {
            rest.push((n - 1) as usize)
        }
    }
}

/// The digits with `values[k]` put at the place `places[k]`, the last value
/// counting where a place occurs twice.
pub open spec fn assigned(digits: Seq<u8>, places: Seq<usize>, values: Seq<u8>) -> Seq<u8>
    decreases places.len(),
{
    if places.len() == 0 {
        digits
    } else {
        assigned(digits, places.drop_last(), values).update(
            places.last() as int,
            values[places.len() - 1],
        )
    }
}

/// The row of the whole matrix in which the remaining qubits have the digits
/// of `r` and the traced ones those of `t`.
pub open spec fn joint_digits(n: nat, traced: Seq<usize>, r: nat, t: nat) -> Seq<u8> {
    let kept = remaining(n, traced);
    assigned(
        assigned(Seq::new(n, |k: int| 0u8), kept, to_binary(r, kept.len())),
        traced,
        to_binary(t, traced.len()),
    )
}

/// The number of that row.
pub open spec fn joint_row(n: nat, traced: Seq<usize>, r: nat, t: nat) -> nat {
    from_binary(joint_digits(n, traced, r, t))
}

/// The entries of the whole matrix that an entry of the partial trace adds up.
pub open spec fn reduced_terms<T>(
    m: Seq<T>,
    n: nat,
    traced: Seq<usize>,
    i: int,
    j: int,
) -> spec_fn(int) -> T {
    |t: int|
        entry(
            m,
            pow2(n),
            joint_row(n, traced, i as nat, t as nat) as int,
            joint_row(n, traced, j as nat, t as nat) as int,
        )
}

/// The entry in row `i` and column `j` of the partial trace.
pub open spec fn reduced_entry<T: Scalar>(
    m: Seq<T>,
    n: nat,
    traced: Seq<usize>,
    i: int,
    j: int,
) -> T {
    sum(reduced_terms(m, n, traced, i, j), pow2(traced.len()))
}

/// The partial trace of a matrix on `n` qubits over the given ones.
pub open spec fn reduced<T: Scalar>(m: Seq<T>, n: nat, traced: Seq<usize>) -> Seq<T> {
    tabulated(
        pow2(remaining(n, traced).len()),
        |i: int, j: int| reduced_entry(m, n, traced, i, j),
    )
}

/// One term of the trace of the matrix times the operator `op` on the digit at
/// the position `pos`: the entry `k` times the operator's entry in the row that
/// the digit of the column gives and the column that the digit of the row gives;
/// zero unless row and column of the entry `k` agree elsewhere.
pub open spec fn expectation_term<T: Scalar>(
    m: Seq<T>,
    n: nat,
    op: spec_fn(int, int) -> T,
    pos: nat,
    k: int,
) -> T {
    let i = (k / (pow2(n) as int)) as nat;
    let j = (k % (pow2(n) as int)) as nat;
    if clear_bit(i, pos) == clear_bit(j, pos) {
        m[k].times_spec(op(bit(j, pos) as int, bit(i, pos) as int))
    } else {
        T::zero_spec()
    }
}

/// All the terms of the expectation value of `op` on the digit at `pos`.
pub open spec fn expectation_terms<T: Scalar>(
    m: Seq<T>,
    n: nat,
    op: spec_fn(int, int) -> T,
    pos: nat,
) -> spec_fn(int) -> T {
    |k: int| expectation_term(m, n, op, pos, k)
}

/// The square of a power of two.
pub proof fn lemma_square_of_pow2(n: nat)
    ensures
        pow2(n) * pow2(n) == pow2(2 * n),
        0 < pow2(n),
{
    lemma_pow2_adds(n, n);
    lemma_pow2_pos(n);
}

/// Reading an entry of a tabulated matrix.
pub proof fn lemma_tabulated_entry<T>(d: nat, f: spec_fn(int, int) -> T, i: int, j: int)
    requires
        0 <= i < d,
        0 <= j < d,
    ensures
        entry(tabulated(d, f), d, i, j) == f(i, j),
        0 <= i * d + j < d * d,
{
    lemma_flat_bound(i, j, d as int, d as int);
    lemma_div_mod_of(i, j, d as int);
}

/// The remaining qubits are below `n`, and at most `n` of them.
pub proof fn lemma_remaining_bounds(n: nat, traced: Seq<usize>)
    requires
        n <= usize::MAX,
    ensures
        remaining(n, traced).len() <= n,
        forall|k: int|
            0 <= k < remaining(n, traced).len() ==> #[trigger] remaining(n, traced)[k] < n,
    decreases n,
{
    if n > 0 {
        lemma_remaining_bounds((n - 1) as nat, traced);
    }
}

/// Distinct qubits that are traced out leave as many as there are others.
pub proof fn lemma_remaining_count(n: nat, traced: Seq<usize>)
    requires
        n <= usize::MAX,
        traced.no_duplicates(),
        forall|k: int| 0 <= k < traced.len() ==> #[trigger] traced[k] < n,
    ensures
        remaining(n, traced).len() == n - traced.len(),
    decreases n,
{
    if n == 0 {
        if traced.len() > 0 {
            assert(traced[0] < n);
        }
    } else {
        let m = (n - 1) as nat;
        if traced.contains(m as usize) {
            let k = traced.index_of(m as usize);
            let rest = traced.remove(k);
            assert(traced[k] == m);
            assert forall|j: int| 0 <= j < rest.len() implies #[trigger] rest[j] < m by {
                let i = if j < k {
                    j
                } else {
                    j + 1
                };
                assert(rest[j] == traced[i]);
                assert(traced[i] < n);
            }
            assert(rest.no_duplicates()) by {
                assert forall|i: int, j: int|
                    0 <= i < rest.len() && 0 <= j < rest.len() && i != j implies rest[i]
                    != rest[j] by {
                    let a = if i < k {
                        i
                    } else {
                        i + 1
                    };
                    let b = if j < k {
                        j
                    } else {
                        j + 1
                    };
                    assert(rest[i] == traced[a] && rest[j] == traced[b]);
                }
            }
            lemma_remaining_count(m, rest);
            assert forall|q: usize| q < m implies rest.contains(q) == traced.contains(q) by {
                if traced.contains(q) {
                    let i = traced.index_of(q);
                    let j = if i < k {
                        i
                    } else {
                        i - 1
                    };
                    assert(rest[j] == q);
                }
                if rest.contains(q) {
                    let j = rest.index_of(q);
                    let i = if j < k {
                        j
                    } else {
                        j + 1
                    };
                    assert(traced[i] == q);
                }
            }
            lemma_remaining_same(m, traced, rest);
        } else {
            assert forall|k: int| 0 <= k < traced.len() implies #[trigger] traced[k] < m by {
                assert(traced[k] < n);
                assert(traced.contains(traced[k]));
            }
            lemma_remaining_count(m, traced);
        }
    }
}

/// The remaining qubits depend on which qubits are traced out alone.
pub proof fn lemma_remaining_same(n: nat, a: Seq<usize>, b: Seq<usize>)
    requires
        n <= usize::MAX,
        forall|q: usize| q < n ==> a.contains(q) == b.contains(q),
    ensures
        remaining(n, a) == remaining(n, b),
    decreases n,
{
    if n > 0 {
        lemma_remaining_same((n - 1) as nat, a, b);
        assert(a.contains((n - 1) as usize) == b.contains((n - 1) as usize));
    }
}

/// Putting digits at places keeps the number of digits, and keeps them binary.
pub proof fn lemma_assigned_binary(digits: Seq<u8>, places: Seq<usize>, values: Seq<u8>)
    requires
        all_binary(digits),
        all_binary(values),
        places.len() <= values.len(),
        forall|k: int| 0 <= k < places.len() ==> #[trigger] places[k] < digits.len(),
    ensures
        assigned(digits, places, values).len() == digits.len(),
        all_binary(assigned(digits, places, values)),
    decreases places.len(),
{
    if places.len() > 0 {
        let init = places.drop_last();
        assert forall|k: int| 0 <= k < init.len() implies #[trigger] init[k] < digits.len() by {
            assert(places[k] < digits.len());
        }
        lemma_assigned_binary(digits, init, values);
        assert(values[places.len() - 1] <= 1);
        assert(places[places.len() - 1] < digits.len());
    }
}

/// The digits of a row are binary, and its number is below `2^n`.
pub proof fn lemma_joint_row_bound(n: nat, traced: Seq<usize>, r: nat, t: nat)
    requires
        n <= usize::MAX,
        forall|k: int| 0 <= k < traced.len() ==> #[trigger] traced[k] < n,
    ensures
        joint_digits(n, traced, r, t).len() == n,
        all_binary(joint_digits(n, traced, r, t)),
        joint_row(n, traced, r, t) < pow2(n),
{
    let kept = remaining(n, traced);
    let blank = Seq::new(n, |k: int| 0u8);
    lemma_remaining_bounds(n, traced);
    lemma_binary_digits(r, kept.len());
    lemma_binary_digits(t, traced.len());
    lemma_assigned_binary(blank, kept, to_binary(r, kept.len()));
    lemma_assigned_binary(
        assigned(blank, kept, to_binary(r, kept.len())),
        traced,
        to_binary(t, traced.len()),
    );
    lemma_to_from_binary(joint_digits(n, traced, r, t));
}

} // verus!
