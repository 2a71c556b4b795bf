//! Traces, products and normalisation.
use crate::matrix::{
    diagonal, entry, kronecker, lemma_tabulated_entry, normalized, pure_matrix, trace_of,
};
use crate::scalar::{
    lemma_no_zero_divisors, lemma_one_times, lemma_over_is_times_reciprocal, lemma_pow2_is_not_zero,
    lemma_quotient_unique, lemma_times_interchange, ExactScalar, Scalar,
};
use crate::sums::{
    lemma_div_mod_bounds, lemma_div_mod_of, lemma_flat_bound, lemma_sum_pairs, lemma_sum_same,
    lemma_sum_times, sum,
};
use vstd::arithmetic::div_mod::*;
use vstd::arithmetic::power2::*;
use vstd::prelude::*;

verus! {

/// Whether a matrix with `d` rows is its own conjugate transpose.
pub open spec fn hermitian<T: Scalar>(m: Seq<T>, d: nat) -> bool {
    forall|i: int, j: int|
        0 <= i < d && 0 <= j < d ==> #[trigger] entry(m, d, i, j) == entry(m, d, j, i).conj_spec()
}

/// The matrix with every entry multiplied by `c`.
pub open spec fn scaled<T: Scalar>(m: Seq<T>, c: T) -> Seq<T> {
    m.map_values(|x: T| x.times_spec(c))
}

/// The amplitudes of two systems together.
pub open spec fn joint_amplitudes<T: Scalar>(a: Seq<T>, b: Seq<T>) -> Seq<T> {
    Seq::new(
        a.len() * b.len(),
        |k: int| a[k / (b.len() as int)].times_spec(b[k % (b.len() as int)]),
    )
}

/// The row and the column of the entry at `k`.
pub proof fn lemma_rows(k: int, d: nat)
    requires
        0 <= k < d * d,
    ensures
        0 < d,
        0 <= k / (d as int) < d,
        0 <= k % (d as int) < d,
        k == (k / (d as int)) * d + k % (d as int),
{
    assert(0 < d) by (nonlinear_arith)
        requires
            0 < d * d,
            0 <= d,
    ;
    lemma_div_mod_bounds(k, d as int, d as int);
}

/// Matrices with the same entries are the same.
pub proof fn lemma_same_entries<T>(a: Seq<T>, b: Seq<T>, d: nat)
    requires
        a.len() == d * d,
        b.len() == d * d,
        forall|i: int, j: int|
            0 <= i < d && 0 <= j < d ==> #[trigger] entry(a, d, i, j) == entry(b, d, i, j),
    ensures
        a == b,
{
    assert forall|k: int| 0 <= k < d * d implies a[k] == b[k] by {
        lemma_rows(k, d);
        assert(entry(a, d, k / (d as int), k % (d as int)) == entry(
            b,
            d,
            k / (d as int),
            k % (d as int),
        ));
    }
    assert(a =~= b);
}

/// Reading an entry of a Kronecker product.
pub proof fn lemma_kronecker_entry<T: Scalar>(
    a: Seq<T>,
    c: nat,
    b: Seq<T>,
    d: nat,
    i: int,
    j: int,
)
    requires
        0 <= i < c * d,
        0 <= j < c * d,
    ensures
        entry(kronecker(a, c, b, d), c * d, i, j) == entry(
            a,
            c,
            i / (d as int),
            j / (d as int),
        ).times_spec(entry(b, d, i % (d as int), j % (d as int))),
{
    lemma_tabulated_entry(
        c * d,
        |i: int, j: int|
            entry(a, c, i / (d as int), j / (d as int)).times_spec(
                entry(b, d, i % (d as int), j % (d as int)),
            ),
        i,
        j,
    );
}

/// An entry that was set is read back, and the others are what they were.
pub proof fn law_get_after_set<T>(m: Seq<T>, d: nat, i: int, j: int, value: T, p: int, q: int)
    requires
        m.len() == d * d,
        0 <= i < d,
        0 <= j < d,
        0 <= p < d,
        0 <= q < d,
    ensures
        entry(m.update(i * d + j, value), d, p, q) == if p == i && q == j {
            value
        } else {
            entry(m, d, p, q)
        },
{
    lemma_flat_bound(i, j, d as int, d as int);
    lemma_flat_bound(p, q, d as int, d as int);
    lemma_div_mod_of(i, j, d as int);
    lemma_div_mod_of(p, q, d as int);
}

/// The trace of a Kronecker product is the product of the traces.
pub proof fn law_trace_of_tensor<T: ExactScalar>(a: Seq<T>, c: nat, b: Seq<T>, d: nat)
    requires
        0 < d,
    ensures
        trace_of(kronecker(a, c, b, d), c * d) == trace_of(a, c).times_spec(trace_of(b, d)),
{
    let m = kronecker(a, c, b, d);
    let f = diagonal(a, c);
    let g = diagonal(b, d);
    let h = |i: int, j: int| f(i).times_spec(g(j));
    let flat = |k: int| h(k / (d as int), k % (d as int));
    assert forall|k: int| 0 <= k < c * d implies #[trigger] diagonal(m, c * d)(k) == flat(k) by {
        lemma_kronecker_entry(a, c, b, d, k, k);
    }
    lemma_sum_same(diagonal(m, c * d), flat, c * d);
    lemma_sum_pairs(h, c, d);
    let rows = |i: int| sum(|j: int| h(i, j), d);
    let scaled = |i: int| f(i).times_spec(sum(g, d));
    assert forall|i: int| 0 <= i < c implies #[trigger] rows(i) == scaled(i) by {
        lemma_sum_times(f(i), g, d);
        lemma_sum_same(|j: int| h(i, j), |j: int| f(i).times_spec(g(j)), d);
    }
    lemma_sum_same(rows, scaled, c);
    lemma_sum_times(sum(g, d), f, c);
    lemma_sum_same(scaled, |i: int| f(i).times_spec(sum(g, d)), c);
}

/// A normalised matrix has the trace 1, unless the trace was zero.
pub proof fn law_normalized_trace<T: ExactScalar>(m: Seq<T>, d: nat)
    requires
        m.len() == d * d,
        trace_of(m, d) != T::zero_spec(),
    ensures
        trace_of(normalized(m, d), d) == T::one_spec(),
{
    let t = trace_of(m, d);
    let u = T::one_spec().over_spec(t);
    let f = diagonal(m, d);
    let g = diagonal(normalized(m, d), d);
    let h = |i: int| f(i).times_spec(u);
    assert forall|i: int| 0 <= i < d implies #[trigger] g(i) == h(i) by {
        lemma_flat_bound(i, i, d as int, d as int);
        lemma_over_is_times_reciprocal(f(i), t);
    }
    lemma_sum_same(g, h, d);
    lemma_sum_times(u, f, d);
    lemma_sum_same(h, |i: int| f(i).times_spec(u), d);
    T::over_undoes_times(T::one_spec(), t);
    T::times_commutes(t, u);
}

/// A matrix with the trace 1 is normalised already.
pub proof fn law_normalized_once<T: ExactScalar>(m: Seq<T>, d: nat)
    requires
        trace_of(m, d) == T::one_spec(),
    ensures
        normalized(m, d) == m,
{
    lemma_pow2_is_not_zero::<T>(0);
    lemma2_to64();
    T::natural_one();
    assert forall|k: int| 0 <= k < m.len() implies normalized(m, d)[k] == m[k] by {
        T::times_one(m[k]);
        lemma_quotient_unique(m[k], T::one_spec(), m[k]);
    }
    assert(normalized(m, d) =~= m);
}

/// A matrix and its multiple are the same when they are normalised, unless the
/// factor or the trace is zero.
pub proof fn law_normalized_forgets_scale<T: ExactScalar>(m: Seq<T>, d: nat, c: T)
    requires
        m.len() == d * d,
        c != T::zero_spec(),
        trace_of(m, d) != T::zero_spec(),
    ensures
        normalized(scaled(m, c), d) == normalized(m, d),
{
    let t = trace_of(m, d);
    let f = diagonal(m, d);
    let g = diagonal(scaled(m, c), d);
    let h = |i: int| f(i).times_spec(c);
    assert forall|i: int| 0 <= i < d implies #[trigger] g(i) == h(i) by {
        lemma_flat_bound(i, i, d as int, d as int);
    }
    lemma_sum_same(g, h, d);
    lemma_sum_times(c, f, d);
    lemma_sum_same(h, |i: int| f(i).times_spec(c), d);
    let tc = t.times_spec(c);
    assert(trace_of(scaled(m, c), d) == tc);
    lemma_no_zero_divisors(t, c);
    let left = normalized(scaled(m, c), d);
    let right = normalized(m, d);
    assert forall|k: int| 0 <= k < m.len() implies left[k] == right[k] by {
        let q = m[k].over_spec(t);
        T::over_undoes_times(m[k], t);
        T::times_associates(q, t, c);
        lemma_quotient_unique(m[k].times_spec(c), tc, q);
    }
    assert(left =~= right);
}

/// The matrix of a pure state is its own conjugate transpose.
pub proof fn law_pure_is_hermitian<T: ExactScalar>(amplitudes: Seq<T>)
    ensures
        hermitian(pure_matrix(amplitudes), amplitudes.len()),
{
    let d = amplitudes.len();
    let m = pure_matrix(amplitudes);
    let f = |i: int, j: int| amplitudes[i].times_spec(amplitudes[j].conj_spec());
    assert forall|i: int, j: int| 0 <= i < d && 0 <= j < d implies #[trigger] entry(m, d, i, j)
        == entry(m, d, j, i).conj_spec() by {
        lemma_tabulated_entry(d, f, i, j);
        lemma_tabulated_entry(d, f, j, i);
        let x = amplitudes[i];
        let y = amplitudes[j];
        T::conj_of_times(y, x.conj_spec());
        T::conj_involutes(x);
        T::times_commutes(x, y.conj_spec());
    }
}

/// The trace of the matrix of a pure state is the sum of the squares of the
/// absolute values of its amplitudes.
pub proof fn law_trace_of_pure<T: ExactScalar>(amplitudes: Seq<T>)
    ensures
        trace_of(pure_matrix(amplitudes), amplitudes.len()) == sum(
            |i: int| amplitudes[i].times_spec(amplitudes[i].conj_spec()),
            amplitudes.len(),
        ),
{
    let d = amplitudes.len();
    let m = pure_matrix(amplitudes);
    let f = |i: int, j: int| amplitudes[i].times_spec(amplitudes[j].conj_spec());
    let g = |i: int| amplitudes[i].times_spec(amplitudes[i].conj_spec());
    assert forall|i: int| 0 <= i < d implies #[trigger] diagonal(m, d)(i) == g(i) by {
        lemma_tabulated_entry(d, f, i, i);
    }
    lemma_sum_same(diagonal(m, d), g, d);
}

/// The product of the matrices of two pure states is the matrix of the pure
/// state of both systems together.
pub proof fn law_tensor_of_pure<T: ExactScalar>(a: Seq<T>, b: Seq<T>)
    requires
        0 < b.len(),
    ensures
        kronecker(pure_matrix(a), a.len(), pure_matrix(b), b.len()) == pure_matrix(
            joint_amplitudes(a, b),
        ),
{
    let c = a.len();
    let d = b.len();
    let v = joint_amplitudes(a, b);
    let left = kronecker(pure_matrix(a), c, pure_matrix(b), d);
    let right = pure_matrix(v);
    let fa = |i: int, j: int| a[i].times_spec(a[j].conj_spec());
    let fb = |i: int, j: int| b[i].times_spec(b[j].conj_spec());
    let fv = |i: int, j: int| v[i].times_spec(v[j].conj_spec());
    assert forall|i: int, j: int| 0 <= i < c * d && 0 <= j < c * d implies #[trigger] entry(
        left,
        c * d,
        i,
        j,
    ) == entry(right, c * d, i, j) by {
        let n = d as int;
        lemma_kronecker_entry(pure_matrix(a), c, pure_matrix(b), d, i, j);
        lemma_div_mod_bounds(i, c as int, n);
        lemma_div_mod_bounds(j, c as int, n);
        lemma_tabulated_entry(c, fa, i / n, j / n);
        lemma_tabulated_entry(d, fb, i % n, j % n);
        lemma_tabulated_entry(c * d, fv, i, j);
        T::conj_of_times(a[j / n], b[j % n]);
        lemma_times_interchange(
            a[i / n],
            a[j / n].conj_spec(),
            b[i % n],
            b[j % n].conj_spec(),
        );
    }
    lemma_same_entries(left, right, c * d);
}

/// Products of matrices that are their own conjugate transposes are, too.
pub proof fn law_tensor_is_hermitian<T: ExactScalar>(a: Seq<T>, c: nat, b: Seq<T>, d: nat)
    requires
        hermitian(a, c),
        hermitian(b, d),
        0 < d,
    ensures
        hermitian(kronecker(a, c, b, d), c * d),
{
    let m = kronecker(a, c, b, d);
    let n = d as int;
    assert forall|i: int, j: int| 0 <= i < c * d && 0 <= j < c * d implies #[trigger] entry(
        m,
        c * d,
        i,
        j,
    ) == entry(m, c * d, j, i).conj_spec() by {
        lemma_kronecker_entry(a, c, b, d, i, j);
        lemma_kronecker_entry(a, c, b, d, j, i);
        lemma_div_mod_bounds(i, c as int, n);
        lemma_div_mod_bounds(j, c as int, n);
        assert(entry(a, c, i / n, j / n) == entry(a, c, j / n, i / n).conj_spec());
        assert(entry(b, d, i % n, j % n) == entry(b, d, j % n, i % n).conj_spec());
        T::conj_of_times(entry(a, c, j / n, i / n), entry(b, d, j % n, i % n));
    }
}

/// The Kronecker product is associative.
pub proof fn law_tensor_associates<T: ExactScalar>(
    a: Seq<T>,
    c: nat,
    b: Seq<T>,
    d: nat,
    x: Seq<T>,
    e: nat,
)
    requires
        0 < c,
        0 < d,
        0 < e,
    ensures
        kronecker(kronecker(a, c, b, d), c * d, x, e) == kronecker(
            a,
            c,
            kronecker(b, d, x, e),
            d * e,
        ),
{
    let ab = kronecker(a, c, b, d);
    let bx = kronecker(b, d, x, e);
    let left = kronecker(ab, c * d, x, e);
    let right = kronecker(a, c, bx, d * e);
    assert(c * d * e == c * (d * e)) by (nonlinear_arith);
    assert(0 < d * e && 0 < c * d) by (nonlinear_arith)
        requires
            0 < c,
            0 < d,
            0 < e,
    ;
    let big = c * d * e;
    assert forall|i: int, j: int| 0 <= i < big && 0 <= j < big implies #[trigger] entry(
        left,
        big,
        i,
        j,
    ) == entry(right, big, i, j) by {
        lemma_kronecker_entry(ab, c * d, x, e, i, j);
        lemma_kronecker_entry(a, c, bx, d * e, i, j);
        let n = e as int;
        let w = (d * e) as int;
        lemma_div_mod_bounds(i, (c * d) as int, n);
        lemma_div_mod_bounds(j, (c * d) as int, n);
        lemma_div_mod_bounds(i, c as int, w);
        lemma_div_mod_bounds(j, c as int, w);
        lemma_kronecker_entry(a, c, b, d, i / n, j / n);
        lemma_kronecker_entry(b, d, x, e, i % w, j % w);
        lemma_nested_digits(i, d as int, e as int);
        lemma_nested_digits(j, d as int, e as int);
        T::times_associates(
            entry(a, c, i / w, j / w),
            entry(b, d, (i % w) / n, (j % w) / n),
            entry(x, e, i % n, j % n),
        );
    }
    lemma_same_entries(left, right, big);
}

/// The matrix on no qubit with the entry 1 is neutral for the Kronecker product.
pub proof fn law_tensor_with_nothing<T: ExactScalar>(a: Seq<T>, c: nat)
    requires
        a.len() == c * c,
    ensures
        kronecker(a, c, seq![T::one_spec()], 1) == a,
        kronecker(seq![T::one_spec()], 1, a, c) == a,
{
    let one = seq![T::one_spec()];
    let left = kronecker(a, c, one, 1);
    let right = kronecker(one, 1, a, c);
    assert(c * 1 == c && 1 * c == c) by (nonlinear_arith);
    assert forall|i: int, j: int| 0 <= i < c && 0 <= j < c implies #[trigger] entry(left, c, i, j)
        == entry(a, c, i, j) by {
        lemma_kronecker_entry(a, c, one, 1, i, j);
        assert(i / 1 == i && j / 1 == j && i % 1 == 0 && j % 1 == 0);
        T::times_one(entry(a, c, i, j));
    }
    lemma_same_entries(left, a, c);
    assert forall|i: int, j: int| 0 <= i < c && 0 <= j < c implies #[trigger] entry(right, c, i, j)
        == entry(a, c, i, j) by {
        lemma_kronecker_entry(one, 1, a, c, i, j);
        lemma_div_mod_of(0, i, c as int);
        lemma_div_mod_of(0, j, c as int);
        assert(0 * (c as int) == 0) by (nonlinear_arith);
        lemma_one_times(entry(a, c, i, j));
    }
    lemma_same_entries(right, a, c);
}

/// Splitting a number by `d * e` and then by `e`, or the other way round.
pub proof fn lemma_nested_digits(k: int, d: int, e: int)
    requires
        0 <= k,
        0 < d,
        0 < e,
    ensures
        (k / e) / d == k / (d * e),
        (k / e) % d == (k % (d * e)) / e,
        k % e == (k % (d * e)) % e,
{
    assert(d * e == e * d) by (nonlinear_arith);
    lemma_div_denominator(k, e, d);
    lemma_mod_breakdown(k, e, d);
    lemma_fundamental_div_mod(k, e);
    lemma_mod_bound(k, e);
    let r = k % (d * e);
    assert(r == e * ((k / e) % d) + k % e);
    assert(r == ((k / e) % d) * e + k % e) by (nonlinear_arith)
        requires
            r == e * ((k / e) % d) + k % e,
    ;
    lemma_div_mod_of((k / e) % d, k % e, e);
}

} // verus!
