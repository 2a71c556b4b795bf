//! The partial trace.
use crate::binary::{from_binary, lemma_from_to_binary, lemma_to_from_binary, to_binary};
use crate::bits::{exponent, lemma_exponent_of_pow2};
use crate::density_matrix::{lemma_reduced_shape, reduced_shape};
use crate::laws::algebra::{hermitian, lemma_kronecker_entry, lemma_same_entries, scaled};
use crate::laws::evolution::all_below;
use crate::matrix::{
    assigned, diagonal, entry, joint_digits, joint_row, kronecker, lemma_joint_row_bound,
    lemma_remaining_bounds, lemma_remaining_count, lemma_square_of_pow2, lemma_tabulated_entry,
    reduced, reduced_entry, reduced_terms, remaining, trace_of,
};
use crate::scalar::{lemma_zero_plus, ExactScalar, Scalar};
use crate::sums::{
    lemma_div_mod_bounds, lemma_div_mod_of, lemma_flat_bound, lemma_sum_conj, lemma_sum_pairs,
    lemma_sum_permuted, lemma_sum_same, lemma_sum_times, permutes, sum,
};
use crate::tensor::{lemma_twos_fit, product, product_fits};
use vstd::arithmetic::power2::*;
use vstd::prelude::*;

verus! {

/// The qubits `from`, ..., `to - 1`.
pub open spec fn qubit_range(from: nat, to: nat) -> Seq<usize> {
    Seq::new((to - from) as nat, |k: int| (from + k) as usize)
}

/// A qubit is among the remaining ones if it is not traced out.
pub proof fn lemma_remaining_contains(n: nat, traced: Seq<usize>, q: usize)
    requires
        n <= usize::MAX,
    ensures
        remaining(n, traced).contains(q) == (q < n && !traced.contains(q)),
    decreases n,
{
    if n > 0 {
        let m = (n - 1) as nat;
        let rest = remaining(m, traced);
        lemma_remaining_contains(m, traced, q);
        if !traced.contains(m as usize) {
            let all = rest.push(m as usize);
            if rest.contains(q) {
                let k = rest.index_of(q);
                assert(all[k] == q);
            }
            assert(all[rest.len() as int] == m);
            if all.contains(q) && q != m {
                let k = all.index_of(q);
                assert(rest[k] == q);
            }
        }
    }
}

/// No qubit remains twice.
pub proof fn lemma_remaining_distinct(n: nat, traced: Seq<usize>)
    requires
        n <= usize::MAX,
    ensures
        remaining(n, traced).no_duplicates(),
    decreases n,
{
    if n > 0 {
        let m = (n - 1) as nat;
        lemma_remaining_distinct(m, traced);
        lemma_remaining_bounds(m, traced);
    }
}

/// The digit at a place that is listed once, or not at all.
proof fn lemma_assigned_at(digits: Seq<u8>, places: Seq<usize>, values: Seq<u8>, q: int)
    requires
        places.no_duplicates(),
        all_below(places, digits.len()),
        0 <= q < digits.len(),
    ensures
        assigned(digits, places, values).len() == digits.len(),
        forall|k: int|
            0 <= k < places.len() && #[trigger] places[k] == q ==> assigned(
                digits,
                places,
                values,
            )[q] == values[k],
        !places.contains(q as usize) ==> assigned(digits, places, values)[q] == digits[q],
    decreases places.len(),
{
    if places.len() > 0 {
        let init = places.drop_last();
        let last = places.len() - 1;
        assert forall|k: int| 0 <= k < init.len() implies #[trigger] init[k] < digits.len() by {
            assert(places[k] < digits.len());
        }
        lemma_assigned_at(digits, init, values, q);
        assert(places[last] < digits.len());
        assert forall|k: int| 0 <= k < places.len() && #[trigger] places[k] == q implies assigned(
            digits,
            places,
            values,
        )[q] == values[k] by {
            if k < last {
                assert(init[k] == q);
                assert(places[k] != places[last]);
            }
        }
        if !places.contains(q as usize) {
            assert(places[last] != q);
            if init.contains(q as usize) {
                let k = init.index_of(q as usize);
                assert(places[k] == q);
            }
        }
    }
}

/// The digits of a row of the whole matrix.
pub proof fn lemma_joint_digit(n: nat, traced: Seq<usize>, r: nat, t: nat)
    requires
        n <= usize::MAX,
        traced.no_duplicates(),
        all_below(traced, n),
    ensures
        ({
            let kept = remaining(n, traced);
            let digits = joint_digits(n, traced, r, t);
            &&& digits.len() == n
            &&& forall|k: int|
                0 <= k < kept.len() ==> digits[#[trigger] kept[k] as int] == to_binary(
                    r,
                    kept.len(),
                )[k]
            &&& forall|k: int|
                0 <= k < traced.len() ==> digits[#[trigger] traced[k] as int] == to_binary(
                    t,
                    traced.len(),
                )[k]
        }),
{
    let kept = remaining(n, traced);
    let blank = Seq::new(n, |k: int| 0u8);
    let rb = to_binary(r, kept.len());
    let tb = to_binary(t, traced.len());
    let half = assigned(blank, kept, rb);
    let digits = joint_digits(n, traced, r, t);
    lemma_remaining_bounds(n, traced);
    lemma_remaining_distinct(n, traced);
    if n > 0 {
        lemma_assigned_at(blank, kept, rb, 0);
        lemma_assigned_at(half, traced, tb, 0);
    } else {
        lemma_joint_row_bound(n, traced, r, t);
    }
    assert forall|k: int| 0 <= k < kept.len() implies digits[#[trigger] kept[k] as int]
        == rb[k] by {
        let q = kept[k] as int;
        lemma_assigned_at(blank, kept, rb, q);
        lemma_assigned_at(half, traced, tb, q);
        lemma_remaining_contains(n, traced, kept[k]);
        assert(kept.contains(kept[k]));
    }
    assert forall|k: int| 0 <= k < traced.len() implies digits[#[trigger] traced[k] as int]
        == tb[k] by {
        assert(traced[k] < n);
        lemma_assigned_at(half, traced, tb, traced[k] as int);
    }
}

/// The row of the whole matrix that stands at `k` when the rows are listed by the
/// remaining qubits first and the traced ones second.
pub open spec fn listed_row(n: nat, traced: Seq<usize>) -> spec_fn(int) -> int {
    let w = pow2(traced.len()) as int;
    |k: int| joint_row(n, traced, (k / w) as nat, (k % w) as nat) as int
}

/// Every row of the whole matrix is listed once.
pub proof fn lemma_listed_rows_permute(n: nat, traced: Seq<usize>)
    requires
        n <= usize::MAX,
        traced.no_duplicates(),
        all_below(traced, n),
    ensures
        pow2(remaining(n, traced).len()) * pow2(traced.len()) == pow2(n),
        permutes(listed_row(n, traced), pow2(n)),
{
    let kept = remaining(n, traced);
    let s = listed_row(n, traced);
    let w = pow2(traced.len()) as int;
    let d = pow2(kept.len()) as int;
    lemma_remaining_count(n, traced);
    lemma_pow2_adds(kept.len(), traced.len());
    lemma_pow2_pos(traced.len());
    assert forall|k: int| 0 <= k < pow2(n) implies 0 <= #[trigger] s(k) < pow2(n) by {
        lemma_joint_row_bound(n, traced, (k / w) as nat, (k % w) as nat);
    }
    assert forall|a: int, b: int|
        0 <= a < pow2(n) && 0 <= b < pow2(n) && #[trigger] s(a) == #[trigger] s(b) implies a
        == b by {
        lemma_div_mod_bounds(a, d, w);
        lemma_div_mod_bounds(b, d, w);
        lemma_joint_row_injective(
            n,
            traced,
            (a / w) as nat,
            (a % w) as nat,
            (b / w) as nat,
            (b % w) as nat,
        );
    }
}

/// Different values of the qubits are in different rows.
proof fn lemma_joint_row_injective(
    n: nat,
    traced: Seq<usize>,
    r1: nat,
    t1: nat,
    r2: nat,
    t2: nat,
)
    requires
        n <= usize::MAX,
        traced.no_duplicates(),
        all_below(traced, n),
        r1 < pow2(remaining(n, traced).len()),
        r2 < pow2(remaining(n, traced).len()),
        t1 < pow2(traced.len()),
        t2 < pow2(traced.len()),
        joint_row(n, traced, r1, t1) == joint_row(n, traced, r2, t2),
    ensures
        r1 == r2,
        t1 == t2,
{
    let kept = remaining(n, traced);
    lemma_joint_row_bound(n, traced, r1, t1);
    lemma_joint_row_bound(n, traced, r2, t2);
    lemma_to_from_binary(joint_digits(n, traced, r1, t1));
    lemma_to_from_binary(joint_digits(n, traced, r2, t2));
    let digits = joint_digits(n, traced, r1, t1);
    assert(digits == joint_digits(n, traced, r2, t2));
    lemma_joint_digit(n, traced, r1, t1);
    lemma_joint_digit(n, traced, r2, t2);
    let a = to_binary(r1, kept.len());
    let b = to_binary(r2, kept.len());
    assert forall|k: int| 0 <= k < kept.len() implies a[k] == b[k] by {
        assert(digits[kept[k] as int] == a[k]);
    }
    assert(a =~= b);
    lemma_from_to_binary(r1, kept.len());
    lemma_from_to_binary(r2, kept.len());
    let c = to_binary(t1, traced.len());
    let d = to_binary(t2, traced.len());
    assert forall|k: int| 0 <= k < traced.len() implies c[k] == d[k] by {
        assert(digits[traced[k] as int] == c[k]);
    }
    assert(c =~= d);
    lemma_from_to_binary(t1, traced.len());
    lemma_from_to_binary(t2, traced.len());
}

/// Reading an entry of a partial trace.
pub proof fn lemma_reduced_entry<T: Scalar>(
    m: Seq<T>,
    n: nat,
    traced: Seq<usize>,
    i: int,
    j: int,
)
    requires
        0 <= i < pow2(remaining(n, traced).len()),
        0 <= j < pow2(remaining(n, traced).len()),
    ensures
        entry(reduced(m, n, traced), pow2(remaining(n, traced).len()), i, j) == reduced_entry(
            m,
            n,
            traced,
            i,
            j,
        ),
{
    lemma_tabulated_entry(
        pow2(remaining(n, traced).len()),
        |i: int, j: int| reduced_entry(m, n, traced, i, j),
        i,
        j,
    );
}

/// The partial trace over distinct qubits keeps the trace.
pub proof fn law_ptrace_keeps_trace<T: ExactScalar>(m: Seq<T>, n: nat, traced: Seq<usize>)
    requires
        n <= usize::MAX,
        traced.no_duplicates(),
        all_below(traced, n),
    ensures
        trace_of(reduced(m, n, traced), pow2((n - traced.len()) as nat)) == trace_of(m, pow2(n)),
{
    let kept = remaining(n, traced);
    lemma_remaining_count(n, traced);
    let d = pow2(kept.len());
    let w = pow2(traced.len());
    let left = reduced(m, n, traced);
    let f = diagonal(m, pow2(n));
    let h = |r: int, t: int| f(joint_row(n, traced, r as nat, t as nat) as int);
    let rows = |r: int| sum(|t: int| h(r, t), w);
    lemma_pow2_pos(traced.len());
    assert forall|r: int| 0 <= r < d implies #[trigger] diagonal(left, d)(r) == rows(r) by {
        lemma_reduced_entry(m, n, traced, r, r);
        lemma_sum_same(reduced_terms(m, n, traced, r, r), |t: int| h(r, t), w);
    }
    lemma_sum_same(diagonal(left, d), rows, d);
    lemma_sum_pairs(h, d, w);
    lemma_listed_rows_permute(n, traced);
    let s = listed_row(n, traced);
    let flat = |k: int| h(k / (w as int), k % (w as int));
    lemma_sum_same(flat, |k: int| f(s(k)), d * w);
    lemma_sum_permuted(f, s, pow2(n));
}

/// The shape of a partial trace is one that a density matrix can be made from
/// again, on as many qubits as are left.
pub proof fn law_ptrace_shape_is_accepted(k: nat)
    requires
        pow2(2 * k) <= usize::MAX,
    ensures
        product_fits(reduced_shape(k)),
        exponent(product(reduced_shape(k))) == Some(2 * k),
{
    lemma_reduced_shape(k);
    lemma_square_of_pow2(k);
    lemma_exponent_of_pow2(2 * k);
    if k == 0 {
        let shape = seq![1usize];
        assert forall|i: int| 0 <= i <= 1 implies #[trigger] product(shape.take(i))
            <= usize::MAX by {
            if i == 1 {
                assert(shape.take(i) =~= shape);
            }
        }
    } else {
        lemma_twos_fit(2 * k);
    }
}

/// The partial trace over all qubits is the trace.
pub proof fn law_ptrace_of_everything<T: ExactScalar>(m: Seq<T>, n: nat, traced: Seq<usize>)
    requires
        n <= usize::MAX,
        traced.no_duplicates(),
        all_below(traced, n),
        traced.len() == n,
    ensures
        reduced(m, n, traced) == seq![trace_of(m, pow2(n))],
{
    law_ptrace_keeps_trace(m, n, traced);
    lemma_remaining_count(n, traced);
    lemma2_to64();
    let left = reduced(m, n, traced);
    reveal_with_fuel(sum, 2);
    lemma_zero_plus(left[0]);
    assert(diagonal(left, 1)(0) == left[0]);
    assert(remaining(n, traced).len() == 0);
    assert(left.len() == 1) by (nonlinear_arith)
        requires
            left.len() == pow2(0) * pow2(0),
            pow2(0) == 1,
    ;
    assert(left =~= seq![left[0]]);
}

/// The partial trace over no qubit changes nothing.
pub proof fn law_ptrace_of_nothing<T: ExactScalar>(m: Seq<T>, n: nat)
    requires
        n <= usize::MAX,
        m.len() == pow2(n) * pow2(n),
    ensures
        reduced(m, n, Seq::<usize>::empty()) == m,
{
    let none = Seq::<usize>::empty();
    let kept = remaining(n, none);
    lemma_remaining_range(n, n, none);
    lemma2_to64();
    let left = reduced(m, n, none);
    let size = pow2(n);
    assert forall|i: int, j: int| 0 <= i < size && 0 <= j < size implies #[trigger] entry(
        left,
        size,
        i,
        j,
    ) == entry(m, size, i, j) by {
        lemma_reduced_entry(m, n, none, i, j);
        lemma_joint_row_of_nothing(n, i as nat);
        lemma_joint_row_of_nothing(n, j as nat);
        reveal_with_fuel(sum, 2);
        lemma_zero_plus(entry(m, size, i, j));
        assert(reduced_terms(m, n, none, i, j)(0) == entry(m, size, i, j));
    }
    lemma_same_entries(left, m, size);
}

/// The first qubits remain when none of them is traced out.
proof fn lemma_remaining_range(k: nat, n: nat, traced: Seq<usize>)
    requires
        k <= n <= usize::MAX,
        forall|q: usize| q < k ==> !traced.contains(q),
        forall|q: usize| k <= q < n ==> traced.contains(q),
    ensures
        remaining(n, traced) == qubit_range(0, k),
    decreases n,
{
    if n > 0 {
        let m = (n - 1) as nat;
        if k == n {
            lemma_remaining_range(m, m, traced);
            assert(remaining(n, traced) =~= qubit_range(0, k));
        } else {
            lemma_remaining_range(k, m, traced);
        }
    } else {
        assert(remaining(n, traced) =~= qubit_range(0, k));
    }
}

/// The last qubits remain when the first ones are traced out.
proof fn lemma_remaining_tail(k: nat, n: nat, traced: Seq<usize>)
    requires
        k <= n <= usize::MAX,
        forall|q: usize| q < k ==> traced.contains(q),
        forall|q: usize| k <= q < n ==> !traced.contains(q),
    ensures
        remaining(n, traced) == qubit_range(k, n),
    decreases n,
{
    if n > 0 {
        let m = (n - 1) as nat;
        if k == n {
            lemma_remaining_tail(m, m, traced);
            assert(remaining(n, traced) =~= qubit_range(k, n));
        } else {
            lemma_remaining_tail(k, m, traced);
            assert(remaining(n, traced) =~= qubit_range(k, n));
        }
    } else {
        assert(remaining(n, traced) =~= qubit_range(k, n));
    }
}

/// With no qubit traced out, the rows are those of the matrix.
proof fn lemma_joint_row_of_nothing(n: nat, r: nat)
    requires
        n <= usize::MAX,
        r < pow2(n),
    ensures
        joint_row(n, Seq::<usize>::empty(), r, 0) == r,
{
    let none = Seq::<usize>::empty();
    lemma_remaining_range(n, n, none);
    lemma_joint_digit(n, none, r, 0);
    let kept = remaining(n, none);
    let digits = joint_digits(n, none, r, 0);
    assert forall|k: int| 0 <= k < n implies digits[k] == to_binary(r, n)[k] by {
        assert(kept[k] == k);
    }
    assert(digits =~= to_binary(r, n));
    lemma_from_to_binary(r, n);
}

/// The partial trace keeps a matrix its own conjugate transpose.
pub proof fn law_ptrace_is_hermitian<T: ExactScalar>(m: Seq<T>, n: nat, traced: Seq<usize>)
    requires
        n <= usize::MAX,
        all_below(traced, n),
        hermitian(m, pow2(n)),
    ensures
        hermitian(reduced(m, n, traced), pow2(remaining(n, traced).len())),
{
    let d = pow2(remaining(n, traced).len());
    let w = pow2(traced.len());
    let left = reduced(m, n, traced);
    assert forall|i: int, j: int| 0 <= i < d && 0 <= j < d implies #[trigger] entry(left, d, i, j)
        == entry(left, d, j, i).conj_spec() by {
        lemma_reduced_entry(m, n, traced, i, j);
        lemma_reduced_entry(m, n, traced, j, i);
        let f = reduced_terms(m, n, traced, i, j);
        let g = reduced_terms(m, n, traced, j, i);
        lemma_sum_conj(g, w);
        let gc = |t: int| g(t).conj_spec();
        assert forall|t: int| 0 <= t < w implies #[trigger] f(t) == gc(t) by {
            let a = joint_row(n, traced, i as nat, t as nat) as int;
            let b = joint_row(n, traced, j as nat, t as nat) as int;
            lemma_joint_row_bound(n, traced, i as nat, t as nat);
            lemma_joint_row_bound(n, traced, j as nat, t as nat);
            assert(entry(m, pow2(n), a, b) == entry(m, pow2(n), b, a).conj_spec());
        }
        lemma_sum_same(f, gc, w);
    }
}

/// The number that two strings of digits stand for together.
pub proof fn lemma_from_binary_concat(a: Seq<u8>, b: Seq<u8>)
    ensures
        from_binary(a + b) == from_binary(a) * pow2(b.len()) + from_binary(b),
    decreases b.len(),
{
    if b.len() == 0 {
        lemma2_to64();
        assert(a + b =~= a);
    } else {
        let init = b.drop_last();
        assert((a + b).drop_last() =~= a + init);
        lemma_from_binary_concat(a, init);
        lemma_pow2_unfold(b.len());
        let x = from_binary(a);
        let p = pow2(init.len());
        assert(2 * (x * p) == x * (2 * p)) by (nonlinear_arith);
    }
}

/// With the last qubits traced out, the remaining ones are the high digits.
proof fn lemma_joint_row_high(na: nat, nb: nat, r: nat, t: nat)
    requires
        na + nb <= usize::MAX,
        r < pow2(na),
        t < pow2(nb),
    ensures
        remaining(na + nb, qubit_range(na, na + nb)) == qubit_range(0, na),
        joint_row(na + nb, qubit_range(na, na + nb), r, t) == r * pow2(nb) + t,
{
    let n = na + nb;
    let traced = qubit_range(na, n);
    lemma_range_contains(na, n);
    lemma_remaining_range(na, n, traced);
    lemma_joint_digit(n, traced, r, t);
    let kept = remaining(n, traced);
    let digits = joint_digits(n, traced, r, t);
    let a = to_binary(r, na);
    let b = to_binary(t, nb);
    assert forall|k: int| 0 <= k < n implies digits[k] == (a + b)[k] by {
        if k < na {
            assert(kept[k] == k);
        } else {
            assert(traced[k - na] == k);
        }
    }
    assert(digits =~= a + b);
    lemma_from_binary_concat(a, b);
    lemma_from_to_binary(r, na);
    lemma_from_to_binary(t, nb);
}

/// With the first qubits traced out, the remaining ones are the low digits.
proof fn lemma_joint_row_low(na: nat, nb: nat, r: nat, t: nat)
    requires
        na + nb <= usize::MAX,
        r < pow2(nb),
        t < pow2(na),
    ensures
        remaining(na + nb, qubit_range(0, na)) == qubit_range(na, na + nb),
        joint_row(na + nb, qubit_range(0, na), r, t) == t * pow2(nb) + r,
{
    let n = na + nb;
    let traced = qubit_range(0, na);
    lemma_range_contains(0, na);
    lemma_remaining_tail(na, n, traced);
    lemma_joint_digit(n, traced, r, t);
    let kept = remaining(n, traced);
    let digits = joint_digits(n, traced, r, t);
    let a = to_binary(t, na);
    let b = to_binary(r, nb);
    assert forall|k: int| 0 <= k < n implies digits[k] == (a + b)[k] by {
        if k < na {
            assert(traced[k] == k);
        } else {
            assert(kept[k - na] == k);
        }
    }
    assert(digits =~= a + b);
    lemma_from_binary_concat(a, b);
    lemma_from_to_binary(t, na);
    lemma_from_to_binary(r, nb);
}

/// A range holds its numbers, each once.
proof fn lemma_range_contains(from: nat, to: nat)
    requires
        from <= to <= usize::MAX,
    ensures
        forall|q: usize| #[trigger] qubit_range(from, to).contains(q) == (from <= q < to),
        qubit_range(from, to).no_duplicates(),
        forall|k: int|
            0 <= k < qubit_range(from, to).len() ==> #[trigger] qubit_range(from, to)[k] < to,
{
    let s = qubit_range(from, to);
    assert forall|q: usize| #[trigger] s.contains(q) == (from <= q < to) by {
        if from <= q < to {
            assert(s[q - from] == q);
        }
    }
}

/// Tracing out the qubits that were appended gives the matrix back, multiplied
/// by the trace of the appended one.
pub proof fn law_ptrace_undoes_tensor<T: ExactScalar>(a: Seq<T>, na: nat, b: Seq<T>, nb: nat)
    requires
        na + nb <= usize::MAX,
        a.len() == pow2(na) * pow2(na),
    ensures
        reduced(kronecker(a, pow2(na), b, pow2(nb)), na + nb, qubit_range(na, na + nb)) == scaled(
            a,
            trace_of(b, pow2(nb)),
        ),
{
    let n = na + nb;
    let traced = qubit_range(na, n);
    let m = kronecker(a, pow2(na), b, pow2(nb));
    let left = reduced(m, n, traced);
    let c = trace_of(b, pow2(nb));
    let right = scaled(a, c);
    let d = pow2(na);
    let w = pow2(nb);
    lemma_pow2_adds(na, nb);
    lemma_pow2_pos(na);
    lemma_pow2_pos(nb);
    lemma_joint_row_high(na, nb, 0, 0);
    assert forall|i: int, j: int| 0 <= i < d && 0 <= j < d implies #[trigger] entry(left, d, i, j)
        == entry(right, d, i, j) by {
        lemma_reduced_entry(m, n, traced, i, j);
        let x = entry(a, d, i, j);
        let f = reduced_terms(m, n, traced, i, j);
        let g = diagonal(b, w);
        let h = |t: int| x.times_spec(g(t));
        assert forall|t: int| 0 <= t < w implies #[trigger] f(t) == h(t) by {
            lemma_joint_row_high(na, nb, i as nat, t as nat);
            lemma_joint_row_high(na, nb, j as nat, t as nat);
            lemma_flat_bound(i, t, d as int, w as int);
            lemma_flat_bound(j, t, d as int, w as int);
            lemma_kronecker_entry(a, d, b, w, i * w + t, j * w + t);
            lemma_div_mod_of(i, t, w as int);
            lemma_div_mod_of(j, t, w as int);
        }
        lemma_sum_same(f, h, w);
        lemma_sum_times(x, g, w);
        lemma_sum_same(h, |t: int| x.times_spec(g(t)), w);
        lemma_flat_bound(i, j, d as int, d as int);
    }
    lemma_same_entries(left, right, d);
}

/// Tracing out the qubits that were there first leaves the appended matrix,
/// multiplied by the trace of the first one.
pub proof fn law_ptrace_keeps_appended<T: ExactScalar>(a: Seq<T>, na: nat, b: Seq<T>, nb: nat)
    requires
        na + nb <= usize::MAX,
        b.len() == pow2(nb) * pow2(nb),
    ensures
        reduced(kronecker(a, pow2(na), b, pow2(nb)), na + nb, qubit_range(0, na)) == scaled(
            b,
            trace_of(a, pow2(na)),
        ),
{
    let n = na + nb;
    let traced = qubit_range(0, na);
    let m = kronecker(a, pow2(na), b, pow2(nb));
    let left = reduced(m, n, traced);
    let c = trace_of(a, pow2(na));
    let right = scaled(b, c);
    let d = pow2(nb);
    let w = pow2(na);
    lemma_pow2_adds(na, nb);
    lemma_pow2_pos(na);
    lemma_pow2_pos(nb);
    lemma_joint_row_low(na, nb, 0, 0);
    assert forall|i: int, j: int| 0 <= i < d && 0 <= j < d implies #[trigger] entry(left, d, i, j)
        == entry(right, d, i, j) by {
        lemma_reduced_entry(m, n, traced, i, j);
        let x = entry(b, d, i, j);
        let f = reduced_terms(m, n, traced, i, j);
        let g = diagonal(a, w);
        let h = |t: int| g(t).times_spec(x);
        assert forall|t: int| 0 <= t < w implies #[trigger] f(t) == h(t) by {
            lemma_joint_row_low(na, nb, i as nat, t as nat);
            lemma_joint_row_low(na, nb, j as nat, t as nat);
            lemma_flat_bound(t, i, w as int, d as int);
            lemma_flat_bound(t, j, w as int, d as int);
            lemma_kronecker_entry(a, w, b, d, t * d + i, t * d + j);
            lemma_div_mod_of(t, i, d as int);
            lemma_div_mod_of(t, j, d as int);
        }
        lemma_sum_same(f, h, w);
        lemma_sum_times(x, g, w);
        lemma_sum_same(h, |t: int| g(t).times_spec(x), w);
        T::times_commutes(x, c);
        lemma_flat_bound(i, j, d as int, d as int);
    }
    lemma_same_entries(left, right, d);
}

} // verus!
