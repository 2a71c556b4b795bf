//! Sums of products, as they occur in products of matrices.
use crate::scalar::{lemma_one_times, lemma_times_zero, ExactScalar, Scalar};
use crate::sums::{
    lemma_sum_conj, lemma_sum_exchange, lemma_sum_same, lemma_sum_single, lemma_sum_times, sum,
};
use vstd::prelude::*;

verus! {

/// The sum of the products of two rows of `n` numbers.
pub open spec fn dot<T: Scalar>(f: spec_fn(int) -> T, g: spec_fn(int) -> T, n: nat) -> T {
    sum(|k: int| f(k).times_spec(g(k)), n)
}

/// The row `a` of a matrix.
pub open spec fn row<T>(x: spec_fn(int, int) -> T, a: int) -> spec_fn(int) -> T {
    |b: int| x(a, b)
}

/// The column `b` of a matrix.
pub open spec fn column<T>(x: spec_fn(int, int) -> T, b: int) -> spec_fn(int) -> T {
    |a: int| x(a, b)
}

/// The matrix times a column of `n` numbers.
pub open spec fn applied<T: Scalar>(
    x: spec_fn(int, int) -> T,
    z: spec_fn(int) -> T,
    n: nat,
) -> spec_fn(int) -> T {
    |a: int| dot(row(x, a), z, n)
}

/// A row of `n` numbers times the matrix.
pub open spec fn passed<T: Scalar>(
    f: spec_fn(int) -> T,
    x: spec_fn(int, int) -> T,
    n: nat,
) -> spec_fn(int) -> T {
    |b: int| dot(f, column(x, b), n)
}

/// A row times a matrix times a column.
pub open spec fn sandwich<T: Scalar>(
    f: spec_fn(int) -> T,
    x: spec_fn(int, int) -> T,
    z: spec_fn(int) -> T,
    n: nat,
) -> T {
    dot(f, applied(x, z, n), n)
}

/// The products of the same numbers have the same sum.
pub proof fn lemma_dot_same<T: Scalar>(
    f: spec_fn(int) -> T,
    g: spec_fn(int) -> T,
    p: spec_fn(int) -> T,
    q: spec_fn(int) -> T,
    n: nat,
)
    requires
        forall|k: int| 0 <= k < n ==> #[trigger] f(k) == p(k),
        forall|k: int| 0 <= k < n ==> #[trigger] g(k) == q(k),
    ensures
        dot(f, g, n) == dot(p, q, n),
{
    assert forall|k: int| 0 <= k < n implies (#[trigger] f(k)).times_spec(g(k)) == p(k).times_spec(
        q(k),
    ) by {
        assert(g(k) == q(k));
    }
    lemma_sum_same(|k: int| f(k).times_spec(g(k)), |k: int| p(k).times_spec(q(k)), n);
}

/// The order of the factors does not matter.
pub proof fn lemma_dot_commutes<T: ExactScalar>(f: spec_fn(int) -> T, g: spec_fn(int) -> T, n: nat)
    ensures
        dot(f, g, n) == dot(g, f, n),
{
    let fg = |k: int| f(k).times_spec(g(k));
    let gf = |k: int| g(k).times_spec(f(k));
    assert forall|k: int| 0 <= k < n implies #[trigger] fg(k) == gf(k) by {
        T::times_commutes(f(k), g(k));
    }
    lemma_sum_same(fg, gf, n);
}

/// A row that is 1 at `k` and 0 elsewhere picks the number at `k`.
pub proof fn lemma_dot_pick<T: ExactScalar>(
    f: spec_fn(int) -> T,
    g: spec_fn(int) -> T,
    n: nat,
    k: int,
)
    requires
        0 <= k < n,
        f(k) == T::one_spec(),
        forall|i: int| 0 <= i < n && i != k ==> #[trigger] f(i) == T::zero_spec(),
    ensures
        dot(f, g, n) == g(k),
        dot(g, f, n) == g(k),
{
    lemma_dot_pick_scaled(f, g, n, k);
    lemma_one_times(g(k));
}

/// A row that is 0 but at `k` picks the number at `k` and scales it.
pub proof fn lemma_dot_pick_scaled<T: ExactScalar>(
    f: spec_fn(int) -> T,
    g: spec_fn(int) -> T,
    n: nat,
    k: int,
)
    requires
        0 <= k < n,
        forall|i: int| 0 <= i < n && i != k ==> #[trigger] f(i) == T::zero_spec(),
    ensures
        dot(f, g, n) == f(k).times_spec(g(k)),
        dot(g, f, n) == g(k).times_spec(f(k)),
{
    let h = |i: int| f(i).times_spec(g(i));
    assert forall|i: int| 0 <= i < n && i != k implies #[trigger] h(i) == T::zero_spec() by {
        assert(f(i) == T::zero_spec());
        lemma_times_zero(g(i));
    }
    lemma_sum_single(h, n, k);
    lemma_dot_commutes(f, g, n);
    T::times_commutes(f(k), g(k));
}

/// A row times a matrix times a column can be multiplied from either side.
pub proof fn lemma_dot_associates<T: ExactScalar>(
    f: spec_fn(int) -> T,
    x: spec_fn(int, int) -> T,
    z: spec_fn(int) -> T,
    m: nat,
    n: nat,
)
    ensures
        dot(f, applied(x, z, n), m) == dot(passed(f, x, m), z, n),
{
    let h = |a: int, b: int| f(a).times_spec(x(a, b)).times_spec(z(b));
    let left = |a: int| f(a).times_spec(applied(x, z, n)(a));
    let rows = |a: int| sum(|b: int| h(a, b), n);
    assert forall|a: int| 0 <= a < m implies #[trigger] left(a) == rows(a) by {
        let inner = |b: int| row(x, a)(b).times_spec(z(b));
        lemma_sum_times(f(a), inner, n);
        let pushed = |b: int| f(a).times_spec(inner(b));
        assert forall|b: int| 0 <= b < n implies #[trigger] pushed(b) == h(a, b) by {
            T::times_associates(f(a), x(a, b), z(b));
        }
        lemma_sum_same(pushed, |b: int| h(a, b), n);
    }
    lemma_sum_same(left, rows, m);
    let right = |b: int| passed(f, x, m)(b).times_spec(z(b));
    let columns = |b: int| sum(|a: int| h(a, b), m);
    assert forall|b: int| 0 <= b < n implies #[trigger] right(b) == columns(b) by {
        let inner = |a: int| f(a).times_spec(column(x, b)(a));
        lemma_sum_times(z(b), inner, m);
        let pushed = |a: int| inner(a).times_spec(z(b));
        lemma_sum_same(pushed, |a: int| h(a, b), m);
    }
    lemma_sum_same(right, columns, n);
    lemma_sum_exchange(h, m, n);
}

/// Nested sandwiches are one sandwich.
pub proof fn lemma_sandwich_nested<T: ExactScalar>(
    f: spec_fn(int) -> T,
    u: spec_fn(int, int) -> T,
    x: spec_fn(int, int) -> T,
    w: spec_fn(int, int) -> T,
    z: spec_fn(int) -> T,
    n: nat,
)
    ensures
        sandwich(f, |p: int, q: int| sandwich(row(u, p), x, row(w, q), n), z, n) == sandwich(
            passed(f, u, n),
            x,
            passed(z, w, n),
            n,
        ),
{
    let inner = |p: int, q: int| sandwich(row(u, p), x, row(w, q), n);
    let zw = passed(z, w, n);
    // `y(p, q)` is the sum over the second index of `x` with the row `q` of `w`.
    let y = |p: int, q: int| dot(row(x, p), row(w, q), n);
    let last = applied(x, zw, n);
    assert forall|p: int| 0 <= p < n implies #[trigger] applied(y, z, n)(p) == last(p) by {
        let t = |b: int, a: int| w(a, b);
        assert forall|q: int| 0 <= q < n implies #[trigger] row(y, p)(q) == passed(
            row(x, p),
            t,
            n,
        )(q) by {
            lemma_dot_same(row(x, p), row(w, q), row(x, p), column(t, q), n);
        }
        lemma_dot_same(row(y, p), z, passed(row(x, p), t, n), z, n);
        lemma_dot_associates(row(x, p), t, z, n, n);
        assert forall|b: int| 0 <= b < n implies #[trigger] applied(t, z, n)(b) == zw(b) by {
            lemma_dot_commutes(row(t, b), z, n);
            lemma_dot_same(z, row(t, b), z, column(w, b), n);
        }
        lemma_dot_same(row(x, p), applied(t, z, n), row(x, p), zw, n);
    }
    let middle = applied(u, last, n);
    assert forall|p: int| 0 <= p < n implies #[trigger] applied(inner, z, n)(p) == middle(p) by {
        assert forall|q: int| 0 <= q < n implies #[trigger] row(inner, p)(q) == passed(
            row(u, p),
            y,
            n,
        )(q) by {
            lemma_dot_same(row(u, p), applied(x, row(w, q), n), row(u, p), column(y, q), n);
        }
        lemma_dot_same(row(inner, p), z, passed(row(u, p), y, n), z, n);
        lemma_dot_associates(row(u, p), y, z, n, n);
        lemma_dot_same(row(u, p), applied(y, z, n), row(u, p), last, n);
    }
    lemma_dot_same(f, applied(inner, z, n), f, middle, n);
    lemma_dot_associates(f, u, last, n, n);
}

/// The conjugate of a sandwich is the sandwich of the conjugate transpose.
pub proof fn lemma_sandwich_conj<T: ExactScalar>(
    f: spec_fn(int) -> T,
    x: spec_fn(int, int) -> T,
    z: spec_fn(int) -> T,
    n: nat,
)
    ensures
        sandwich(f, x, z, n).conj_spec() == sandwich(
            |k: int| z(k).conj_spec(),
            |p: int, q: int| x(q, p).conj_spec(),
            |k: int| f(k).conj_spec(),
            n,
        ),
{
    let fc = |k: int| f(k).conj_spec();
    let zc = |k: int| z(k).conj_spec();
    let xc = |p: int, q: int| x(p, q).conj_spec();
    let xt = |p: int, q: int| x(q, p).conj_spec();
    lemma_dot_conj(f, applied(x, z, n), n);
    assert forall|a: int| 0 <= a < n implies #[trigger] applied(x, z, n)(a).conj_spec() == applied(
        xc,
        zc,
        n,
    )(a) by {
        lemma_dot_conj(row(x, a), z, n);
        lemma_dot_same(
            |k: int| row(x, a)(k).conj_spec(),
            |k: int| z(k).conj_spec(),
            row(xc, a),
            zc,
            n,
        );
    }
    lemma_dot_same(
        |k: int| f(k).conj_spec(),
        |k: int| applied(x, z, n)(k).conj_spec(),
        fc,
        applied(xc, zc, n),
        n,
    );
    lemma_dot_associates(fc, xc, zc, n, n);
    lemma_dot_commutes(passed(fc, xc, n), zc, n);
    assert forall|b: int| 0 <= b < n implies #[trigger] passed(fc, xc, n)(b) == applied(
        xt,
        fc,
        n,
    )(b) by {
        lemma_dot_commutes(fc, column(xc, b), n);
        lemma_dot_same(column(xc, b), fc, row(xt, b), fc, n);
    }
    lemma_dot_same(zc, passed(fc, xc, n), zc, applied(xt, fc, n), n);
}

/// The conjugate of a sum of products.
pub proof fn lemma_dot_conj<T: ExactScalar>(f: spec_fn(int) -> T, g: spec_fn(int) -> T, n: nat)
    ensures
        dot(f, g, n).conj_spec() == dot(
            |k: int| f(k).conj_spec(),
            |k: int| g(k).conj_spec(),
            n,
        ),
{
    let h = |k: int| f(k).times_spec(g(k));
    let fc = |k: int| f(k).conj_spec();
    let gc = |k: int| g(k).conj_spec();
    lemma_sum_conj(h, n);
    let left = |k: int| h(k).conj_spec();
    let right = |k: int| fc(k).times_spec(gc(k));
    assert forall|k: int| 0 <= k < n implies #[trigger] left(k) == right(k) by {
        T::conj_of_times(f(k), g(k));
    }
    lemma_sum_same(left, right, n);
}

} // verus!
