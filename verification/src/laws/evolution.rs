//! Operators that act on some of the qubits.
use crate::laws::algebra::{hermitian, lemma_same_entries};
use crate::laws::linear::{
    applied, column, dot, lemma_dot_associates, lemma_dot_commutes, lemma_dot_conj, lemma_dot_pick,
    lemma_dot_pick_scaled, lemma_dot_same, lemma_sandwich_conj, lemma_sandwich_nested, passed, row,
    sandwich,
};
use crate::matrix::{
    diagonal, entry, evolved, evolved_at, evolved_entry, evolved_term, evolved_terms,
    lemma_tabulated_entry, positions_of, tabulated, trace_of,
};
use crate::positions::{
    gather, inserted, lemma_gather_bits, lemma_gather_inserted, lemma_inserted_bound,
    lemma_inserted_gathered, lemma_inserted_twice,
};
use crate::scalar::{lemma_conj_constants, ExactScalar, Scalar};
use crate::sums::{
    lemma_div_mod_bounds, lemma_div_mod_of, lemma_flat_bound, lemma_sum_pairs, lemma_sum_permuted,
    lemma_sum_same, lemma_sum_times, permutes, sum,
};
use vstd::arithmetic::power2::*;
use vstd::prelude::*;

verus! {

/// Whether every position is below `n`.
pub open spec fn all_below(pos: Seq<usize>, n: nat) -> bool {
    forall|k: int| 0 <= k < pos.len() ==> #[trigger] pos[k] < n
}

/// The entries of the identity.
pub open spec fn identity_entry<T: Scalar>(r: int, c: int) -> T {
    if r == c {
        T::one_spec()
    } else {
        T::zero_spec()
    }
}

/// The identity matrix with `d` rows.
pub open spec fn identity_matrix<T: Scalar>(d: nat) -> Seq<T> {
    tabulated(d, |r: int, c: int| identity_entry(r, c))
}

/// The product of two matrices with `d` rows.
pub open spec fn matrix_product<T: Scalar>(v: Seq<T>, u: Seq<T>, d: nat) -> Seq<T> {
    tabulated(
        d,
        |r: int, c: int| dot(|k: int| entry(v, d, r, k), |k: int| entry(u, d, k, c), d),
    )
}

/// Reading an entry of a product.
pub proof fn lemma_product_entry<T: Scalar>(v: Seq<T>, u: Seq<T>, d: nat, i: int, j: int)
    requires
        0 <= i < d,
        0 <= j < d,
    ensures
        entry(matrix_product(v, u, d), d, i, j) == dot(
            |k: int| entry(v, d, i, k),
            |k: int| entry(u, d, k, j),
            d,
        ),
{
    lemma_tabulated_entry(
        d,
        |r: int, c: int| dot(|k: int| entry(v, d, r, k), |k: int| entry(u, d, k, c), d),
        i,
        j,
    );
}

/// Whether the columns of a matrix with `d` rows are orthonormal.
pub open spec fn unitary<T: Scalar>(u: Seq<T>, d: nat) -> bool {
    forall|p: int, q: int|
        0 <= p < d && 0 <= q < d ==> #[trigger] column_product(u, d, p, q) == identity_entry::<T>(
            p,
            q,
        )
}

/// The product of a column with the conjugate of another one.
pub open spec fn column_product<T: Scalar>(u: Seq<T>, d: nat, p: int, q: int) -> T {
    dot(|b: int| entry(u, d, b, p), |b: int| entry(u, d, b, q).conj_spec(), d)
}

/// The entries of an operator.
spec fn op_at<T>(u: Seq<T>, d: nat) -> spec_fn(int, int) -> T {
    |r: int, c: int| entry(u, d, r, c)
}

/// The conjugate entries of an operator.
spec fn conj_at<T: Scalar>(u: Seq<T>, d: nat) -> spec_fn(int, int) -> T {
    |r: int, c: int| entry(u, d, r, c).conj_spec()
}

/// The entries that agree with row `i` and column `j` outside the positions.
spec fn block<T>(m: Seq<T>, n: nat, pos: Seq<usize>, i: int, j: int) -> spec_fn(int, int) -> T {
    |p: int, q: int|
        entry(
            m,
            pow2(n),
            inserted(i as nat, pos, p as nat) as int,
            inserted(j as nat, pos, q as nat) as int,
        )
}

/// An entry after the evolution as a row times a matrix times a column.
proof fn lemma_evolved_sandwich<T: ExactScalar>(
    m: Seq<T>,
    n: nat,
    u: Seq<T>,
    pos: Seq<usize>,
    i: int,
    j: int,
)
    ensures
        evolved_entry(m, n, u, pos, i, j) == sandwich(
            row(op_at(u, pow2(pos.len())), gather(i as nat, pos) as int),
            block(m, n, pos, i, j),
            row(conj_at(u, pow2(pos.len())), gather(j as nat, pos) as int),
            pow2(pos.len()),
        ),
{
    let d = pow2(pos.len());
    let a = row(op_at(u, d), gather(i as nat, pos) as int);
    let x = block(m, n, pos, i, j);
    let b = row(conj_at(u, d), gather(j as nat, pos) as int);
    lemma_pow2_pos(pos.len());
    let h = |p: int, q: int| evolved_term(m, n, u, pos, i, j, p, q);
    let flat = |k: int| h(k / (d as int), k % (d as int));
    lemma_sum_same(evolved_terms(m, n, u, pos, i, j), flat, d * d);
    lemma_sum_pairs(h, d, d);
    let rows = |p: int| sum(|q: int| h(p, q), d);
    let products = |p: int| a(p).times_spec(applied(x, b, d)(p));
    assert forall|p: int| 0 <= p < d implies #[trigger] rows(p) == products(p) by {
        let inner = |q: int| row(x, p)(q).times_spec(b(q));
        lemma_sum_times(a(p), inner, d);
        let pushed = |q: int| a(p).times_spec(inner(q));
        assert forall|q: int| 0 <= q < d implies #[trigger] pushed(q) == h(p, q) by {
            T::times_associates(a(p), x(p, q), b(q));
        }
        lemma_sum_same(pushed, |q: int| h(p, q), d);
    }
    lemma_sum_same(rows, products, d);
}

/// An entry after the evolution, from functions that give the entries of the
/// operator, their conjugates, and the entries of the matrix by digit strings.
pub proof fn lemma_evolved_rows<T: ExactScalar>(
    m: Seq<T>,
    n: nat,
    u: Seq<T>,
    pos: Seq<usize>,
    i: int,
    j: int,
    op: spec_fn(int, int) -> T,
    x: spec_fn(int, int) -> T,
    oc: spec_fn(int, int) -> T,
)
    requires
        forall|r: int, c: int| #[trigger] op(r, c) == entry(u, pow2(pos.len()), r, c),
        forall|r: int, c: int| #[trigger] oc(r, c) == entry(u, pow2(pos.len()), r, c).conj_spec(),
        forall|p: int, q: int|
            0 <= p < pow2(pos.len()) && 0 <= q < pow2(pos.len()) ==> #[trigger] x(p, q) == entry(
                m,
                pow2(n),
                inserted(i as nat, pos, p as nat) as int,
                inserted(j as nat, pos, q as nat) as int,
            ),
    ensures
        evolved_entry(m, n, u, pos, i, j) == sandwich(
            row(op, gather(i as nat, pos) as int),
            x,
            row(oc, gather(j as nat, pos) as int),
            pow2(pos.len()),
        ),
{
    let d = pow2(pos.len());
    let gi = gather(i as nat, pos) as int;
    let gj = gather(j as nat, pos) as int;
    lemma_evolved_sandwich(m, n, u, pos, i, j);
    let y = block(m, n, pos, i, j);
    assert forall|p: int, q: int| 0 <= p < d && 0 <= q < d implies #[trigger] y(p, q) == x(
        p,
        q,
    ) by {
        assert(x(p, q) == x(p, q));
    }
    assert forall|k: int| 0 <= k < d implies #[trigger] row(op_at(u, d), gi)(k) == row(op, gi)(
        k,
    ) by {
        assert(op(gi, k) == entry(u, d, gi, k));
    }
    assert forall|k: int| 0 <= k < d implies #[trigger] row(conj_at(u, d), gj)(k) == row(oc, gj)(
        k,
    ) by {
        assert(oc(gj, k) == entry(u, d, gj, k).conj_spec());
    }
    lemma_sandwich_same(
        row(op_at(u, d), gi),
        y,
        row(conj_at(u, d), gj),
        row(op, gi),
        x,
        row(oc, gj),
        d,
    );
}

/// An operator with one entry other than zero in each row: the row `r` has
/// `weight(r)` in the column `to(r)`. It moves the entries of the matrix and
/// scales them.
pub proof fn lemma_monomial_entry<T: ExactScalar>(
    m: Seq<T>,
    n: nat,
    u: Seq<T>,
    pos: Seq<usize>,
    to: spec_fn(int) -> int,
    weight: spec_fn(int) -> T,
    i: int,
    j: int,
)
    requires
        0 <= i < pow2(n),
        0 <= j < pow2(n),
        forall|r: int| 0 <= r < pow2(pos.len()) ==> 0 <= #[trigger] to(r) < pow2(pos.len()),
        forall|r: int, c: int|
            0 <= r < pow2(pos.len()) && 0 <= c < pow2(pos.len()) ==> #[trigger] entry(
                u,
                pow2(pos.len()),
                r,
                c,
            ) == if c == to(r) {
                weight(r)
            } else {
                T::zero_spec()
            },
    ensures
        ({
            let gi = gather(i as nat, pos) as int;
            let gj = gather(j as nat, pos) as int;
            entry(evolved_at(m, n, u, pos), pow2(n), i, j) == weight(gi).times_spec(
                entry(
                    m,
                    pow2(n),
                    inserted(i as nat, pos, to(gi) as nat) as int,
                    inserted(j as nat, pos, to(gj) as nat) as int,
                ).times_spec(weight(gj).conj_spec()),
            )
        }),
{
    let d = pow2(pos.len());
    lemma_evolved_entry(m, n, u, pos, i, j);
    lemma_evolved_sandwich(m, n, u, pos, i, j);
    lemma_gather_bits(i as nat, pos);
    lemma_gather_bits(j as nat, pos);
    let gi = gather(i as nat, pos) as int;
    let gj = gather(j as nat, pos) as int;
    let a = row(op_at(u, d), gi);
    let b = row(conj_at(u, d), gj);
    let x = block(m, n, pos, i, j);
    lemma_conj_constants::<T>();
    assert(0 <= to(gi) < d && 0 <= to(gj) < d);
    assert forall|k: int| 0 <= k < d implies #[trigger] a(k) == if k == to(gi) {
        weight(gi)
    } else {
        T::zero_spec()
    } by {
        assert(entry(u, d, gi, k) == a(k));
    }
    assert forall|k: int| 0 <= k < d implies #[trigger] b(k) == if k == to(gj) {
        weight(gj).conj_spec()
    } else {
        T::zero_spec()
    } by {
        assert(b(k) == entry(u, d, gj, k).conj_spec());
    }
    lemma_dot_pick_scaled(a, applied(x, b, d), d, to(gi));
    lemma_dot_pick_scaled(b, row(x, to(gi)), d, to(gj));
}

/// Reading an entry of an evolved matrix.
pub proof fn lemma_evolved_entry<T: Scalar>(
    m: Seq<T>,
    n: nat,
    u: Seq<T>,
    pos: Seq<usize>,
    i: int,
    j: int,
)
    requires
        0 <= i < pow2(n),
        0 <= j < pow2(n),
    ensures
        entry(evolved_at(m, n, u, pos), pow2(n), i, j) == evolved_entry(m, n, u, pos, i, j),
{
    lemma_tabulated_entry(pow2(n), |i: int, j: int| evolved_entry(m, n, u, pos, i, j), i, j);
}

/// Distinct qubits have distinct positions, all below `n`.
pub proof fn lemma_positions_of(n: nat, targets: Seq<usize>)
    requires
        n <= usize::MAX,
        all_below(targets, n),
    ensures
        all_below(positions_of(n, targets), n),
        targets.no_duplicates() ==> positions_of(n, targets).no_duplicates(),
{
    let pos = positions_of(n, targets);
    assert forall|k: int| 0 <= k < pos.len() implies #[trigger] pos[k] < n by {
        assert(targets[k] < n);
    }
    if targets.no_duplicates() {
        assert forall|i: int, j: int|
            0 <= i < pos.len() && 0 <= j < pos.len() && i != j implies pos[i] != pos[j] by {
            assert(targets[i] < n && targets[j] < n);
            assert(targets[i] != targets[j]);
        }
    }
}

/// Two operators that act one after the other on the same qubits act as their
/// product does.
pub proof fn law_evolve_composes<T: ExactScalar>(
    m: Seq<T>,
    n: nat,
    u: Seq<T>,
    v: Seq<T>,
    targets: Seq<usize>,
)
    requires
        n <= usize::MAX,
        all_below(targets, n),
        targets.no_duplicates(),
    ensures
        evolved(evolved(m, n, u, targets), n, v, targets) == evolved(
            m,
            n,
            matrix_product(v, u, pow2(targets.len())),
            targets,
        ),
{
    let pos = positions_of(n, targets);
    lemma_positions_of(n, targets);
    let d = pow2(pos.len());
    let once = evolved_at(m, n, u, pos);
    let vu = matrix_product(v, u, d);
    let left = evolved_at(once, n, v, pos);
    let right = evolved_at(m, n, vu, pos);
    let size = pow2(n);
    assert forall|i: int, j: int| 0 <= i < size && 0 <= j < size implies #[trigger] entry(
        left,
        size,
        i,
        j,
    ) == entry(right, size, i, j) by {
        lemma_evolved_entry(once, n, v, pos, i, j);
        lemma_evolved_entry(m, n, vu, pos, i, j);
        lemma_evolved_sandwich(once, n, v, pos, i, j);
        lemma_evolved_sandwich(m, n, vu, pos, i, j);
        lemma_composed_entry(m, n, u, v, pos, i, j);
    }
    lemma_same_entries(left, right, size);
}

/// One entry after two operators.
proof fn lemma_composed_entry<T: ExactScalar>(
    m: Seq<T>,
    n: nat,
    u: Seq<T>,
    v: Seq<T>,
    pos: Seq<usize>,
    i: int,
    j: int,
)
    requires
        all_below(pos, n),
        pos.no_duplicates(),
        0 <= i < pow2(n),
        0 <= j < pow2(n),
    ensures
        ({
            let d = pow2(pos.len());
            let vu = matrix_product(v, u, d);
            let gi = gather(i as nat, pos) as int;
            let gj = gather(j as nat, pos) as int;
            sandwich(
                row(op_at(v, d), gi),
                block(evolved_at(m, n, u, pos), n, pos, i, j),
                row(conj_at(v, d), gj),
                d,
            ) == sandwich(
                row(op_at(vu, d), gi),
                block(m, n, pos, i, j),
                row(conj_at(vu, d), gj),
                d,
            )
        }),
{
    let d = pow2(pos.len());
    let vu = matrix_product(v, u, d);
    let once = evolved_at(m, n, u, pos);
    let gi = gather(i as nat, pos) as int;
    let gj = gather(j as nat, pos) as int;
    let a = row(op_at(v, d), gi);
    let b = row(conj_at(v, d), gj);
    let x = block(m, n, pos, i, j);
    let y = block(once, n, pos, i, j);
    let uu = op_at(u, d);
    let uc = conj_at(u, d);
    let nested = |p: int, q: int| sandwich(row(uu, p), x, row(uc, q), d);
    lemma_gather_bits(i as nat, pos);
    lemma_gather_bits(j as nat, pos);
    assert forall|p: int, q: int| 0 <= p < d && 0 <= q < d implies #[trigger] y(p, q) == nested(
        p,
        q,
    ) by {
        let ip = inserted(i as nat, pos, p as nat);
        let jq = inserted(j as nat, pos, q as nat);
        lemma_inserted_bound(i as nat, pos, p as nat, n);
        lemma_inserted_bound(j as nat, pos, q as nat, n);
        lemma_gather_inserted(i as nat, pos, p as nat);
        lemma_gather_inserted(j as nat, pos, q as nat);
        lemma_evolved_entry(m, n, u, pos, ip as int, jq as int);
        lemma_evolved_sandwich(m, n, u, pos, ip as int, jq as int);
        let z = block(m, n, pos, ip as int, jq as int);
        assert forall|s: int, t: int| 0 <= s < d && 0 <= t < d implies #[trigger] z(s, t) == x(
            s,
            t,
        ) by {
            lemma_inserted_twice(i as nat, pos, p as nat, s as nat, n);
            lemma_inserted_twice(j as nat, pos, q as nat, t as nat, n);
        }
        lemma_sandwich_same(row(uu, p), z, row(uc, q), row(uu, p), x, row(uc, q), d);
    }
    lemma_sandwich_same(a, y, b, a, nested, b, d);
    lemma_sandwich_nested(a, uu, x, uc, b, d);
    let av = row(op_at(vu, d), gi);
    let bv = row(conj_at(vu, d), gj);
    let f = |r: int, c: int| dot(|k: int| entry(v, d, r, k), |k: int| entry(u, d, k, c), d);
    assert forall|c: int| 0 <= c < d implies #[trigger] passed(a, uu, d)(c) == av(c) by {
        lemma_tabulated_entry(d, f, gi, c);
        lemma_dot_same(
            a,
            column(uu, c),
            |k: int| entry(v, d, gi, k),
            |k: int| entry(u, d, k, c),
            d,
        );
    }
    assert forall|c: int| 0 <= c < d implies #[trigger] passed(b, uc, d)(c) == bv(c) by {
        lemma_tabulated_entry(d, f, gj, c);
        let p = |k: int| entry(v, d, gj, k);
        let q = |k: int| entry(u, d, k, c);
        lemma_dot_conj(p, q, d);
        lemma_dot_same(
            b,
            column(uc, c),
            |k: int| p(k).conj_spec(),
            |k: int| q(k).conj_spec(),
            d,
        );
    }
    lemma_sandwich_same(passed(a, uu, d), x, passed(b, uc, d), av, x, bv, d);
}

/// Sandwiches of the same numbers are the same.
pub proof fn lemma_sandwich_same<T: Scalar>(
    f: spec_fn(int) -> T,
    x: spec_fn(int, int) -> T,
    z: spec_fn(int) -> T,
    g: spec_fn(int) -> T,
    y: spec_fn(int, int) -> T,
    w: spec_fn(int) -> T,
    n: nat,
)
    requires
        forall|k: int| 0 <= k < n ==> #[trigger] f(k) == g(k),
        forall|k: int| 0 <= k < n ==> #[trigger] z(k) == w(k),
        forall|p: int, q: int| 0 <= p < n && 0 <= q < n ==> #[trigger] x(p, q) == y(p, q),
    ensures
        sandwich(f, x, z, n) == sandwich(g, y, w, n),
{
    assert forall|p: int| 0 <= p < n implies #[trigger] applied(x, z, n)(p) == applied(y, w, n)(
        p,
    ) by {
        assert forall|q: int| 0 <= q < n implies #[trigger] row(x, p)(q) == row(y, p)(q) by {
            assert(x(p, q) == y(p, q));
        }
        lemma_dot_same(row(x, p), z, row(y, p), w, n);
    }
    lemma_dot_same(f, applied(x, z, n), g, applied(y, w, n), n);
}

/// The identity changes nothing.
pub proof fn law_identity_evolves_nothing<T: ExactScalar>(
    m: Seq<T>,
    n: nat,
    targets: Seq<usize>,
)
    requires
        n <= usize::MAX,
        m.len() == pow2(n) * pow2(n),
        all_below(targets, n),
    ensures
        evolved(m, n, identity_matrix(pow2(targets.len())), targets) == m,
{
    let pos = positions_of(n, targets);
    lemma_positions_of(n, targets);
    let d = pow2(pos.len());
    let u = identity_matrix::<T>(d);
    let left = evolved_at(m, n, u, pos);
    let size = pow2(n);
    assert forall|i: int, j: int| 0 <= i < size && 0 <= j < size implies #[trigger] entry(
        left,
        size,
        i,
        j,
    ) == entry(m, size, i, j) by {
        lemma_evolved_entry(m, n, u, pos, i, j);
        lemma_evolved_sandwich(m, n, u, pos, i, j);
        lemma_gather_bits(i as nat, pos);
        lemma_gather_bits(j as nat, pos);
        let gi = gather(i as nat, pos) as int;
        let gj = gather(j as nat, pos) as int;
        let a = row(op_at(u, d), gi);
        let b = row(conj_at(u, d), gj);
        let x = block(m, n, pos, i, j);
        let e = |r: int, c: int| identity_entry::<T>(r, c);
        lemma_conj_constants::<T>();
        assert forall|k: int| 0 <= k < d implies #[trigger] a(k) == identity_entry::<T>(gi, k) by {
            lemma_tabulated_entry(d, e, gi, k);
        }
        assert forall|k: int| 0 <= k < d implies #[trigger] b(k) == identity_entry::<T>(gj, k) by {
            lemma_tabulated_entry(d, e, gj, k);
        }
        lemma_dot_pick(a, applied(x, b, d), d, gi);
        lemma_dot_pick(b, row(x, gi), d, gj);
        lemma_inserted_gathered(i as nat, pos, n);
        lemma_inserted_gathered(j as nat, pos, n);
    }
    lemma_same_entries(left, m, size);
}

/// Evolution keeps a matrix its own conjugate transpose.
pub proof fn law_evolved_is_hermitian<T: ExactScalar>(
    m: Seq<T>,
    n: nat,
    u: Seq<T>,
    targets: Seq<usize>,
)
    requires
        n <= usize::MAX,
        hermitian(m, pow2(n)),
        all_below(targets, n),
    ensures
        hermitian(evolved(m, n, u, targets), pow2(n)),
{
    let pos = positions_of(n, targets);
    lemma_positions_of(n, targets);
    let d = pow2(pos.len());
    let size = pow2(n);
    let left = evolved_at(m, n, u, pos);
    assert forall|i: int, j: int| 0 <= i < size && 0 <= j < size implies #[trigger] entry(
        left,
        size,
        i,
        j,
    ) == entry(left, size, j, i).conj_spec() by {
        lemma_evolved_entry(m, n, u, pos, i, j);
        lemma_evolved_entry(m, n, u, pos, j, i);
        lemma_evolved_sandwich(m, n, u, pos, i, j);
        lemma_evolved_sandwich(m, n, u, pos, j, i);
        let gi = gather(i as nat, pos) as int;
        let gj = gather(j as nat, pos) as int;
        let (ai, bi) = (row(op_at(u, d), gi), row(conj_at(u, d), gi));
        let (aj, bj) = (row(op_at(u, d), gj), row(conj_at(u, d), gj));
        let x = block(m, n, pos, j, i);
        let y = block(m, n, pos, i, j);
        lemma_sandwich_conj(aj, x, bi, d);
        let xt = |p: int, q: int| x(q, p).conj_spec();
        let bic = |k: int| bi(k).conj_spec();
        let ajc = |k: int| aj(k).conj_spec();
        assert forall|k: int| 0 <= k < d implies #[trigger] ai(k) == bic(k) by {
            T::conj_involutes(ai(k));
        }
        assert forall|p: int, q: int| 0 <= p < d && 0 <= q < d implies #[trigger] y(p, q) == xt(
            p,
            q,
        ) by {
            lemma_inserted_bound(i as nat, pos, p as nat, n);
            lemma_inserted_bound(j as nat, pos, q as nat, n);
            let ip = inserted(i as nat, pos, p as nat) as int;
            let jq = inserted(j as nat, pos, q as nat) as int;
            assert(entry(m, size, ip, jq) == entry(m, size, jq, ip).conj_spec());
        }
        lemma_sandwich_same(ai, y, bj, bic, xt, ajc, d);
    }
}

/// Where a pair of a row and a digit string goes: the string is written into the
/// row, and what the row had there becomes the string.
spec fn exchanged(n: nat, pos: Seq<usize>) -> spec_fn(int) -> int {
    let d = pow2(pos.len()) as int;
    |k: int|
        inserted((k / d) as nat, pos, (k % d) as nat) * d + gather((k / d) as nat, pos)
}

/// Exchanging a row's digits with a string of digits is a permutation.
proof fn lemma_exchanged_permutes(n: nat, pos: Seq<usize>)
    requires
        all_below(pos, n),
        pos.no_duplicates(),
    ensures
        permutes(exchanged(n, pos), pow2(n) * pow2(pos.len())),
{
    let d = pow2(pos.len()) as int;
    let size = pow2(n) as int;
    let s = exchanged(n, pos);
    lemma_pow2_pos(pos.len());
    assert forall|k: int| 0 <= k < size * d implies 0 <= #[trigger] s(k) < size * d && s(s(k))
        == k by {
        lemma_div_mod_bounds(k, size, d);
        let i = (k / d) as nat;
        let p = (k % d) as nat;
        let g = gather(i, pos);
        let ip = inserted(i, pos, p);
        lemma_gather_bits(i, pos);
        lemma_inserted_bound(i, pos, p, n);
        lemma_flat_bound(ip as int, g as int, size, d);
        lemma_div_mod_of(ip as int, g as int, d);
        lemma_gather_inserted(i, pos, p);
        lemma_inserted_twice(i, pos, p, g, n);
        lemma_inserted_gathered(i, pos, n);
    }
    assert forall|a: int, b: int|
        0 <= a < size * d && 0 <= b < size * d && #[trigger] s(a) == #[trigger] s(b) implies a
        == b by {
        assert(s(s(a)) == a && s(s(b)) == b);
    }
}

/// A unitary operator keeps the trace.
pub proof fn law_unitary_keeps_trace<T: ExactScalar>(
    m: Seq<T>,
    n: nat,
    u: Seq<T>,
    targets: Seq<usize>,
)
    requires
        n <= usize::MAX,
        all_below(targets, n),
        targets.no_duplicates(),
        unitary(u, pow2(targets.len())),
    ensures
        trace_of(evolved(m, n, u, targets), pow2(n)) == trace_of(m, pow2(n)),
{
    let pos = positions_of(n, targets);
    lemma_positions_of(n, targets);
    let d = pow2(pos.len());
    let size = pow2(n);
    let left = evolved_at(m, n, u, pos);
    lemma_pow2_pos(pos.len());
    let uu = op_at(u, d);
    let uc = conj_at(u, d);
    // The term of the row `i` and the digits `p`.
    let f = |i: int, p: int|
        uu(gather(i as nat, pos) as int, p).times_spec(
            applied(
                block(m, n, pos, i, i),
                row(uc, gather(i as nat, pos) as int),
                d,
            )(p),
        );
    // The same term by where it reads the matrix.
    let kept = |i: int|
        |q: int| entry(m, size, i, inserted(i as nat, pos, q as nat) as int);
    let g = |i: int, b: int|
        uu(b, gather(i as nat, pos) as int).times_spec(applied(uc, kept(i), d)(b));
    let rows = |i: int| sum(|p: int| f(i, p), d);
    assert forall|i: int| 0 <= i < size implies #[trigger] diagonal(left, size)(i) == rows(i) by {
        lemma_evolved_entry(m, n, u, pos, i, i);
        lemma_evolved_sandwich(m, n, u, pos, i, i);
        let a = row(uu, gather(i as nat, pos) as int);
        let b = row(uc, gather(i as nat, pos) as int);
        let z = applied(block(m, n, pos, i, i), b, d);
        lemma_sum_same(|p: int| a(p).times_spec(z(p)), |p: int| f(i, p), d);
    }
    lemma_sum_same(diagonal(left, size), rows, size);
    lemma_sum_pairs(f, size, d);
    let flat_f = |k: int| f(k / (d as int), k % (d as int));
    let flat_g = |k: int| g(k / (d as int), k % (d as int));
    let s = exchanged(n, pos);
    assert forall|k: int| 0 <= k < size * d implies #[trigger] flat_f(k) == flat_g(s(k)) by {
        lemma_exchanged_term(m, n, u, pos, k);
    }
    lemma_exchanged_permutes(n, pos);
    lemma_sum_same(flat_f, |k: int| flat_g(s(k)), size * d);
    lemma_sum_permuted(flat_g, s, size * d);
    lemma_sum_pairs(g, size, d);
    let columns = |i: int| sum(|b: int| g(i, b), d);
    assert forall|i: int| 0 <= i < size implies #[trigger] columns(i) == diagonal(m, size)(i) by {
        let gi = gather(i as nat, pos) as int;
        lemma_gather_bits(i as nat, pos);
        let a = column(uu, gi);
        let z = kept(i);
        lemma_sum_same(
            |b: int| g(i, b),
            |b: int| a(b).times_spec(applied(uc, z, d)(b)),
            d,
        );
        lemma_dot_associates(a, uc, z, d, d);
        let through = passed(a, uc, d);
        assert forall|q: int| 0 <= q < d implies #[trigger] through(q) == identity_entry::<T>(
            gi,
            q,
        ) by {
            lemma_dot_same(
                a,
                column(uc, q),
                |b: int| entry(u, d, b, gi),
                |b: int| entry(u, d, b, q).conj_spec(),
                d,
            );
            assert(column_product(u, d, gi, q) == identity_entry::<T>(gi, q));
        }
        lemma_dot_pick(through, z, d, gi);
        lemma_inserted_gathered(i as nat, pos, n);
    }
    lemma_sum_same(columns, diagonal(m, size), size);
}

/// A term of the trace read from the other end.
proof fn lemma_exchanged_term<T: ExactScalar>(
    m: Seq<T>,
    n: nat,
    u: Seq<T>,
    pos: Seq<usize>,
    k: int,
)
    requires
        all_below(pos, n),
        pos.no_duplicates(),
        0 <= k < pow2(n) * pow2(pos.len()),
    ensures
        ({
            let d = pow2(pos.len());
            let i = k / (d as int);
            let p = k % (d as int);
            let gi = gather(i as nat, pos) as int;
            let x = exchanged(n, pos)(k);
            let r = x / (d as int);
            let b = x % (d as int);
            op_at(u, d)(gi, p).times_spec(
                applied(block(m, n, pos, i, i), row(conj_at(u, d), gi), d)(p),
            ) == op_at(u, d)(b, gather(r as nat, pos) as int).times_spec(
                applied(
                    conj_at(u, d),
                    |q: int| entry(m, pow2(n), r, inserted(r as nat, pos, q as nat) as int),
                    d,
                )(b),
            )
        }),
{
    let d = pow2(pos.len());
    let w = d as int;
    lemma_pow2_pos(pos.len());
    lemma_div_mod_bounds(k, pow2(n) as int, w);
    let i = (k / w) as nat;
    let p = (k % w) as nat;
    let g = gather(i, pos);
    let r = inserted(i, pos, p);
    lemma_gather_bits(i, pos);
    lemma_inserted_bound(i, pos, p, n);
    lemma_div_mod_of(r as int, g as int, w);
    lemma_gather_inserted(i, pos, p);
    let x = row(block(m, n, pos, i as int, i as int), p as int);
    let y = |q: int| entry(m, pow2(n), r as int, inserted(r, pos, q as nat) as int);
    assert forall|q: int| 0 <= q < d implies #[trigger] x(q) == y(q) by {
        lemma_inserted_twice(i, pos, p, q as nat, n);
    }
    let c = row(conj_at(u, d), g as int);
    lemma_dot_commutes(x, c, d);
    lemma_dot_same(c, x, c, y, d);
}

} // verus!
