//! Sums of scalars.
use crate::scalar::{
    lemma_conj_constants, lemma_natural_zero, lemma_plus_interchange, lemma_times_zero,
    lemma_zero_plus, ExactScalar, Scalar,
};
use vstd::arithmetic::div_mod::*;
use vstd::prelude::*;

verus! {

/// The sum `0 + f(0) + f(1) + ... + f(n - 1)`, added up from the left.
pub open spec fn sum<T: Scalar>(f: spec_fn(int) -> T, n: nat) -> T
    decreases n,
{
    if n == 0 {
        T::zero_spec()
    } else {
        sum(f, (n - 1) as nat).plus_spec(f(n - 1))
    }
}

/// The places of the parentheses in a sum whose terms keep their order and in
/// which zeros may have been put in.
pub enum SumTree {
    /// A zero that stands for no term.
    Zero,
    /// The next term.
    Term,
    /// The sum of what is on the left and what is on the right.
    Node(Box<SumTree>, Box<SumTree>),
}

impl SumTree {
    /// How many terms the sum has.
    pub open spec fn terms(self) -> nat
        decreases self,
    {
        match self {
            SumTree::Zero => 0,
            SumTree::Term => 1,
            SumTree::Node(l, r) => l.terms() + r.terms(),
        }
    }

    /// What the sum comes to when its terms are `f(from)`, `f(from + 1)` and so on.
    pub open spec fn value<T: Scalar>(self, f: spec_fn(int) -> T, from: int) -> T
        decreases self,
    {
        match self {
            SumTree::Zero => T::zero_spec(),
            SumTree::Term => f(from),
            SumTree::Node(l, r) => l.value(f, from).plus_spec(r.value(f, from + l.terms())),
        }
    }
}

/// Whether `total` is the sum of `f(0)`, ..., `f(n - 1)`, in this order, under
/// some placement of parentheses and with any number of zeros put in.
pub open spec fn is_some_sum<T: Scalar>(f: spec_fn(int) -> T, n: nat, total: T) -> bool {
    exists|t: SumTree| #[trigger] t.terms() == n && total == t.value(f, 0)
}

/// Sums of the same terms are the same.
pub proof fn lemma_sum_same<T: Scalar>(f: spec_fn(int) -> T, g: spec_fn(int) -> T, n: nat)
    requires
        forall|i: int| 0 <= i < n ==> #[trigger] f(i) == g(i),
    ensures
        sum(f, n) == sum(g, n),
    decreases n,
{
    if n > 0 {
        lemma_sum_same(f, g, (n - 1) as nat);
        assert(f(n - 1) == g(n - 1));
    }
}

/// Parentheses under which the same terms have been added up give the same sum.
pub proof fn lemma_tree_same<T: Scalar>(
    t: SumTree,
    f: spec_fn(int) -> T,
    g: spec_fn(int) -> T,
    from: int,
)
    requires
        forall|i: int| from <= i < from + t.terms() ==> #[trigger] f(i) == g(i),
    ensures
        t.value(f, from) == t.value(g, from),
    decreases t,
{
    match t {
        SumTree::Zero => {},
        SumTree::Term => {},
        SumTree::Node(l, r) => {
            lemma_tree_same(*l, f, g, from);
            lemma_tree_same(*r, f, g, from + l.terms());
        },
    }
}

/// Whether a total is a sum of the terms depends on the terms alone.
pub proof fn lemma_some_sum_same<T: Scalar>(
    f: spec_fn(int) -> T,
    g: spec_fn(int) -> T,
    n: nat,
    total: T,
)
    requires
        forall|i: int| 0 <= i < n ==> #[trigger] f(i) == g(i),
        is_some_sum(f, n, total),
    ensures
        is_some_sum(g, n, total),
{
    let t = choose|t: SumTree| #[trigger] t.terms() == n && total == t.value(f, 0);
    lemma_tree_same(t, f, g, 0);
    assert(t.terms() == n && total == t.value(g, 0));
}

/// Splits a sum in two.
pub proof fn lemma_sum_append<T: ExactScalar>(f: spec_fn(int) -> T, m: nat, n: nat)
    ensures
        sum(f, m + n) == sum(f, m).plus_spec(sum(|i: int| f(m + i), n)),
    decreases n,
{
    let g = |i: int| f(m + i);
    if n == 0 {
        T::plus_zero(sum(f, m));
    } else {
        let k = (n - 1) as nat;
        lemma_sum_append(f, m, k);
        assert((m + n - 1) as nat == m + k);
        assert(sum(g, n) == sum(g, k).plus_spec(g(n - 1)));
        assert(g(n - 1) == f(m + n - 1));
        T::plus_associates(sum(f, m), sum(g, k), g(n - 1));
    }
}

/// Without rounding, parentheses and zeros make no difference.
pub proof fn lemma_tree_is_sum<T: ExactScalar>(t: SumTree, f: spec_fn(int) -> T, from: int)
    ensures
        t.value(f, from) == sum(|i: int| f(from + i), t.terms()),
    decreases t,
{
    let g = |i: int| f(from + i);
    match t {
        SumTree::Zero => {},
        SumTree::Term => {
            reveal_with_fuel(sum, 2);
            lemma_zero_plus(f(from));
            assert(g(0) == f(from));
        },
        SumTree::Node(l, r) => {
            lemma_tree_is_sum(*l, f, from);
            lemma_tree_is_sum(*r, f, from + l.terms());
            lemma_sum_append(g, l.terms(), r.terms());
            lemma_sum_same(
                |i: int| f(from + l.terms() + i),
                |i: int| g(l.terms() + i),
                r.terms(),
            );
        },
    }
}

/// Without rounding, a sum under any parentheses is the sum from the left.
pub proof fn lemma_some_sum_is_sum<T: ExactScalar>(f: spec_fn(int) -> T, n: nat, total: T)
    requires
        is_some_sum(f, n, total),
    ensures
        total == sum(f, n),
{
    let t = choose|t: SumTree| #[trigger] t.terms() == n && total == t.value(f, 0);
    lemma_tree_is_sum(t, f, 0);
    lemma_sum_same(f, |i: int| f(0 + i), n);
}

/// A sum of zeros is zero.
pub proof fn lemma_sum_zero<T: ExactScalar>(f: spec_fn(int) -> T, n: nat)
    requires
        forall|i: int| 0 <= i < n ==> #[trigger] f(i) == T::zero_spec(),
    ensures
        sum(f, n) == T::zero_spec(),
    decreases n,
{
    if n > 0 {
        lemma_sum_zero(f, (n - 1) as nat);
        T::plus_zero(T::zero_spec());
        assert(f(n - 1) == T::zero_spec());
    }
}

/// A sum with one term other than zero is that term.
pub proof fn lemma_sum_single<T: ExactScalar>(f: spec_fn(int) -> T, n: nat, k: int)
    requires
        0 <= k < n,
        forall|i: int| 0 <= i < n && i != k ==> #[trigger] f(i) == T::zero_spec(),
    ensures
        sum(f, n) == f(k),
    decreases n,
{
    let m = (n - 1) as nat;
    if k == m {
        lemma_sum_zero(f, m);
        lemma_zero_plus(f(k));
    } else {
        lemma_sum_single(f, m, k);
        assert(f(n - 1) == T::zero_spec());
        T::plus_zero(f(k));
    }
}

/// The sum of sums.
pub proof fn lemma_sum_plus<T: ExactScalar>(f: spec_fn(int) -> T, g: spec_fn(int) -> T, n: nat)
    ensures
        sum(|i: int| f(i).plus_spec(g(i)), n) == sum(f, n).plus_spec(sum(g, n)),
    decreases n,
{
    let h = |i: int| f(i).plus_spec(g(i));
    if n == 0 {
        T::plus_zero(T::zero_spec());
    } else {
        let m = (n - 1) as nat;
        lemma_sum_plus(f, g, m);
        assert(h(n - 1) == f(n - 1).plus_spec(g(n - 1)));
        lemma_plus_interchange(sum(f, m), sum(g, m), f(n - 1), g(n - 1));
    }
}

/// A factor can be taken out of a sum on either side.
pub proof fn lemma_sum_times<T: ExactScalar>(c: T, f: spec_fn(int) -> T, n: nat)
    ensures
        sum(|i: int| c.times_spec(f(i)), n) == c.times_spec(sum(f, n)),
        sum(|i: int| f(i).times_spec(c), n) == sum(f, n).times_spec(c),
    decreases n,
{
    let left = |i: int| c.times_spec(f(i));
    let right = |i: int| f(i).times_spec(c);
    lemma_times_zero(c);
    if n > 0 {
        let m = (n - 1) as nat;
        lemma_sum_times(c, f, m);
        T::times_distributes(c, sum(f, m), f(n - 1));
    }
    assert forall|i: int| 0 <= i < n implies #[trigger] left(i) == right(i) by {
        T::times_commutes(c, f(i));
    }
    lemma_sum_same(left, right, n);
    T::times_commutes(c, sum(f, n));
}

/// The conjugate of a sum is the sum of the conjugates.
pub proof fn lemma_sum_conj<T: ExactScalar>(f: spec_fn(int) -> T, n: nat)
    ensures
        sum(f, n).conj_spec() == sum(|i: int| f(i).conj_spec(), n),
    decreases n,
{
    let g = |i: int| f(i).conj_spec();
    if n == 0 {
        lemma_conj_constants::<T>();
    } else {
        let m = (n - 1) as nat;
        lemma_sum_conj(f, m);
        T::conj_of_plus(sum(f, m), f(n - 1));
        assert(g(n - 1) == f(n - 1).conj_spec());
    }
}

/// The order of two summations can be exchanged.
pub proof fn lemma_sum_exchange<T: ExactScalar>(f: spec_fn(int, int) -> T, m: nat, n: nat)
    ensures
        sum(|i: int| sum(|j: int| f(i, j), n), m) == sum(|j: int| sum(|i: int| f(i, j), m), n),
    decreases m,
{
    let rows = |i: int| sum(|j: int| f(i, j), n);
    let columns = |j: int| sum(|i: int| f(i, j), m);
    if m == 0 {
        lemma_sum_zero(columns, n);
    } else {
        let k = (m - 1) as nat;
        let shorter = |j: int| sum(|i: int| f(i, j), k);
        let last = |j: int| f(k as int, j);
        lemma_sum_exchange(f, k, n);
        assert(sum(rows, m) == sum(rows, k).plus_spec(rows(m - 1)));
        lemma_sum_plus(shorter, last, n);
        assert forall|j: int| 0 <= j < n implies #[trigger] columns(j)
            == shorter(j).plus_spec(last(j)) by {
            let column = |i: int| f(i, j);
            assert(sum(column, m) == sum(column, k).plus_spec(column(m - 1)));
        }
        lemma_sum_same(columns, |j: int| shorter(j).plus_spec(last(j)), n);
        lemma_sum_same(last, |j: int| f(m - 1, j), n);
    }
}

/// Quotient and remainder of `n * i + j` by `n`.
pub proof fn lemma_div_mod_of(i: int, j: int, n: int)
    requires
        0 <= j < n,
    ensures
        (i * n + j) / n == i,
        (i * n + j) % n == j,
{
    lemma_fundamental_div_mod_converse(i * n + j, n, i, j);
}

/// The bounds of quotient and remainder of a number below `m * n`.
pub proof fn lemma_div_mod_bounds(k: int, m: int, n: int)
    requires
        0 <= k < m * n,
        0 <= m,
        0 < n,
    ensures
        0 <= k / n < m,
        0 <= k % n < n,
        k == (k / n) * n + k % n,
{
    lemma_fundamental_div_mod(k, n);
    lemma_mod_bound(k, n);
    lemma_div_pos_is_pos(k, n);
    assert(n * (k / n) == (k / n) * n) by (nonlinear_arith);
    if k / n >= m {
        assert((k / n) * n >= m * n) by (nonlinear_arith)
            requires
                k / n >= m,
                n > 0,
        ;
    }
}

/// A number put together from a row below `m` and a column below `n` is below `m * n`.
pub proof fn lemma_flat_bound(i: int, j: int, m: int, n: int)
    requires
        0 <= i < m,
        0 <= j < n,
    ensures
        0 <= i * n + j < m * n,
{
    assert(i * n + n <= m * n) by (nonlinear_arith)
        requires
            i + 1 <= m,
            0 < n,
    ;
    assert(0 <= i * n) by (nonlinear_arith)
        requires
            0 <= i,
            0 < n,
    ;
}

/// One summation over all pairs is two summations.
pub proof fn lemma_sum_pairs<T: ExactScalar>(f: spec_fn(int, int) -> T, m: nat, n: nat)
    requires
        0 < n,
    ensures
        sum(|k: int| f(k / (n as int), k % (n as int)), m * n) == sum(
            |i: int| sum(|j: int| f(i, j), n),
            m,
        ),
    decreases m,
{
    let flat = |k: int| f(k / (n as int), k % (n as int));
    let rows = |i: int| sum(|j: int| f(i, j), n);
    if m == 0 {
        assert(m * n == 0) by (nonlinear_arith)
            requires
                m == 0,
        ;
    } else {
        let p = (m - 1) as nat;
        lemma_sum_pairs(f, p, n);
        assert(m * n == p * n + n) by (nonlinear_arith)
            requires
                m == p + 1,
        ;
        lemma_sum_append(flat, p * n, n);
        let row = |j: int| f(p as int, j);
        assert forall|j: int| 0 <= j < n implies flat((p * n) + j) == #[trigger] row(j) by {
            lemma_div_mod_of(p as int, j, n as int);
        }
        lemma_sum_same(|j: int| flat((p * n) + j), row, n);
        assert(rows(m - 1) == sum(row, n)) by {
            lemma_sum_same(row, |j: int| f(m - 1, j), n);
        }
    }
}

/// Equal terms add up to a multiple.
pub proof fn lemma_sum_constant<T: ExactScalar>(f: spec_fn(int) -> T, c: T, n: nat)
    requires
        forall|i: int| 0 <= i < n ==> #[trigger] f(i) == c,
    ensures
        sum(f, n) == T::natural_spec(n).times_spec(c),
    decreases n,
{
    if n == 0 {
        lemma_natural_zero::<T>();
        lemma_times_zero(c);
    } else {
        let m = (n - 1) as nat;
        lemma_sum_constant(f, c, m);
        assert(f(n - 1) == c);
        T::natural_plus(m, 1);
        T::natural_one();
        T::times_distributes(c, T::natural_spec(m), T::one_spec());
        T::times_one(c);
        T::times_commutes(c, T::natural_spec(m));
        T::times_commutes(c, T::natural_spec(n));
    }
}

/// Whether `s` takes each of `0`, ..., `n - 1` to another of them.
pub open spec fn permutes(s: spec_fn(int) -> int, n: nat) -> bool {
    &&& forall|i: int| 0 <= i < n ==> 0 <= #[trigger] s(i) < n
    &&& forall|i: int, j: int|
        0 <= i < n && 0 <= j < n && #[trigger] s(i) == #[trigger] s(j) ==> i == j
}

/// Some number is taken to `k`.
proof fn lemma_permutation_reaches(s: spec_fn(int) -> int, n: nat, k: int)
    requires
        permutes(s, n),
        0 <= k < n,
    ensures
        exists|i: int| 0 <= i < n && #[trigger] s(i) == k,
{
    let all = vstd::set_lib::set_int_range(0, n as int);
    vstd::set_lib::lemma_int_range(0, n as int);
    let image = all.map(s);
    vstd::set_lib::lemma_map_size(all, image, s);
    assert(image.subset_of(all)) by {
        assert forall|x: int| image.contains(x) implies all.contains(x) by {
            let i = choose|i: int| all.contains(i) && x == s(i);
        }
    }
    vstd::set_lib::lemma_subset_equality(image, all);
    assert(image.contains(k));
    let i = choose|i: int| all.contains(i) && k == s(i);
    assert(s(i) == k);
}

/// The order of the terms does not matter.
pub proof fn lemma_sum_permuted<T: ExactScalar>(
    f: spec_fn(int) -> T,
    s: spec_fn(int) -> int,
    n: nat,
)
    requires
        permutes(s, n),
    ensures
        sum(|i: int| f(s(i)), n) == sum(f, n),
    decreases n,
{
    let g = |i: int| f(s(i));
    if n > 0 {
        let m = (n - 1) as nat;
        lemma_permutation_reaches(s, n, m as int);
        let k = choose|i: int| 0 <= i < n && #[trigger] s(i) == m;
        // `t` takes `k` to where `s` takes the last number.
        let t = |i: int|
            if i == k {
                s(m as int)
            } else {
                s(i)
            };
        assert(permutes(t, m)) by {
            assert forall|i: int| 0 <= i < m implies 0 <= #[trigger] t(i) < m by {
                assert(0 <= s(i) < n);
                assert(0 <= s(m as int) < n);
                assert(s(k) == m);
            }
            assert forall|i: int, j: int|
                0 <= i < m && 0 <= j < m && #[trigger] t(i) == #[trigger] t(j) implies i == j by {
                assert(s(i) == s(i) && s(j) == s(j) && s(m as int) == s(m as int));
            }
        }
        lemma_sum_permuted(f, t, m);
        let h = |i: int| f(t(i));
        if k == m {
            lemma_sum_same(g, h, m);
        } else {
            lemma_sum_replace(g, h, m, k);
            T::plus_associates(
                sum_without(g, m, k),
                f(m as int),
                f(s(m as int)),
            );
            T::plus_commutes(f(m as int), f(s(m as int)));
            T::plus_associates(
                sum_without(g, m, k),
                f(s(m as int)),
                f(m as int),
            );
            assert(g(k) == f(m as int));
            assert(h(k) == f(s(m as int)));
            assert(g(n - 1) == f(s(m as int)));
        }
    }
}

/// The terms with the one at `k` replaced by zero.
spec fn without<T: Scalar>(f: spec_fn(int) -> T, k: int) -> spec_fn(int) -> T {
    |i: int|
        if i == k {
            T::zero_spec()
        } else {
            f(i)
        }
}

/// The sum of all terms but the one at `k`.
spec fn sum_without<T: Scalar>(f: spec_fn(int) -> T, n: nat, k: int) -> T {
    sum(without(f, k), n)
}

/// The term at `k` can be added last.
proof fn lemma_sum_take_out<T: ExactScalar>(f: spec_fn(int) -> T, n: nat, k: int)
    requires
        0 <= k < n,
    ensures
        sum(f, n) == sum_without(f, n, k).plus_spec(f(k)),
{
    let rest = without(f, k);
    let alone = |i: int|
        if i == k {
            f(k)
        } else {
            T::zero_spec()
        };
    lemma_sum_plus(rest, alone, n);
    lemma_sum_single(alone, n, k);
    assert forall|i: int| 0 <= i < n implies #[trigger] f(i) == rest(i).plus_spec(alone(i)) by {
        lemma_zero_plus(f(i));
    }
    lemma_sum_same(f, |i: int| rest(i).plus_spec(alone(i)), n);
}

/// Two sums that differ at `k` alone have the rest in common.
proof fn lemma_sum_replace<T: ExactScalar>(
    f: spec_fn(int) -> T,
    g: spec_fn(int) -> T,
    n: nat,
    k: int,
)
    requires
        0 <= k < n,
        forall|i: int| 0 <= i < n && i != k ==> #[trigger] f(i) == g(i),
    ensures
        sum(f, n) == sum_without(f, n, k).plus_spec(f(k)),
        sum(g, n) == sum_without(f, n, k).plus_spec(g(k)),
{
    lemma_sum_take_out(f, n, k);
    lemma_sum_take_out(g, n, k);
    assert forall|i: int| 0 <= i < n implies #[trigger] without(f, k)(i) == without(g, k)(i) by {
        if i != k {
            assert(f(i) == g(i));
        }
    }
    lemma_sum_same(without(f, k), without(g, k), n);
}

} // verus!
