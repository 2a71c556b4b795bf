//! What can be seen of some of the qubits.
use crate::binary::{from_binary, lemma_from_to_binary, lemma_to_from_binary, to_binary};
use crate::bits::{bit, lemma_bit_step, lemma_bits_determine};
use crate::laws::algebra::lemma_same_entries;
use crate::laws::evolution::{
    all_below, column_product, identity_entry, lemma_evolved_entry, lemma_evolved_rows,
    lemma_positions_of, unitary,
};
use crate::laws::expectation::{digit_column, law_expectation_value, near_row, with_digit};
use crate::laws::linear::{
    applied, column, dot, lemma_dot_associates, lemma_dot_commutes, lemma_dot_pick, lemma_dot_same,
    passed, row,
};
use crate::laws::partial_trace::{
    lemma_joint_digit, lemma_listed_rows_permute, lemma_reduced_entry, lemma_remaining_contains,
    listed_row,
};
use crate::matrix::{
    entry, evolved, evolved_at, expectation_terms, joint_digits, joint_row, lemma_joint_row_bound,
    lemma_remaining_count, lemma_remaining_same, positions_of, reduced, reduced_entry,
    reduced_terms, remaining,
};
use crate::positions::{
    gather, inserted, lemma_gather_bits, lemma_inserted_bits, lemma_inserted_bound,
    lemma_inserted_digit, listed, marked,
};
use crate::scalar::{lemma_one_times, ExactScalar};
use crate::sums::{
    is_some_sum, lemma_sum_exchange, lemma_sum_pairs, lemma_sum_permuted, lemma_sum_same, permutes,
    sum,
};
use vstd::arithmetic::power2::*;
use vstd::prelude::*;

verus! {

/// The low `m` digits of a number in the opposite order.
pub open spec fn reversed(m: nat, t: nat) -> nat {
    from_binary(Seq::new(m, |k: int| bit(t, k as nat) as u8))
}

/// The digits of a number with the order reversed.
proof fn lemma_reversed_bit(m: nat, t: nat, k: nat)
    requires
        k < m,
    ensures
        reversed(m, t) < pow2(m),
        bit(reversed(m, t), k) == bit(t, (m - 1 - k) as nat),
{
    let digits = Seq::new(m, |k: int| bit(t, k as nat) as u8);
    assert forall|k: int| 0 <= k < m implies #[trigger] digits[k] <= 1 by {
        lemma_bit_step(t, k as nat);
    }
    lemma_to_from_binary(digits);
    lemma_bit_step(t, (m - 1 - k) as nat);
    lemma_bit_step(reversed(m, t), k);
    assert(to_binary(reversed(m, t), m)[m - 1 - k] == digits[m - 1 - k]);
}

/// Reversing the digits twice gives the number back.
proof fn lemma_reversed_twice(m: nat, t: nat)
    requires
        t < pow2(m),
    ensures
        reversed(m, t) < pow2(m),
        reversed(m, reversed(m, t)) == t,
{
    let r = reversed(m, t);
    let s = reversed(m, r);
    if m == 0 {
        lemma2_to64();
        assert(Seq::new(m, |k: int| bit(t, k as nat) as u8).len() == 0);
        assert(Seq::new(m, |k: int| bit(r, k as nat) as u8).len() == 0);
    } else {
        lemma_reversed_bit(m, t, 0);
        lemma_reversed_bit(m, r, 0);
        assert forall|k: nat| k < m implies bit(s, k) == bit(t, k) by {
            lemma_reversed_bit(m, r, k);
            lemma_reversed_bit(m, t, (m - 1 - k) as nat);
        }
        lemma_bits_determine(s, t, m);
    }
}

/// The order of the digits can be reversed in a sum over all numbers.
proof fn lemma_reversed_permutes(m: nat)
    ensures
        permutes(|t: int| reversed(m, t as nat) as int, pow2(m)),
{
    let s = |t: int| reversed(m, t as nat) as int;
    assert forall|t: int| 0 <= t < pow2(m) implies 0 <= #[trigger] s(t) < pow2(m) by {
        lemma_reversed_twice(m, t as nat);
    }
    assert forall|a: int, b: int|
        0 <= a < pow2(m) && 0 <= b < pow2(m) && #[trigger] s(a) == #[trigger] s(b) implies a
        == b by {
        lemma_reversed_twice(m, a as nat);
        lemma_reversed_twice(m, b as nat);
    }
}

/// The digit of a joint row that belongs to a qubit.
pub proof fn lemma_joint_bit(n: nat, traced: Seq<usize>, r: nat, t: nat, q: nat)
    requires
        n <= usize::MAX,
        all_below(traced, n),
        q < n,
    ensures
        joint_row(n, traced, r, t) < pow2(n),
        bit(joint_row(n, traced, r, t), (n - 1 - q) as nat) == joint_digits(
            n,
            traced,
            r,
            t,
        )[q as int],
{
    let digits = joint_digits(n, traced, r, t);
    let x = joint_row(n, traced, r, t);
    lemma_joint_row_bound(n, traced, r, t);
    lemma_to_from_binary(digits);
    lemma_bit_step(x, (n - 1 - q) as nat);
    assert(to_binary(x, n)[q as int] == digits[q as int]);
}

/// The traced qubits of a joint row hold the digits of `t`, the first qubit the
/// most significant one.
proof fn lemma_gather_joint(n: nat, traced: Seq<usize>, r: nat, t: nat)
    requires
        n <= usize::MAX,
        traced.no_duplicates(),
        all_below(traced, n),
        t < pow2(traced.len()),
    ensures
        gather(joint_row(n, traced, r, t), positions_of(n, traced)) == reversed(traced.len(), t),
{
    let pos = positions_of(n, traced);
    let m = traced.len();
    let x = joint_row(n, traced, r, t);
    let g = gather(x, pos);
    let s = reversed(m, t);
    lemma_gather_bits(x, pos);
    lemma_reversed_twice(m, t);
    lemma_joint_digit(n, traced, r, t);
    assert forall|k: nat| k < m implies bit(g, k) == bit(s, k) by {
        lemma_reversed_bit(m, t, k);
        let q = traced[k as int];
        assert(traced[k as int] < n);
        assert(pos[k as int] == n - 1 - q);
        lemma_joint_bit(n, traced, r, t, q as nat);
        lemma_bit_step(t, (m - 1 - k) as nat);
        assert(bit(g, k) == bit(x, pos[k as int] as nat));
    }
    lemma_bits_determine(g, s, m);
}

/// Writing into the traced qubits of a joint row.
proof fn lemma_insert_joint(n: nat, traced: Seq<usize>, r: nat, t: nat, p: nat)
    requires
        n <= usize::MAX,
        traced.no_duplicates(),
        all_below(traced, n),
        p < pow2(traced.len()),
    ensures
        inserted(joint_row(n, traced, r, t), positions_of(n, traced), p) == joint_row(
            n,
            traced,
            r,
            reversed(traced.len(), p),
        ),
{
    let pos = positions_of(n, traced);
    let m = traced.len();
    let kept = remaining(n, traced);
    let x = joint_row(n, traced, r, t);
    let s = reversed(m, p);
    let left = inserted(x, pos, p);
    let right = joint_row(n, traced, r, s);
    lemma_positions_of(n, traced);
    lemma_joint_row_bound(n, traced, r, t);
    lemma_joint_row_bound(n, traced, r, s);
    lemma_inserted_bound(x, pos, p, n);
    lemma_joint_digit(n, traced, r, t);
    lemma_joint_digit(n, traced, r, s);
    assert forall|b: nat| b < n implies bit(left, b) == bit(right, b) by {
        let q = (n - 1 - b) as nat;
        lemma_joint_bit(n, traced, r, t, q);
        lemma_joint_bit(n, traced, r, s, q);
        lemma_inserted_bits(x, pos, p, b);
        lemma_remaining_contains(n, traced, q as usize);
        if traced.contains(q as usize) {
            let k = traced.index_of(q as usize);
            assert(traced[k] == q);
            assert(pos[k] == b);
            lemma_inserted_digit(x, pos, p, k);
            lemma_reversed_bit(m, p, (m - 1 - k) as nat);
            lemma_bit_step(s, (m - 1 - k) as nat);
            assert((m - 1 - (m - 1 - k)) == k);
        } else {
            let k = kept.index_of(q as usize);
            assert(kept[k] == q);
            assert(!listed(pos, b)) by {
                if listed(pos, b) {
                    let c = choose|c: int| 0 <= c < pos.len() && #[trigger] pos[c] == b;
                    assert(traced[c] < n);
                    assert(traced[c] == q);
                }
            }
            if marked(pos, p, b) {
                let c = choose|c: int|
                    0 <= c < pos.len() && #[trigger] pos[c] == b && bit(p, c as nat) == 1;
                assert(pos[c] == b);
            }
        }
    }
    lemma_bits_determine(left, right, n);
}

/// A unitary operator on some qubits does not change what is seen of the others.
pub proof fn law_evolve_hides_from_others<T: ExactScalar>(
    m: Seq<T>,
    n: nat,
    u: Seq<T>,
    targets: Seq<usize>,
)
    requires
        n <= usize::MAX,
        all_below(targets, n),
        targets.no_duplicates(),
        unitary(u, pow2(targets.len())),
    ensures
        reduced(evolved(m, n, u, targets), n, targets) == reduced(m, n, targets),
{
    let size = pow2(remaining(n, targets).len());
    let after = evolved(m, n, u, targets);
    let left = reduced(after, n, targets);
    let right = reduced(m, n, targets);
    assert forall|i: int, j: int| 0 <= i < size && 0 <= j < size implies #[trigger] entry(
        left,
        size,
        i,
        j,
    ) == entry(right, size, i, j) by {
        lemma_reduced_entry(after, n, targets, i, j);
        lemma_reduced_entry(m, n, targets, i, j);
        lemma_hidden_entry(m, n, u, targets, i as nat, j as nat);
    }
    lemma_same_entries(left, right, size);
}

/// One entry of the partial trace before and after a unitary operator.
proof fn lemma_hidden_entry<T: ExactScalar>(
    m: Seq<T>,
    n: nat,
    u: Seq<T>,
    targets: Seq<usize>,
    i: nat,
    j: nat,
)
    requires
        n <= usize::MAX,
        all_below(targets, n),
        targets.no_duplicates(),
        unitary(u, pow2(targets.len())),
    ensures
        reduced_entry(evolved(m, n, u, targets), n, targets, i as int, j as int) == reduced_entry(
            m,
            n,
            targets,
            i as int,
            j as int,
        ),
{
    let pos = positions_of(n, targets);
    let e = targets.len();
    let d = pow2(e);
    let after = evolved_at(m, n, u, pos);
    let s = |t: int| reversed(e, t as nat) as int;
    lemma_reversed_permutes(e);
    let op = |r: int, c: int| entry(u, d, r, c);
    let oc = |r: int, c: int| entry(u, d, r, c).conj_spec();
    // The entries by the digits of the traced qubits, the first the least significant.
    let x = |p: int, q: int|
        entry(
            m,
            pow2(n),
            joint_row(n, targets, i, reversed(e, p as nat)) as int,
            joint_row(n, targets, j, reversed(e, q as nat)) as int,
        );
    let f = |b: int| dot(row(op, b), applied(x, row(oc, b), d), d);
    let terms = reduced_terms(after, n, targets, i as int, j as int);
    assert forall|t: int| 0 <= t < d implies #[trigger] terms(t) == f(s(t)) by {
        let a = joint_row(n, targets, i, t as nat);
        let b = joint_row(n, targets, j, t as nat);
        lemma_joint_row_bound(n, targets, i, t as nat);
        lemma_joint_row_bound(n, targets, j, t as nat);
        lemma_evolved_entry(m, n, u, pos, a as int, b as int);
        lemma_gather_joint(n, targets, i, t as nat);
        lemma_gather_joint(n, targets, j, t as nat);
        assert forall|p: int, q: int| 0 <= p < d && 0 <= q < d implies #[trigger] x(p, q) == entry(
            m,
            pow2(n),
            inserted(a, pos, p as nat) as int,
            inserted(b, pos, q as nat) as int,
        ) by {
            lemma_insert_joint(n, targets, i, t as nat, p as nat);
            lemma_insert_joint(n, targets, j, t as nat, q as nat);
        }
        lemma_evolved_rows(m, n, u, pos, a as int, b as int, op, x, oc);
    }
    lemma_sum_same(terms, |t: int| f(s(t)), d);
    lemma_sum_permuted(f, s, d);
    // Now the sum over `b` is taken first.
    let h = |b: int, p: int| op(b, p).times_spec(applied(x, row(oc, b), d)(p));
    lemma_sum_exchange(h, d, d);
    let rows = |b: int| sum(|p: int| h(b, p), d);
    assert forall|b: int| 0 <= b < d implies #[trigger] f(b) == rows(b) by {
        lemma_sum_same(
            |p: int| row(op, b)(p).times_spec(applied(x, row(oc, b), d)(p)),
            |p: int| h(b, p),
            d,
        );
    }
    lemma_sum_same(f, rows, d);
    let columns = |p: int| sum(|b: int| h(b, p), d);
    let before = reduced_terms(m, n, targets, i as int, j as int);
    assert forall|p: int| 0 <= p < d implies #[trigger] columns(p) == before(s(p)) by {
        let z = row(x, p);
        let a = column(op, p);
        let c = applied(oc, z, d);
        assert forall|b: int| 0 <= b < d implies #[trigger] c(b) == applied(x, row(oc, b), d)(p) by {
            lemma_dot_commutes(row(oc, b), z, d);
        }
        let products = |b: int| a(b).times_spec(c(b));
        assert forall|b: int| 0 <= b < d implies #[trigger] h(b, p) == products(b) by {
            assert(c(b) == applied(x, row(oc, b), d)(p));
        }
        lemma_sum_same(|b: int| h(b, p), products, d);
        lemma_dot_associates(a, oc, z, d, d);
        let through = passed(a, oc, d);
        assert forall|q: int| 0 <= q < d implies #[trigger] through(q) == identity_entry::<T>(
            p,
            q,
        ) by {
            lemma_dot_same(
                a,
                column(oc, q),
                |b: int| entry(u, d, b, p),
                |b: int| entry(u, d, b, q).conj_spec(),
                d,
            );
            assert(column_product(u, d, p, q) == identity_entry::<T>(p, q));
        }
        lemma_dot_pick(through, z, d, p);
    }
    lemma_sum_same(columns, |p: int| before(s(p)), d);
    lemma_sum_permuted(before, s, d);
}

/// The number whose digit for the qubit `to[k]` is the digit of `t` for the same
/// qubit in the list `from`.
pub open spec fn relisted(from: Seq<usize>, to: Seq<usize>, t: nat) -> nat {
    from_binary(
        Seq::new(to.len(), |k: int| to_binary(t, from.len())[from.index_of(to[k])]),
    )
}

/// The digits of a relisted number.
proof fn lemma_relisted(from: Seq<usize>, to: Seq<usize>, t: nat)
    requires
        forall|q: usize| to.contains(q) ==> from.contains(q),
    ensures
        relisted(from, to, t) < pow2(to.len()),
        to_binary(relisted(from, to, t), to.len()) == Seq::new(
            to.len(),
            |k: int| to_binary(t, from.len())[from.index_of(to[k])],
        ),
{
    let digits = Seq::new(to.len(), |k: int| to_binary(t, from.len())[from.index_of(to[k])]);
    assert forall|k: int| 0 <= k < to.len() implies #[trigger] digits[k] <= 1 by {
        assert(to.contains(to[k]));
        let c = from.index_of(to[k]);
        assert(0 <= c < from.len());
        lemma_bit_step(t, (from.len() - 1 - c) as nat);
    }
    lemma_to_from_binary(digits);
}

/// Relisting leads to the same row.
proof fn lemma_relisted_row(n: nat, from: Seq<usize>, to: Seq<usize>, r: nat, t: nat)
    requires
        n <= usize::MAX,
        from.no_duplicates(),
        to.no_duplicates(),
        all_below(from, n),
        all_below(to, n),
        forall|q: usize| from.contains(q) == to.contains(q),
    ensures
        joint_row(n, from, r, t) == joint_row(n, to, r, relisted(from, to, t)),
{
    let s = relisted(from, to, t);
    lemma_remaining_same(n, from, to);
    lemma_joint_digit(n, from, r, t);
    lemma_joint_digit(n, to, r, s);
    lemma_relisted(from, to, t);
    let kept = remaining(n, from);
    let a = joint_digits(n, from, r, t);
    let b = joint_digits(n, to, r, s);
    assert forall|q: int| 0 <= q < n implies a[q] == b[q] by {
        lemma_remaining_contains(n, from, q as usize);
        if to.contains(q as usize) {
            let k = to.index_of(q as usize);
            let c = from.index_of(q as usize);
            assert(to[k] == q && from[c] == q);
            assert(a[from[c] as int] == to_binary(t, from.len())[c]);
            assert(b[to[k] as int] == to_binary(s, to.len())[k]);
        } else {
            let k = kept.index_of(q as usize);
            assert(kept[k] == q);
            assert(a[kept[k] as int] == b[kept[k] as int]);
        }
    }
    assert(a =~= b);
}

/// The order in which the traced qubits are listed does not matter.
pub proof fn law_ptrace_ignores_order<T: ExactScalar>(
    m: Seq<T>,
    n: nat,
    from: Seq<usize>,
    to: Seq<usize>,
)
    requires
        n <= usize::MAX,
        from.no_duplicates(),
        to.no_duplicates(),
        all_below(from, n),
        all_below(to, n),
        forall|q: usize| from.contains(q) == to.contains(q),
    ensures
        reduced(m, n, from) == reduced(m, n, to),
{
    lemma_remaining_same(n, from, to);
    lemma_remaining_count(n, from);
    lemma_remaining_count(n, to);
    let w = pow2(from.len());
    let size = pow2(remaining(n, from).len());
    let s = |t: int| relisted(from, to, t as nat) as int;
    assert(permutes(s, w)) by {
        assert forall|t: int| 0 <= t < w implies 0 <= #[trigger] s(t) < w by {
            lemma_relisted(from, to, t as nat);
        }
        assert forall|a: int, b: int|
            0 <= a < w && 0 <= b < w && #[trigger] s(a) == #[trigger] s(b) implies a == b by {
            lemma_relisted_injective(from, to, a as nat, b as nat);
        }
    }
    let left = reduced(m, n, from);
    let right = reduced(m, n, to);
    assert forall|i: int, j: int| 0 <= i < size && 0 <= j < size implies #[trigger] entry(
        left,
        size,
        i,
        j,
    ) == entry(right, size, i, j) by {
        lemma_reduced_entry(m, n, from, i, j);
        lemma_reduced_entry(m, n, to, i, j);
        let f = reduced_terms(m, n, from, i, j);
        let g = reduced_terms(m, n, to, i, j);
        assert forall|t: int| 0 <= t < w implies #[trigger] f(t) == g(s(t)) by {
            lemma_relisted_row(n, from, to, i as nat, t as nat);
            lemma_relisted_row(n, from, to, j as nat, t as nat);
        }
        lemma_sum_same(f, |t: int| g(s(t)), w);
        lemma_sum_permuted(g, s, w);
    }
    lemma_same_entries(left, right, size);
}

/// Different numbers are relisted differently.
proof fn lemma_relisted_injective(from: Seq<usize>, to: Seq<usize>, a: nat, b: nat)
    requires
        from.no_duplicates(),
        to.no_duplicates(),
        forall|q: usize| from.contains(q) == to.contains(q),
        a < pow2(from.len()),
        b < pow2(from.len()),
        relisted(from, to, a) == relisted(from, to, b),
    ensures
        a == b,
{
    lemma_relisted(from, to, a);
    lemma_relisted(from, to, b);
    let x = to_binary(a, from.len());
    let y = to_binary(b, from.len());
    let z = to_binary(relisted(from, to, a), to.len());
    assert forall|c: int| 0 <= c < from.len() implies x[c] == y[c] by {
        assert(from.contains(from[c]));
        let k = to.index_of(from[c]);
        assert(to[k] == from[c]);
        assert(from.index_of(to[k]) == c);
        assert(z[k] == x[c] && z[k] == y[c]);
    }
    assert(x =~= y);
    lemma_from_to_binary(a, from.len());
    lemma_from_to_binary(b, from.len());
}

/// Without rounding, the expectation value on a qubit is the trace of the partial
/// trace over all the others times the operator.
pub proof fn law_expectation_from_ptrace<T: ExactScalar>(
    m: Seq<T>,
    n: nat,
    op: spec_fn(int, int) -> T,
    qubit: usize,
    others: Seq<usize>,
    total: T,
)
    requires
        n <= usize::MAX,
        qubit < n,
        others.no_duplicates(),
        all_below(others, n),
        others.len() == n - 1,
        !others.contains(qubit),
        is_some_sum(
            expectation_terms(m, n, op, (n - qubit - 1) as nat),
            pow2(n) * pow2(n),
            total,
        ),
    ensures
        total == sum(
            |a: int|
                dot(row(|a: int, b: int| entry(reduced(m, n, others), 2, a, b), a), column(op, a), 2),
            2,
        ),
{
    let pos = (n - qubit - 1) as usize;
    let size = pow2(n);
    law_expectation_value(m, n, op, pos, total);
    lemma_remaining_count(n, others);
    lemma2_to64();
    let kept = remaining(n, others);
    assert(kept =~= seq![qubit]) by {
        lemma_remaining_contains(n, others, qubit);
        let k = kept.index_of(qubit);
        assert(kept[k] == qubit);
    }
    let w = pow2(others.len());
    let small = reduced(m, n, others);
    let f = |i: int| dot(near_row(m, n, pos, i), digit_column(op, pos, i), 2);
    let s = listed_row(n, others);
    lemma_listed_rows_permute(n, others);
    lemma_sum_permuted(f, s, size);
    lemma_pow2_pos(others.len());
    // The term of the digits `a` and `t`.
    let h = |a: int, t: int| f(joint_row(n, others, a as nat, t as nat) as int);
    let flat = |k: int| h(k / (w as int), k % (w as int));
    lemma_sum_same(|k: int| f(s(k)), flat, 2 * w);
    lemma_sum_pairs(h, 2, w);
    let rows = |a: int| sum(|t: int| h(a, t), w);
    let x = |a: int, b: int| entry(small, 2, a, b);
    let dots = |a: int| dot(row(x, a), column(op, a), 2);
    assert forall|a: int| 0 <= a < 2 implies #[trigger] rows(a) == dots(a) by {
        lemma_expectation_row(m, n, op, qubit, others, a);
        lemma_sum_same(
            |t: int| h(a, t),
            |t: int| f(joint_row(n, others, a as nat, t as nat) as int),
            w,
        );
        lemma_dot_same(
            row(x, a),
            column(op, a),
            row(|a: int, b: int| entry(reduced(m, n, others), 2, a, b), a),
            column(op, a),
            2,
        );
    }
    lemma_sum_same(rows, dots, 2);
    lemma_sum_same(
        dots,
        |a: int|
            dot(row(|a: int, b: int| entry(reduced(m, n, others), 2, a, b), a), column(op, a), 2),
        2,
    );
}

/// The terms of one value of the qubit.
proof fn lemma_expectation_row<T: ExactScalar>(
    m: Seq<T>,
    n: nat,
    op: spec_fn(int, int) -> T,
    qubit: usize,
    others: Seq<usize>,
    a: int,
)
    requires
        n <= usize::MAX,
        qubit < n,
        others.no_duplicates(),
        all_below(others, n),
        remaining(n, others) == seq![qubit],
        0 <= a < 2,
    ensures
        ({
            let pos = (n - qubit - 1) as usize;
            let f = |i: int| dot(near_row(m, n, pos, i), digit_column(op, pos, i), 2);
            sum(
                |t: int| f(joint_row(n, others, a as nat, t as nat) as int),
                pow2(others.len()),
            ) == dot(
                row(|a: int, b: int| entry(reduced(m, n, others), 2, a, b), a),
                column(op, a),
                2,
            )
        }),
{
    let pos = (n - qubit - 1) as usize;
    let w = pow2(others.len());
    let small = reduced(m, n, others);
    let f = |i: int| dot(near_row(m, n, pos, i), digit_column(op, pos, i), 2);
    let x = |a: int, b: int| entry(small, 2, a, b);
    let y = |t: int, b: int|
        entry(
            m,
            pow2(n),
            joint_row(n, others, a as nat, t as nat) as int,
            joint_row(n, others, b as nat, t as nat) as int,
        );
    let z = column(op, a);
    lemma2_to64();
    let ones = |t: int| T::one_spec();
    let terms = |t: int| f(joint_row(n, others, a as nat, t as nat) as int);
    let weighted = |t: int| ones(t).times_spec(applied(y, z, 2)(t));
    assert forall|t: int| 0 <= t < w implies #[trigger] terms(t) == weighted(t) by {
        let i = joint_row(n, others, a as nat, t as nat) as int;
        lemma_joint_row_digit(n, qubit, others, a, a, t as nat);
        lemma_one_times(applied(y, z, 2)(t));
        assert forall|b: int| 0 <= b < 2 implies #[trigger] near_row(m, n, pos, i)(b) == row(y, t)(
            b,
        ) by {
            lemma_joint_row_digit(n, qubit, others, a, b, t as nat);
        }
        lemma_dot_same(near_row(m, n, pos, i), digit_column(op, pos, i), row(y, t), z, 2);
    }
    lemma_sum_same(terms, weighted, w);
    lemma_dot_associates(ones, y, z, w, 2);
    let through = passed(ones, y, w);
    assert forall|b: int| 0 <= b < 2 implies #[trigger] through(b) == row(x, a)(b) by {
        lemma_reduced_entry(m, n, others, a, b);
        let g = reduced_terms(m, n, others, a, b);
        let scaled = |t: int| ones(t).times_spec(column(y, b)(t));
        assert forall|t: int| 0 <= t < w implies #[trigger] scaled(t) == g(t) by {
            lemma_one_times(column(y, b)(t));
        }
        lemma_sum_same(scaled, g, w);
    }
    lemma_dot_same(through, z, row(x, a), z, 2);
}

/// Replacing the digit of the one remaining qubit in a joint row.
proof fn lemma_joint_row_digit(
    n: nat,
    qubit: usize,
    others: Seq<usize>,
    a: int,
    b: int,
    t: nat,
)
    requires
        n <= usize::MAX,
        qubit < n,
        others.no_duplicates(),
        all_below(others, n),
        remaining(n, others) == seq![qubit],
        0 <= a < 2,
        0 <= b < 2,
    ensures
        bit(joint_row(n, others, a as nat, t), (n - qubit - 1) as nat) == a,
        with_digit(joint_row(n, others, a as nat, t) as int, (n - qubit - 1) as usize, b)
            == joint_row(n, others, b as nat, t),
{
    let p = (n - qubit - 1) as nat;
    let pos = p as usize;
    let s = seq![pos];
    let x = joint_row(n, others, a as nat, t);
    let y = joint_row(n, others, b as nat, t);
    let z = inserted(x, s, b as nat);
    let kept = remaining(n, others);
    lemma2_to64();
    lemma_joint_row_bound(n, others, a as nat, t);
    lemma_joint_row_bound(n, others, b as nat, t);
    lemma_joint_digit(n, others, a as nat, t);
    lemma_joint_digit(n, others, b as nat, t);
    lemma_joint_bit(n, others, a as nat, t, qubit as nat);
    lemma_joint_bit(n, others, b as nat, t, qubit as nat);
    lemma_bit_step(a as nat, 0);
    lemma_bit_step(b as nat, 0);
    assert(kept[0] == qubit);
    assert(all_below(s, n));
    lemma_inserted_bound(x, s, b as nat, n);
    lemma_inserted_digit(x, s, b as nat, 0);
    assert forall|k: nat| k < n implies bit(z, k) == bit(y, k) by {
        lemma_inserted_bits(x, s, b as nat, k);
        if k != p {
            let q = (n - 1 - k) as nat;
            assert(!listed(s, k));
            assert(!marked(s, b as nat, k));
            lemma_joint_bit(n, others, a as nat, t, q);
            lemma_joint_bit(n, others, b as nat, t, q);
            lemma_remaining_contains(n, others, q as usize);
            if !others.contains(q as usize) {
                let c = kept.index_of(q as usize);
                assert(kept[c] == q);
            }
            let c = others.index_of(q as usize);
            assert(others[c] == q);
        } else {
            assert(s[0] == p);
        }
    }
    lemma_bits_determine(z, y, n);
}

} // verus!
