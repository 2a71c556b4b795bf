//! Partial traces one after the other.
use crate::binary::{
    all_binary, lemma_binary_digits, lemma_from_to_binary, lemma_to_from_binary, to_binary,
};
use crate::laws::algebra::lemma_same_entries;
use crate::laws::evolution::all_below;
use crate::laws::partial_trace::{
    lemma_from_binary_concat, lemma_joint_digit, lemma_reduced_entry, lemma_remaining_contains,
    lemma_remaining_distinct,
};
use crate::matrix::{
    entry, joint_digits, joint_row, lemma_joint_row_bound, lemma_remaining_bounds,
    lemma_remaining_count, reduced, reduced_terms, remaining,
};
use crate::scalar::ExactScalar;
use crate::sums::{lemma_div_mod_bounds, lemma_sum_exchange, lemma_sum_pairs, lemma_sum_same, sum};
use vstd::arithmetic::power2::*;
use vstd::prelude::*;

verus! {

/// The qubits among `n` that are traced out first, and those that the numbers
/// of the second list mean among the qubits that are left.
pub open spec fn traced_in_turn(n: nat, first: Seq<usize>, second: Seq<usize>) -> Seq<usize> {
    first + second.map_values(|b: usize| remaining(n, first)[b as int])
}

/// Whether the qubit `q` is listed in `left` at a place that `second` names.
spec fn named(left: Seq<usize>, second: Seq<usize>, q: usize) -> bool {
    exists|b: int| 0 <= b < left.len() && #[trigger] left[b] == q && second.contains(b as usize)
}

/// What is left after both partial traces.
proof fn lemma_left_in_turn(n: nat, first: Seq<usize>, second: Seq<usize>, all: Seq<usize>)
    requires
        n <= usize::MAX,
        forall|q: usize|
            q < n ==> #[trigger] all.contains(q) == (first.contains(q) || named(
                remaining(n, first),
                second,
                q,
            )),
    ensures
        remaining(n, all) == remaining(remaining(n, first).len(), second).map_values(
            |b: usize| remaining(n, first)[b as int],
        ),
    decreases n,
{
    let left = remaining(n, first);
    let right = remaining(left.len(), second).map_values(|b: usize| left[b as int]);
    if n == 0 {
        assert(remaining(n, all) =~= right);
    } else {
        let m = (n - 1) as nat;
        let before = remaining(m, first);
        lemma_remaining_bounds(m, first);
        lemma_remaining_bounds(n, first);
        assert forall|q: usize| q < m implies #[trigger] all.contains(q) == (first.contains(q)
            || named(before, second, q)) by {
            if named(left, second, q) {
                let b = choose|b: int|
                    0 <= b < left.len() && #[trigger] left[b] == q && second.contains(b as usize);
                assert(before[b] == q);
            }
            if named(before, second, q) {
                let b = choose|b: int|
                    0 <= b < before.len() && #[trigger] before[b] == q && second.contains(
                        b as usize,
                    );
                assert(left[b] == q);
            }
        }
        lemma_left_in_turn(m, first, second, all);
        let shorter = remaining(before.len(), second).map_values(|b: usize| before[b as int]);
        assert(all.contains(m as usize) == (first.contains(m as usize) || named(
            left,
            second,
            m as usize,
        )));
        if first.contains(m as usize) {
            assert(left == before);
            assert(right =~= shorter);
        } else {
            let l = before.len();
            assert(left == before.push(m as usize));
            lemma_remaining_bounds(l, second);
            assert(named(left, second, m as usize) == second.contains(l as usize)) by {
                assert(left[l as int] == m);
                if named(left, second, m as usize) {
                    let b = choose|b: int|
                        0 <= b < left.len() && #[trigger] left[b] == m && second.contains(
                            b as usize,
                        );
                    if b < l {
                        assert(before[b] < m);
                    }
                }
            }
            assert forall|k: int| 0 <= k < shorter.len() implies shorter[k] == right[k] by {
                let b = remaining(l, second)[k];
                assert(b < l);
                assert(left[b as int] == before[b as int]);
            }
            if second.contains(l as usize) {
                assert(right =~= shorter);
            } else {
                assert(right =~= shorter.push(m as usize));
            }
        }
    }
}

/// The qubits of both partial traces are distinct, and what is left is what the
/// second one leaves of the first one's.
proof fn lemma_traced_in_turn(n: nat, first: Seq<usize>, second: Seq<usize>)
    requires
        n <= usize::MAX,
        first.no_duplicates(),
        second.no_duplicates(),
        all_below(first, n),
        all_below(second, (n - first.len()) as nat),
        first.len() <= n,
    ensures
        traced_in_turn(n, first, second).no_duplicates(),
        all_below(traced_in_turn(n, first, second), n),
        remaining(n, first).len() == n - first.len(),
        remaining(n, traced_in_turn(n, first, second)) == remaining(
            (n - first.len()) as nat,
            second,
        ).map_values(|b: usize| remaining(n, first)[b as int]),
{
    let left = remaining(n, first);
    let all = traced_in_turn(n, first, second);
    let f = first.len();
    lemma_remaining_count(n, first);
    lemma_remaining_bounds(n, first);
    lemma_remaining_distinct(n, first);
    assert forall|k: int| 0 <= k < all.len() implies #[trigger] all[k] < n by {
        if k < f {
            assert(first[k] < n);
        } else {
            assert(second[k - f] < left.len());
            assert(left[second[k - f] as int] < n);
        }
    }
    assert forall|a: int, b: int| 0 <= a < b < all.len() implies all[a] != all[b] by {
        if b >= f {
            let y = second[b - f];
            assert(second[b - f] < left.len());
            if a < f {
                lemma_remaining_contains(n, first, left[y as int]);
                assert(left.contains(left[y as int]));
                assert(first.contains(first[a]));
            } else {
                assert(second[a - f] < left.len());
                assert(second[a - f] != second[b - f]);
            }
        }
    }
    assert forall|q: usize| q < n implies #[trigger] all.contains(q) == (first.contains(q) || named(
        left,
        second,
        q,
    )) by {
        if all.contains(q) {
            let k = all.index_of(q);
            if k < f {
                assert(first[k] == q);
            } else {
                let b = second[k - f];
                assert(second[k - f] < left.len());
                assert(left[b as int] == q);
                assert(second.contains(b));
            }
        }
        if first.contains(q) {
            let k = first.index_of(q);
            assert(all[k] == q);
        }
        if named(left, second, q) {
            let b = choose|b: int|
                0 <= b < left.len() && #[trigger] left[b] == q && second.contains(b as usize);
            let k = second.index_of(b as usize);
            assert(second[k] == b);
            assert(all[f + k] == q);
        }
    }
    lemma_left_in_turn(n, first, second, all);
}

/// The digits of two numbers one after the other.
proof fn lemma_to_binary_concat(a: nat, l: nat, b: nat, m: nat)
    requires
        a < pow2(l),
        b < pow2(m),
    ensures
        to_binary(a * pow2(m) + b, l + m) == to_binary(a, l) + to_binary(b, m),
{
    let digits = to_binary(a, l) + to_binary(b, m);
    lemma_binary_digits(a, l);
    lemma_binary_digits(b, m);
    assert(all_binary(digits));
    lemma_from_binary_concat(to_binary(a, l), to_binary(b, m));
    lemma_from_to_binary(a, l);
    lemma_from_to_binary(b, m);
    lemma_to_from_binary(digits);
}

/// The row that both partial traces lead to.
proof fn lemma_row_in_turn(n: nat, first: Seq<usize>, second: Seq<usize>, r: nat, a: nat, b: nat)
    requires
        n <= usize::MAX,
        first.no_duplicates(),
        second.no_duplicates(),
        all_below(first, n),
        all_below(second, (n - first.len()) as nat),
        first.len() <= n,
        a < pow2(first.len()),
        b < pow2(second.len()),
    ensures
        joint_row(n, first, joint_row((n - first.len()) as nat, second, r, b), a) == joint_row(
            n,
            traced_in_turn(n, first, second),
            r,
            a * pow2(second.len()) + b,
        ),
{
    let left = remaining(n, first);
    let all = traced_in_turn(n, first, second);
    let k1 = (n - first.len()) as nat;
    let f = first.len();
    let s = second.len();
    let t = a * pow2(s) + b;
    lemma_traced_in_turn(n, first, second);
    let inner = joint_digits(k1, second, r, b);
    let mid = joint_row(k1, second, r, b);
    lemma_joint_row_bound(k1, second, r, b);
    lemma_to_from_binary(inner);
    lemma_joint_digit(k1, second, r, b);
    lemma_joint_digit(n, first, mid, a);
    lemma_joint_digit(n, all, r, t);
    lemma_to_binary_concat(a, f, b, s);
    let x = joint_digits(n, first, mid, a);
    let y = joint_digits(n, all, r, t);
    let rest = remaining(k1, second);
    let end = remaining(n, all);
    assert(all.len() == f + s);
    assert forall|q: int| 0 <= q < n implies x[q] == y[q] by {
        lemma_remaining_contains(n, first, q as usize);
        if first.contains(q as usize) {
            let c = first.index_of(q as usize);
            assert(first[c] == q);
            assert(all[c] == q);
            assert(x[first[c] as int] == to_binary(a, f)[c]);
            assert(y[all[c] as int] == to_binary(t, f + s)[c]);
        } else {
            let k = left.index_of(q as usize);
            assert(left[k] == q);
            assert(x[left[k] as int] == inner[k]);
            lemma_remaining_contains(k1, second, k as usize);
            if second.contains(k as usize) {
                let c = second.index_of(k as usize);
                assert(second[c] == k);
                assert(all[f + c] == q);
                assert(inner[second[c] as int] == to_binary(b, s)[c]);
                assert(y[all[f + c] as int] == to_binary(t, f + s)[f + c]);
            } else {
                let c = rest.index_of(k as usize);
                assert(rest[c] == k);
                assert(end[c] == q);
                assert(inner[rest[c] as int] == to_binary(r, rest.len())[c]);
                assert(y[end[c] as int] == to_binary(r, end.len())[c]);
            }
        }
    }
    assert(x =~= y);
}

/// Two partial traces one after the other are the partial trace over the qubits
/// of both.
pub proof fn law_ptrace_in_turn<T: ExactScalar>(
    m: Seq<T>,
    n: nat,
    first: Seq<usize>,
    second: Seq<usize>,
)
    requires
        n <= usize::MAX,
        first.no_duplicates(),
        second.no_duplicates(),
        all_below(first, n),
        first.len() <= n,
        all_below(second, (n - first.len()) as nat),
    ensures
        reduced(reduced(m, n, first), (n - first.len()) as nat, second) == reduced(
            m,
            n,
            traced_in_turn(n, first, second),
        ),
{
    let k1 = (n - first.len()) as nat;
    let all = traced_in_turn(n, first, second);
    let once = reduced(m, n, first);
    lemma_traced_in_turn(n, first, second);
    let size = pow2(remaining(n, all).len());
    let v = pow2(first.len());
    let w = pow2(second.len());
    lemma_pow2_adds(first.len(), second.len());
    lemma_pow2_pos(second.len());
    let left = reduced(once, k1, second);
    let right = reduced(m, n, all);
    assert forall|i: int, j: int| 0 <= i < size && 0 <= j < size implies #[trigger] entry(
        left,
        size,
        i,
        j,
    ) == entry(right, size, i, j) by {
        lemma_reduced_entry(once, k1, second, i, j);
        lemma_reduced_entry(m, n, all, i, j);
        let g = reduced_terms(m, n, all, i, j);
        let h = |a: int, b: int| g(a * w + b);
        let f = reduced_terms(once, k1, second, i, j);
        let columns = |b: int| sum(|a: int| h(a, b), v);
        assert forall|b: int| 0 <= b < w implies #[trigger] f(b) == columns(b) by {
            let x = joint_row(k1, second, i as nat, b as nat) as int;
            let y = joint_row(k1, second, j as nat, b as nat) as int;
            lemma_joint_row_bound(k1, second, i as nat, b as nat);
            lemma_joint_row_bound(k1, second, j as nat, b as nat);
            lemma_reduced_entry(m, n, first, x, y);
            let e = reduced_terms(m, n, first, x, y);
            let terms = |a: int| h(a, b);
            assert forall|a: int| 0 <= a < v implies #[trigger] e(a) == terms(a) by {
                lemma_row_in_turn(n, first, second, i as nat, a as nat, b as nat);
                lemma_row_in_turn(n, first, second, j as nat, a as nat, b as nat);
            }
            lemma_sum_same(e, terms, v);
        }
        lemma_sum_same(f, columns, w);
        lemma_sum_exchange(h, v, w);
        lemma_sum_pairs(h, v, w);
        let flat = |k: int| h(k / (w as int), k % (w as int));
        assert forall|k: int| 0 <= k < v * w implies #[trigger] flat(k) == g(k) by {
            lemma_div_mod_bounds(k, v as int, w as int);
        }
        lemma_sum_same(flat, g, v * w);
    }
    lemma_same_entries(left, right, size);
}

} // verus!
