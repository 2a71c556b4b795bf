//! Operators leave alone the qubits on which they do not act.
use crate::bits::{bit, lemma_bit_step, lemma_bits_determine};
use crate::laws::algebra::{lemma_kronecker_entry, lemma_same_entries};
use crate::laws::evolution::{all_below, lemma_evolved_entry, lemma_positions_of};
use crate::laws::linear::{
    applied, column, dot, lemma_dot_associates, lemma_dot_commutes, lemma_dot_same, passed, row,
};
use crate::matrix::{
    entry, evolved, evolved_at, evolved_entry, evolved_terms, kronecker, positions_of,
};
use crate::positions::{
    gather, inserted, lemma_gather_bits, lemma_inserted_bits, lemma_inserted_bound, listed, marked,
};
use crate::scalar::{lemma_times_interchange, ExactScalar, Scalar};
use crate::sums::{
    lemma_div_mod_bounds, lemma_div_mod_of, lemma_flat_bound, lemma_sum_pairs, lemma_sum_permuted,
    lemma_sum_same, lemma_sum_times, permutes, sum,
};
use vstd::arithmetic::div_mod::*;
use vstd::arithmetic::power2::*;
use vstd::prelude::*;

verus! {

/// The qubits of the second system among those of both.
pub open spec fn shifted(targets: Seq<usize>, by: nat) -> Seq<usize> {
    targets.map_values(|q: usize| (q + by) as usize)
}

/// The digits of a number put together from a high and a low part.
proof fn lemma_joined_bit(high: nat, low: nat, w: nat, k: nat)
    requires
        low < pow2(w),
    ensures
        bit(high * pow2(w) + low, k) == if k < w {
            bit(low, k)
        } else {
            bit(high, (k - w) as nat)
        },
    decreases k,
{
    let x = high * pow2(w) + low;
    lemma_pow2_pos(w);
    if k >= w {
        let e = (k - w) as nat;
        lemma_pow2_adds(w, e);
        lemma_pow2_pos(e);
        lemma_div_mod_of(high as int, low as int, pow2(w) as int);
        lemma_div_denominator(x as int, pow2(w) as int, pow2(e) as int);
    } else {
        let v = (w - 1) as nat;
        lemma_pow2_unfold(w);
        let p = pow2(v);
        assert(high * (2 * p) == 2 * (high * p)) by (nonlinear_arith);
        assert(x / 2 == high * p + low / 2);
        assert(x % 2 == low % 2);
        if k == 0 {
            lemma_bit_step(x, 0);
            lemma_bit_step(low, 0);
        } else {
            lemma_bit_step(x, (k - 1) as nat);
            lemma_bit_step(low, (k - 1) as nat);
            lemma_joined_bit(high, low / 2, v, (k - 1) as nat);
        }
    }
}

/// Gathered numbers are the same when the digits are.
proof fn lemma_gather_same(x: nat, p: Seq<usize>, y: nat, q: Seq<usize>)
    requires
        p.len() == q.len(),
        forall|k: int| 0 <= k < p.len() ==> bit(x, #[trigger] p[k] as nat) == bit(y, q[k] as nat),
    ensures
        gather(x, p) == gather(y, q),
{
    lemma_gather_bits(x, p);
    lemma_gather_bits(y, q);
    let a = gather(x, p);
    let b = gather(y, q);
    assert forall|k: nat| k < p.len() implies bit(a, k) == bit(b, k) by {
        assert(bit(a, k) == bit(x, p[k as int] as nat));
        assert(bit(b, k) == bit(y, q[k as int] as nat));
    }
    lemma_bits_determine(a, b, p.len());
}

/// Writing digits into the high part of a number.
proof fn lemma_insert_high(na: nat, nb: nat, targets: Seq<usize>, i: nat, p: nat)
    requires
        na + nb <= usize::MAX,
        all_below(targets, na),
        i < pow2(na + nb),
    ensures
        ({
            let big = positions_of(na + nb, targets);
            let small = positions_of(na, targets);
            let w = pow2(nb);
            &&& gather(i, big) == gather(i / w, small)
            &&& inserted(i, big, p) == inserted(i / w, small, p) * w + i % w
        }),
{
    let n = na + nb;
    let big = positions_of(n, targets);
    let small = positions_of(na, targets);
    let w = pow2(nb);
    lemma_pow2_adds(na, nb);
    lemma_pow2_pos(nb);
    lemma_div_mod_bounds(i as int, pow2(na) as int, w as int);
    let h = i / w;
    let l = i % w;
    assert(all_below(targets, n)) by {
        assert forall|k: int| 0 <= k < targets.len() implies #[trigger] targets[k] < n by {
            assert(targets[k] < na);
        }
    }
    lemma_positions_of(n, targets);
    lemma_positions_of(na, targets);
    assert forall|k: int| 0 <= k < big.len() implies #[trigger] big[k] == small[k] + nb by {
        assert(targets[k] < na);
    }
    assert forall|k: int| 0 <= k < big.len() implies bit(i, #[trigger] big[k] as nat) == bit(
        h,
        small[k] as nat,
    ) by {
        lemma_joined_bit(h, l, nb, big[k] as nat);
    }
    lemma_gather_same(i, big, h, small);
    let left = inserted(i, big, p);
    let part = inserted(h, small, p);
    let right = part * w + l;
    lemma_inserted_bound(i, big, p, n);
    lemma_inserted_bound(h, small, p, na);
    lemma_flat_bound(part as int, l as int, pow2(na) as int, w as int);
    assert forall|k: nat| k < n implies bit(left, k) == bit(right, k) by {
        lemma_joined_bit(part, l, nb, k);
        lemma_joined_bit(h, l, nb, k);
        lemma_inserted_bits(i, big, p, k);
        if k < nb {
            assert(!listed(big, k));
            assert(!marked(big, p, k));
        } else {
            let e = (k - nb) as nat;
            lemma_inserted_bits(h, small, p, e);
            assert(listed(big, k) == listed(small, e)) by {
                if listed(big, k) {
                    let c = choose|c: int| 0 <= c < big.len() && #[trigger] big[c] == k;
                    assert(small[c] == e);
                }
                if listed(small, e) {
                    let c = choose|c: int| 0 <= c < small.len() && #[trigger] small[c] == e;
                    assert(big[c] == k);
                }
            }
            assert(marked(big, p, k) == marked(small, p, e)) by {
                if marked(big, p, k) {
                    let c = choose|c: int|
                        0 <= c < big.len() && #[trigger] big[c] == k && bit(p, c as nat) == 1;
                    assert(small[c] == e);
                }
                if marked(small, p, e) {
                    let c = choose|c: int|
                        0 <= c < small.len() && #[trigger] small[c] == e && bit(p, c as nat) == 1;
                    assert(big[c] == k);
                }
            }
        }
    }
    lemma_bits_determine(left, right, n);
}

/// Writing digits into the low part of a number.
proof fn lemma_insert_low(na: nat, nb: nat, targets: Seq<usize>, i: nat, p: nat)
    requires
        na + nb <= usize::MAX,
        all_below(targets, nb),
        i < pow2(na + nb),
    ensures
        ({
            let pos = positions_of(nb, targets);
            let w = pow2(nb);
            &&& positions_of(na + nb, shifted(targets, na)) == pos
            &&& gather(i, pos) == gather(i % w, pos)
            &&& inserted(i, pos, p) == (i / w) * w + inserted(i % w, pos, p)
        }),
{
    let n = na + nb;
    let pos = positions_of(nb, targets);
    let w = pow2(nb);
    lemma_pow2_adds(na, nb);
    lemma_pow2_pos(nb);
    lemma_div_mod_bounds(i as int, pow2(na) as int, w as int);
    let h = i / w;
    let l = i % w;
    lemma_positions_of(nb, targets);
    assert(positions_of(n, shifted(targets, na)) =~= pos) by {
        let other = positions_of(n, shifted(targets, na));
        assert forall|k: int| 0 <= k < pos.len() implies other[k] == pos[k] by {
            assert(targets[k] < nb);
        }
    }
    assert forall|k: int| 0 <= k < pos.len() implies bit(i, #[trigger] pos[k] as nat) == bit(
        l,
        pos[k] as nat,
    ) by {
        lemma_joined_bit(h, l, nb, pos[k] as nat);
    }
    lemma_gather_same(i, pos, l, pos);
    let left = inserted(i, pos, p);
    let part = inserted(l, pos, p);
    let right = h * w + part;
    assert forall|k: int| 0 <= k < pos.len() implies #[trigger] pos[k] < n by {
        assert(pos[k] < nb);
    }
    lemma_inserted_bound(i, pos, p, n);
    lemma_inserted_bound(l, pos, p, nb);
    lemma_flat_bound(h as int, part as int, pow2(na) as int, w as int);
    assert forall|k: nat| k < n implies bit(left, k) == bit(right, k) by {
        lemma_joined_bit(h, part, nb, k);
        lemma_joined_bit(h, l, nb, k);
        lemma_inserted_bits(i, pos, p, k);
        lemma_inserted_bits(l, pos, p, k);
        if k >= nb {
            assert(!listed(pos, k));
            assert(!marked(pos, p, k));
        }
    }
    lemma_bits_determine(left, right, n);
}

/// Evolving qubits of the first of two systems evolves that system alone.
pub proof fn law_evolve_first_system<T: ExactScalar>(
    a: Seq<T>,
    na: nat,
    b: Seq<T>,
    nb: nat,
    u: Seq<T>,
    targets: Seq<usize>,
)
    requires
        na + nb <= usize::MAX,
        all_below(targets, na),
    ensures
        evolved(kronecker(a, pow2(na), b, pow2(nb)), na + nb, u, targets) == kronecker(
            evolved(a, na, u, targets),
            pow2(na),
            b,
            pow2(nb),
        ),
{
    let n = na + nb;
    let m = kronecker(a, pow2(na), b, pow2(nb));
    let small = positions_of(na, targets);
    let big = positions_of(n, targets);
    let ea = evolved_at(a, na, u, small);
    let left = evolved_at(m, n, u, big);
    let right = kronecker(ea, pow2(na), b, pow2(nb));
    let size = pow2(n);
    let w = pow2(nb) as int;
    lemma_pow2_adds(na, nb);
    lemma_pow2_pos(nb);
    lemma_pow2_pos(na);
    let d = pow2(small.len());
    lemma_pow2_pos(small.len());
    assert forall|i: int, j: int| 0 <= i < size && 0 <= j < size implies #[trigger] entry(
        left,
        size,
        i,
        j,
    ) == entry(right, size, i, j) by {
        lemma_div_mod_bounds(i, pow2(na) as int, w);
        lemma_div_mod_bounds(j, pow2(na) as int, w);
        lemma_evolved_entry(m, n, u, big, i, j);
        lemma_kronecker_entry(ea, pow2(na), b, pow2(nb), i, j);
        lemma_evolved_entry(a, na, u, small, i / w, j / w);
        let x = entry(b, pow2(nb), i % w, j % w);
        let f = evolved_terms(m, n, u, big, i, j);
        let g = evolved_terms(a, na, u, small, i / w, j / w);
        let h = |k: int| g(k).times_spec(x);
        assert forall|k: int| 0 <= k < d * d implies #[trigger] f(k) == h(k) by {
            lemma_div_mod_bounds(k, d as int, d as int);
            let p = k / (d as int);
            let q = k % (d as int);
            lemma_insert_high(na, nb, targets, i as nat, p as nat);
            lemma_insert_high(na, nb, targets, j as nat, q as nat);
            let ip = inserted((i / w) as nat, small, p as nat);
            let jq = inserted((j / w) as nat, small, q as nat);
            lemma_positions_of(na, targets);
            lemma_inserted_bound((i / w) as nat, small, p as nat, na);
            lemma_inserted_bound((j / w) as nat, small, q as nat, na);
            lemma_flat_bound(ip as int, i % w, pow2(na) as int, w);
            lemma_flat_bound(jq as int, j % w, pow2(na) as int, w);
            lemma_kronecker_entry(a, pow2(na), b, pow2(nb), ip * w + i % w, jq * w + j % w);
            lemma_div_mod_of(ip as int, i % w, w);
            lemma_div_mod_of(jq as int, j % w, w);
            lemma_factor_out(
                entry(u, d, gather(i as nat, big) as int, p),
                entry(a, pow2(na), ip as int, jq as int),
                x,
                entry(u, d, gather(j as nat, big) as int, q).conj_spec(),
            );
        }
        lemma_sum_same(f, h, d * d);
        lemma_sum_times(x, g, d * d);
        lemma_sum_same(h, |k: int| g(k).times_spec(x), d * d);
    }
    lemma_same_entries(left, right, size);
}

/// A factor in the middle of a product can be moved to the end or the front.
proof fn lemma_factor_out<T: ExactScalar>(l: T, y: T, x: T, r: T)
    ensures
        l.times_spec(y.times_spec(x)).times_spec(r) == l.times_spec(y).times_spec(r).times_spec(x),
        l.times_spec(x.times_spec(y)).times_spec(r) == x.times_spec(l.times_spec(y).times_spec(r)),
{
    T::times_associates(l, y, x);
    T::times_associates(l.times_spec(y), x, r);
    T::times_commutes(x, r);
    T::times_associates(l.times_spec(y), r, x);
    T::times_commutes(x, y);
    T::times_commutes(x, l.times_spec(y).times_spec(r));
}

/// Evolving qubits of the second of two systems evolves that system alone.
pub proof fn law_evolve_second_system<T: ExactScalar>(
    a: Seq<T>,
    na: nat,
    b: Seq<T>,
    nb: nat,
    u: Seq<T>,
    targets: Seq<usize>,
)
    requires
        na + nb <= usize::MAX,
        all_below(targets, nb),
    ensures
        evolved(kronecker(a, pow2(na), b, pow2(nb)), na + nb, u, shifted(targets, na))
            == kronecker(a, pow2(na), evolved(b, nb, u, targets), pow2(nb)),
{
    let n = na + nb;
    let m = kronecker(a, pow2(na), b, pow2(nb));
    let pos = positions_of(nb, targets);
    let eb = evolved_at(b, nb, u, pos);
    let left = evolved_at(m, n, u, pos);
    let right = kronecker(a, pow2(na), eb, pow2(nb));
    let size = pow2(n);
    let w = pow2(nb) as int;
    lemma_pow2_adds(na, nb);
    lemma_pow2_pos(nb);
    lemma_pow2_pos(na);
    lemma_pow2_pos(n);
    let d = pow2(pos.len());
    lemma_pow2_pos(pos.len());
    lemma_insert_low(na, nb, targets, 0, 0);
    assert forall|i: int, j: int| 0 <= i < size && 0 <= j < size implies #[trigger] entry(
        left,
        size,
        i,
        j,
    ) == entry(right, size, i, j) by {
        lemma_div_mod_bounds(i, pow2(na) as int, w);
        lemma_div_mod_bounds(j, pow2(na) as int, w);
        lemma_evolved_entry(m, n, u, pos, i, j);
        lemma_kronecker_entry(a, pow2(na), eb, pow2(nb), i, j);
        lemma_evolved_entry(b, nb, u, pos, i % w, j % w);
        let x = entry(a, pow2(na), i / w, j / w);
        let f = evolved_terms(m, n, u, pos, i, j);
        let g = evolved_terms(b, nb, u, pos, i % w, j % w);
        let h = |k: int| x.times_spec(g(k));
        assert forall|k: int| 0 <= k < d * d implies #[trigger] f(k) == h(k) by {
            lemma_div_mod_bounds(k, d as int, d as int);
            let p = k / (d as int);
            let q = k % (d as int);
            lemma_insert_low(na, nb, targets, i as nat, p as nat);
            lemma_insert_low(na, nb, targets, j as nat, q as nat);
            let ip = inserted((i % w) as nat, pos, p as nat);
            let jq = inserted((j % w) as nat, pos, q as nat);
            lemma_positions_of(nb, targets);
            lemma_inserted_bound((i % w) as nat, pos, p as nat, nb);
            lemma_inserted_bound((j % w) as nat, pos, q as nat, nb);
            lemma_flat_bound(i / w, ip as int, pow2(na) as int, w);
            lemma_flat_bound(j / w, jq as int, pow2(na) as int, w);
            lemma_kronecker_entry(
                a,
                pow2(na),
                b,
                pow2(nb),
                (i / w) * w + ip,
                (j / w) * w + jq,
            );
            lemma_div_mod_of(i / w, ip as int, w);
            lemma_div_mod_of(j / w, jq as int, w);
            lemma_factor_out(
                entry(u, d, gather(i as nat, pos) as int, p),
                entry(b, pow2(nb), ip as int, jq as int),
                x,
                entry(u, d, gather(j as nat, pos) as int, q).conj_spec(),
            );
        }
        lemma_sum_same(f, h, d * d);
        lemma_sum_times(x, g, d * d);
        lemma_sum_same(h, |k: int| x.times_spec(g(k)), d * d);
    }
    lemma_same_entries(left, right, size);
}

/// The weight of a pair of digit strings in an entry of an evolved matrix.
spec fn weights<T: Scalar>(u: Seq<T>, d: nat, gi: nat, gj: nat) -> spec_fn(int) -> T {
    |k: int|
        entry(u, d, gi as int, k / (d as int)).times_spec(
            entry(u, d, gj as int, k % (d as int)).conj_spec(),
        )
}

/// The entry that a pair of digit strings leads to.
spec fn cells<T>(m: Seq<T>, n: nat, pos: Seq<usize>, i: nat, j: nat) -> spec_fn(int) -> T {
    let d = pow2(pos.len()) as int;
    |k: int|
        entry(
            m,
            pow2(n),
            inserted(i, pos, (k / d) as nat) as int,
            inserted(j, pos, (k % d) as nat) as int,
        )
}

/// An entry of an evolved matrix as a sum of weighted entries.
proof fn lemma_evolved_dot<T: ExactScalar>(
    m: Seq<T>,
    n: nat,
    u: Seq<T>,
    pos: Seq<usize>,
    i: nat,
    j: nat,
)
    ensures
        evolved_entry(m, n, u, pos, i as int, j as int) == dot(
            weights(u, pow2(pos.len()), gather(i, pos), gather(j, pos)),
            cells(m, n, pos, i, j),
            pow2(pos.len()) * pow2(pos.len()),
        ),
{
    let d = pow2(pos.len());
    let f = evolved_terms(m, n, u, pos, i as int, j as int);
    let x = weights(u, d, gather(i, pos), gather(j, pos));
    let y = cells(m, n, pos, i, j);
    let g = |k: int| x(k).times_spec(y(k));
    assert forall|k: int| 0 <= k < d * d implies #[trigger] f(k) == g(k) by {
        let l = entry(u, d, gather(i, pos) as int, k / (d as int));
        let r = entry(u, d, gather(j, pos) as int, k % (d as int)).conj_spec();
        T::times_associates(l, y(k), r);
        T::times_commutes(y(k), r);
        T::times_associates(l, r, y(k));
    }
    lemma_sum_same(f, g, d * d);
}

/// Writing at some positions does not change what is at others.
proof fn lemma_disjoint_gather(p1: Seq<usize>, p2: Seq<usize>, x: nat, q: nat)
    requires
        forall|k: int| 0 <= k < p1.len() ==> !listed(p2, #[trigger] p1[k] as nat),
    ensures
        gather(inserted(x, p2, q), p1) == gather(x, p1),
{
    let y = inserted(x, p2, q);
    assert forall|k: int| 0 <= k < p1.len() implies bit(y, #[trigger] p1[k] as nat) == bit(
        x,
        p1[k] as nat,
    ) by {
        lemma_inserted_bits(x, p2, q, p1[k] as nat);
        assert(!listed(p2, p1[k] as nat));
        lemma_marked_is_listed(p2, q, p1[k] as nat);
    }
    lemma_gather_same(y, p1, x, p1);
}

/// A marked position is listed.
proof fn lemma_marked_is_listed(pos: Seq<usize>, p: nat, m: nat)
    ensures
        marked(pos, p, m) ==> listed(pos, m),
{
    if marked(pos, p, m) {
        let k = choose|k: int|
            0 <= k < pos.len() && #[trigger] pos[k] == m && bit(p, k as nat) == 1;
        assert(pos[k] == m);
    }
}

/// Writing at disjoint positions can be done in either order.
proof fn lemma_disjoint_insert(p1: Seq<usize>, p2: Seq<usize>, x: nat, q1: nat, q2: nat, n: nat)
    requires
        x < pow2(n),
        all_below(p1, n),
        all_below(p2, n),
        forall|k: int| 0 <= k < p1.len() ==> !listed(p2, #[trigger] p1[k] as nat),
    ensures
        inserted(inserted(x, p1, q1), p2, q2) == inserted(inserted(x, p2, q2), p1, q1),
{
    let a = inserted(x, p1, q1);
    let b = inserted(x, p2, q2);
    let left = inserted(a, p2, q2);
    let right = inserted(b, p1, q1);
    lemma_inserted_bound(x, p1, q1, n);
    lemma_inserted_bound(x, p2, q2, n);
    lemma_inserted_bound(a, p2, q2, n);
    lemma_inserted_bound(b, p1, q1, n);
    assert forall|k: nat| k < n implies bit(left, k) == bit(right, k) by {
        lemma_inserted_bits(x, p1, q1, k);
        lemma_inserted_bits(x, p2, q2, k);
        lemma_inserted_bits(a, p2, q2, k);
        lemma_inserted_bits(b, p1, q1, k);
        lemma_marked_is_listed(p1, q1, k);
        lemma_marked_is_listed(p2, q2, k);
        if listed(p1, k) {
            let c = choose|c: int| 0 <= c < p1.len() && #[trigger] p1[c] == k;
            assert(!listed(p2, p1[c] as nat));
        }
    }
    lemma_bits_determine(left, right, n);
}

/// Different qubits have different positions.
proof fn lemma_disjoint_positions(n: nat, first: Seq<usize>, second: Seq<usize>)
    requires
        n <= usize::MAX,
        all_below(first, n),
        all_below(second, n),
        forall|k: int| 0 <= k < first.len() ==> !second.contains(#[trigger] first[k]),
    ensures
        ({
            let p1 = positions_of(n, first);
            let p2 = positions_of(n, second);
            &&& all_below(p1, n)
            &&& all_below(p2, n)
            &&& forall|k: int| 0 <= k < p1.len() ==> !listed(p2, #[trigger] p1[k] as nat)
            &&& forall|k: int| 0 <= k < p2.len() ==> !listed(p1, #[trigger] p2[k] as nat)
        }),
{
    let p1 = positions_of(n, first);
    let p2 = positions_of(n, second);
    lemma_positions_of(n, first);
    lemma_positions_of(n, second);
    assert forall|k: int| 0 <= k < p1.len() implies !listed(p2, #[trigger] p1[k] as nat) by {
        assert(first[k] < n);
        assert(!second.contains(first[k]));
        if listed(p2, p1[k] as nat) {
            let c = choose|c: int| 0 <= c < p2.len() && #[trigger] p2[c] == p1[k] as nat;
            assert(second[c] < n);
            assert(second[c] == first[k]);
        }
    }
    assert forall|k: int| 0 <= k < p2.len() implies !listed(p1, #[trigger] p2[k] as nat) by {
        if listed(p1, p2[k] as nat) {
            let c = choose|c: int| 0 <= c < p1.len() && #[trigger] p1[c] == p2[k] as nat;
            assert(listed(p2, p1[c] as nat));
        }
    }
}

/// Operators on different qubits can act in either order.
pub proof fn law_disjoint_operators_commute<T: ExactScalar>(
    m: Seq<T>,
    n: nat,
    u: Seq<T>,
    first: Seq<usize>,
    v: Seq<T>,
    second: Seq<usize>,
)
    requires
        n <= usize::MAX,
        all_below(first, n),
        all_below(second, n),
        forall|k: int| 0 <= k < first.len() ==> !second.contains(#[trigger] first[k]),
    ensures
        evolved(evolved(m, n, u, first), n, v, second) == evolved(
            evolved(m, n, v, second),
            n,
            u,
            first,
        ),
{
    let p1 = positions_of(n, first);
    let p2 = positions_of(n, second);
    lemma_disjoint_positions(n, first, second);
    let left = evolved_at(evolved_at(m, n, u, p1), n, v, p2);
    let right = evolved_at(evolved_at(m, n, v, p2), n, u, p1);
    let size = pow2(n);
    assert forall|i: int, j: int| 0 <= i < size && 0 <= j < size implies #[trigger] entry(
        left,
        size,
        i,
        j,
    ) == entry(right, size, i, j) by {
        lemma_two_operators(m, n, u, p1, v, p2, i as nat, j as nat);
        lemma_two_operators(m, n, v, p2, u, p1, i as nat, j as nat);
        lemma_two_sums(m, n, u, p1, v, p2, i as nat, j as nat);
    }
    lemma_same_entries(left, right, size);
}

/// The entries that digit strings at two lists of positions lead to.
spec fn joint_cells<T>(
    m: Seq<T>,
    n: nat,
    p1: Seq<usize>,
    p2: Seq<usize>,
    i: nat,
    j: nat,
) -> spec_fn(int, int) -> T {
    let d1 = pow2(p1.len()) as int;
    let d2 = pow2(p2.len()) as int;
    |k: int, l: int|
        entry(
            m,
            pow2(n),
            inserted(inserted(i, p2, (k / d2) as nat), p1, (l / d1) as nat) as int,
            inserted(inserted(j, p2, (k % d2) as nat), p1, (l % d1) as nat) as int,
        )
}

/// An entry after two operators at disjoint positions.
proof fn lemma_two_operators<T: ExactScalar>(
    m: Seq<T>,
    n: nat,
    u: Seq<T>,
    p1: Seq<usize>,
    v: Seq<T>,
    p2: Seq<usize>,
    i: nat,
    j: nat,
)
    requires
        i < pow2(n),
        j < pow2(n),
        all_below(p1, n),
        all_below(p2, n),
        forall|k: int| 0 <= k < p1.len() ==> !listed(p2, #[trigger] p1[k] as nat),
    ensures
        ({
            let d1 = pow2(p1.len());
            let d2 = pow2(p2.len());
            entry(evolved_at(evolved_at(m, n, u, p1), n, v, p2), pow2(n), i as int, j as int)
                == dot(
                weights(v, d2, gather(i, p2), gather(j, p2)),
                applied(
                    joint_cells(m, n, p1, p2, i, j),
                    weights(u, d1, gather(i, p1), gather(j, p1)),
                    d1 * d1,
                ),
                d2 * d2,
            )
        }),
{
    let d1 = pow2(p1.len());
    let d2 = pow2(p2.len());
    let once = evolved_at(m, n, u, p1);
    lemma_evolved_entry(once, n, v, p2, i as int, j as int);
    lemma_evolved_dot(once, n, v, p2, i, j);
    let wv = weights(v, d2, gather(i, p2), gather(j, p2));
    let wu = weights(u, d1, gather(i, p1), gather(j, p1));
    let x = joint_cells(m, n, p1, p2, i, j);
    let y = cells(once, n, p2, i, j);
    assert forall|k: int| 0 <= k < d2 * d2 implies #[trigger] y(k) == applied(x, wu, d1 * d1)(
        k,
    ) by {
        let ik = inserted(i, p2, (k / (d2 as int)) as nat);
        let jk = inserted(j, p2, (k % (d2 as int)) as nat);
        lemma_inserted_bound(i, p2, (k / (d2 as int)) as nat, n);
        lemma_inserted_bound(j, p2, (k % (d2 as int)) as nat, n);
        lemma_evolved_entry(m, n, u, p1, ik as int, jk as int);
        lemma_evolved_dot(m, n, u, p1, ik, jk);
        lemma_disjoint_gather(p1, p2, i, (k / (d2 as int)) as nat);
        lemma_disjoint_gather(p1, p2, j, (k % (d2 as int)) as nat);
        let c = cells(m, n, p1, ik, jk);
        lemma_dot_commutes(wu, c, d1 * d1);
        lemma_dot_same(c, wu, row(x, k), wu, d1 * d1);
    }
    lemma_dot_same(wv, y, wv, applied(x, wu, d1 * d1), d2 * d2);
}

/// The order in which the weights of two operators are summed does not matter.
proof fn lemma_two_sums<T: ExactScalar>(
    m: Seq<T>,
    n: nat,
    u: Seq<T>,
    p1: Seq<usize>,
    v: Seq<T>,
    p2: Seq<usize>,
    i: nat,
    j: nat,
)
    requires
        i < pow2(n),
        j < pow2(n),
        all_below(p1, n),
        all_below(p2, n),
        forall|k: int| 0 <= k < p1.len() ==> !listed(p2, #[trigger] p1[k] as nat),
    ensures
        ({
            let d1 = pow2(p1.len());
            let d2 = pow2(p2.len());
            let wv = weights(v, d2, gather(i, p2), gather(j, p2));
            let wu = weights(u, d1, gather(i, p1), gather(j, p1));
            dot(wv, applied(joint_cells(m, n, p1, p2, i, j), wu, d1 * d1), d2 * d2) == dot(
                wu,
                applied(joint_cells(m, n, p2, p1, i, j), wv, d2 * d2),
                d1 * d1,
            )
        }),
{
    let d1 = pow2(p1.len());
    let d2 = pow2(p2.len());
    let wv = weights(v, d2, gather(i, p2), gather(j, p2));
    let wu = weights(u, d1, gather(i, p1), gather(j, p1));
    let x = joint_cells(m, n, p1, p2, i, j);
    let y = joint_cells(m, n, p2, p1, i, j);
    lemma_dot_associates(wv, x, wu, d2 * d2, d1 * d1);
    lemma_dot_commutes(passed(wv, x, d2 * d2), wu, d1 * d1);
    assert forall|l: int| 0 <= l < d1 * d1 implies #[trigger] passed(wv, x, d2 * d2)(l) == applied(
        y,
        wv,
        d2 * d2,
    )(l) by {
        lemma_dot_commutes(wv, column(x, l), d2 * d2);
        assert forall|k: int| 0 <= k < d2 * d2 implies #[trigger] column(x, l)(k) == row(y, l)(
            k,
        ) by {
            let (s1, t1) = ((l / (d1 as int)) as nat, (l % (d1 as int)) as nat);
            let (s2, t2) = ((k / (d2 as int)) as nat, (k % (d2 as int)) as nat);
            lemma_disjoint_insert(p1, p2, i, s1, s2, n);
            lemma_disjoint_insert(p1, p2, j, t1, t2, n);
        }
        lemma_dot_same(column(x, l), wv, row(y, l), wv, d2 * d2);
    }
    lemma_dot_same(wu, passed(wv, x, d2 * d2), wu, applied(y, wv, d2 * d2), d1 * d1);
}

/// Reading digits at two lists of positions at once.
proof fn lemma_gather_both(p1: Seq<usize>, p2: Seq<usize>, x: nat)
    ensures
        gather(x, p1 + p2) == gather(x, p2) * pow2(p1.len()) + gather(x, p1),
        gather(x, p1) < pow2(p1.len()),
        gather(x, p2) < pow2(p2.len()),
{
    let both = p1 + p2;
    let l = p1.len();
    let low = gather(x, p1);
    let high = gather(x, p2);
    let a = gather(x, both);
    let b = high * pow2(l) + low;
    lemma_gather_bits(x, p1);
    lemma_gather_bits(x, p2);
    lemma_gather_bits(x, both);
    lemma_pow2_adds(p2.len(), l);
    lemma_flat_bound(high as int, low as int, pow2(p2.len()) as int, pow2(l) as int);
    assert forall|k: nat| k < both.len() implies bit(a, k) == bit(b, k) by {
        lemma_joined_bit(high, low, l, k);
        assert(bit(a, k) == bit(x, both[k as int] as nat));
        if k < l {
            assert(bit(low, k) == bit(x, p1[k as int] as nat));
        } else {
            assert(bit(high, (k - l) as nat) == bit(x, p2[k - l] as nat));
        }
    }
    lemma_bits_determine(a, b, both.len());
}

/// Writing digits at two disjoint lists of positions at once.
proof fn lemma_insert_both(p1: Seq<usize>, p2: Seq<usize>, x: nat, q1: nat, q2: nat, n: nat)
    requires
        x < pow2(n),
        q1 < pow2(p1.len()),
        all_below(p1, n),
        all_below(p2, n),
        forall|k: int| 0 <= k < p1.len() ==> !listed(p2, #[trigger] p1[k] as nat),
    ensures
        inserted(x, p1 + p2, q2 * pow2(p1.len()) + q1) == inserted(inserted(x, p2, q2), p1, q1),
{
    let both = p1 + p2;
    let l = p1.len();
    let q = q2 * pow2(l) + q1;
    let y = inserted(x, p2, q2);
    let left = inserted(x, both, q);
    let right = inserted(y, p1, q1);
    assert forall|k: int| 0 <= k < both.len() implies #[trigger] both[k] < n by {
        if k < l {
            assert(p1[k] < n);
        } else {
            assert(p2[k - l] < n);
        }
    }
    lemma_inserted_bound(x, both, q, n);
    lemma_inserted_bound(x, p2, q2, n);
    lemma_inserted_bound(y, p1, q1, n);
    assert forall|k: nat| k < n implies bit(left, k) == bit(right, k) by {
        lemma_inserted_bits(x, both, q, k);
        lemma_inserted_bits(x, p2, q2, k);
        lemma_inserted_bits(y, p1, q1, k);
        lemma_marked_is_listed(p1, q1, k);
        lemma_marked_is_listed(p2, q2, k);
        lemma_both_listed(p1, p2, q1, q2, k);
        if listed(p1, k) {
            let c = choose|c: int| 0 <= c < p1.len() && #[trigger] p1[c] == k;
            assert(!listed(p2, p1[c] as nat));
        }
    }
    lemma_bits_determine(left, right, n);
}

/// What is listed and marked in two lists together.
proof fn lemma_both_listed(p1: Seq<usize>, p2: Seq<usize>, q1: nat, q2: nat, m: nat)
    requires
        q1 < pow2(p1.len()),
    ensures
        listed(p1 + p2, m) == (listed(p1, m) || listed(p2, m)),
        marked(p1 + p2, q2 * pow2(p1.len()) + q1, m) == (marked(p1, q1, m) || marked(p2, q2, m)),
{
    let both = p1 + p2;
    let l = p1.len();
    let q = q2 * pow2(l) + q1;
    assert forall|k: nat| bit(q, k) == if k < l {
        bit(q1, k)
    } else {
        bit(q2, (k - l) as nat)
    } by {
        lemma_joined_bit(q2, q1, l, k);
    }
    if listed(both, m) {
        let k = choose|k: int| 0 <= k < both.len() && #[trigger] both[k] == m;
        if k < l {
            assert(p1[k] == m);
        } else {
            assert(p2[k - l] == m);
        }
    }
    if listed(p1, m) {
        let k = choose|k: int| 0 <= k < p1.len() && #[trigger] p1[k] == m;
        assert(both[k] == m);
    }
    if listed(p2, m) {
        let k = choose|k: int| 0 <= k < p2.len() && #[trigger] p2[k] == m;
        assert(both[l + k] == m);
    }
    if marked(both, q, m) {
        let k = choose|k: int|
            0 <= k < both.len() && #[trigger] both[k] == m && bit(q, k as nat) == 1;
        if k < l {
            assert(p1[k] == m && bit(q1, k as nat) == 1);
        } else {
            assert(p2[k - l] == m && bit(q2, (k - l) as nat) == 1);
        }
    }
    if marked(p1, q1, m) {
        let k = choose|k: int|
            0 <= k < p1.len() && #[trigger] p1[k] == m && bit(q1, k as nat) == 1;
        assert(both[k] == m && bit(q, k as nat) == 1);
    }
    if marked(p2, q2, m) {
        let k = choose|k: int|
            0 <= k < p2.len() && #[trigger] p2[k] == m && bit(q2, k as nat) == 1;
        assert(both[l + k] == m && bit(q, (l + k) as nat) == 1);
    }
}

/// The pair of pairs `((a, b), (s, t))` for the pair `((a, s), (b, t))`, where `s`
/// and `t` are below `c`, and `a` and `b` below `d`.
spec fn regrouped(c: int, d: int) -> spec_fn(int) -> int {
    |k: int|
        {
            let p = k / (d * c);
            let q = k % (d * c);
            ((p / c) * d + q / c) * (c * c) + ((p % c) * c + q % c)
        }
}

/// The parts of a regrouped number.
proof fn lemma_regrouped(c: int, d: int, k: int)
    requires
        0 < c,
        0 < d,
        0 <= k < (d * c) * (d * c),
    ensures
        ({
            let p = k / (d * c);
            let q = k % (d * c);
            let s = regrouped(c, d)(k);
            &&& 0 <= p < d * c
            &&& 0 <= q < d * c
            &&& k == p * (d * c) + q
            &&& 0 <= s < (d * d) * (c * c)
            &&& 0 <= s / (c * c) < d * d
            &&& 0 <= s % (c * c) < c * c
            &&& (s / (c * c)) / d == p / c
            &&& (s / (c * c)) % d == q / c
            &&& (s % (c * c)) / c == p % c
            &&& (s % (c * c)) % c == q % c
            &&& 0 <= p / c < d
            &&& 0 <= q / c < d
            &&& 0 <= p % c < c
            &&& 0 <= q % c < c
            &&& p == (p / c) * c + p % c
            &&& q == (q / c) * c + q % c
        }),
{
    assert(0 < d * c) by (nonlinear_arith)
        requires
            0 < c,
            0 < d,
    ;
    lemma_div_mod_bounds(k, d * c, d * c);
    let p = k / (d * c);
    let q = k % (d * c);
    lemma_div_mod_bounds(p, d, c);
    lemma_div_mod_bounds(q, d, c);
    let high = (p / c) * d + q / c;
    let low = (p % c) * c + q % c;
    lemma_flat_bound(p / c, q / c, d, d);
    lemma_flat_bound(p % c, q % c, c, c);
    lemma_flat_bound(high, low, d * d, c * c);
    lemma_div_mod_of(high, low, c * c);
    lemma_div_mod_of(p / c, q / c, d);
    lemma_div_mod_of(p % c, q % c, c);
}

/// Regrouping reaches every number once.
proof fn lemma_regrouped_permutes(c: nat, d: nat)
    requires
        0 < c,
        0 < d,
    ensures
        (d * d) * (c * c) == (d * c) * (d * c),
        permutes(regrouped(c as int, d as int), (d * c) * (d * c)),
{
    assert((d * d) * (c * c) == (d * c) * (d * c)) by (nonlinear_arith);
    let s = regrouped(c as int, d as int);
    let n = (d * c) * (d * c);
    assert forall|k: int| 0 <= k < n implies 0 <= #[trigger] s(k) < n by {
        lemma_regrouped(c as int, d as int, k);
    }
    assert forall|a: int, b: int|
        0 <= a < n && 0 <= b < n && #[trigger] s(a) == #[trigger] s(b) implies a == b by {
        lemma_regrouped(c as int, d as int, a);
        lemma_regrouped(c as int, d as int, b);
    }
}

/// Operators on different qubits act together as their Kronecker product acts on
/// all of these qubits: the qubits of the first operator are its low digits.
pub proof fn law_disjoint_operators_together<T: ExactScalar>(
    m: Seq<T>,
    n: nat,
    u: Seq<T>,
    first: Seq<usize>,
    v: Seq<T>,
    second: Seq<usize>,
)
    requires
        n <= usize::MAX,
        all_below(first, n),
        all_below(second, n),
        forall|k: int| 0 <= k < first.len() ==> !second.contains(#[trigger] first[k]),
    ensures
        evolved(evolved(m, n, u, first), n, v, second) == evolved(
            m,
            n,
            kronecker(v, pow2(second.len()), u, pow2(first.len())),
            first + second,
        ),
{
    let p1 = positions_of(n, first);
    let p2 = positions_of(n, second);
    lemma_disjoint_positions(n, first, second);
    assert(positions_of(n, first + second) =~= p1 + p2);
    let vu = kronecker(v, pow2(p2.len()), u, pow2(p1.len()));
    let left = evolved_at(evolved_at(m, n, u, p1), n, v, p2);
    let right = evolved_at(m, n, vu, p1 + p2);
    let size = pow2(n);
    assert forall|i: int, j: int| 0 <= i < size && 0 <= j < size implies #[trigger] entry(
        left,
        size,
        i,
        j,
    ) == entry(right, size, i, j) by {
        lemma_two_operators(m, n, u, p1, v, p2, i as nat, j as nat);
        lemma_evolved_entry(m, n, vu, p1 + p2, i, j);
        lemma_together_entry(m, n, u, p1, v, p2, i as nat, j as nat);
    }
    lemma_same_entries(left, right, size);
}

/// One entry after two operators at disjoint positions, and after their product.
proof fn lemma_together_entry<T: ExactScalar>(
    m: Seq<T>,
    n: nat,
    u: Seq<T>,
    p1: Seq<usize>,
    v: Seq<T>,
    p2: Seq<usize>,
    i: nat,
    j: nat,
)
    requires
        i < pow2(n),
        j < pow2(n),
        all_below(p1, n),
        all_below(p2, n),
        forall|k: int| 0 <= k < p1.len() ==> !listed(p2, #[trigger] p1[k] as nat),
    ensures
        ({
            let d1 = pow2(p1.len());
            let d2 = pow2(p2.len());
            evolved_entry(m, n, kronecker(v, d2, u, d1), p1 + p2, i as int, j as int) == dot(
                weights(v, d2, gather(i, p2), gather(j, p2)),
                applied(
                    joint_cells(m, n, p1, p2, i, j),
                    weights(u, d1, gather(i, p1), gather(j, p1)),
                    d1 * d1,
                ),
                d2 * d2,
            )
        }),
{
    let d1 = pow2(p1.len());
    let d2 = pow2(p2.len());
    let both = p1 + p2;
    let vu = kronecker(v, d2, u, d1);
    let w = d2 * d1;
    let wv = weights(v, d2, gather(i, p2), gather(j, p2));
    let wu = weights(u, d1, gather(i, p1), gather(j, p1));
    let x = joint_cells(m, n, p1, p2, i, j);
    lemma_pow2_pos(p1.len());
    lemma_pow2_pos(p2.len());
    lemma_pow2_adds(p2.len(), p1.len());
    assert(pow2(both.len()) == w);
    lemma_evolved_dot(m, n, vu, both, i, j);
    let wb = weights(vu, w, gather(i, both), gather(j, both));
    let y = cells(m, n, both, i, j);
    let terms = |k: int| wb(k).times_spec(y(k));
    // The term of one pair of digit strings for each operator.
    let h = |k: int, l: int| wv(k).times_spec(x(k, l).times_spec(wu(l)));
    let flat = |e: int| h(e / ((d1 * d1) as int), e % ((d1 * d1) as int));
    let s = regrouped(d1 as int, d2 as int);
    lemma_regrouped_permutes(d1, d2);
    assert forall|k: int| 0 <= k < w * w implies #[trigger] terms(k) == flat(s(k)) by {
        lemma_together_term(m, n, u, p1, v, p2, i, j, k);
    }
    lemma_sum_same(terms, |k: int| flat(s(k)), w * w);
    lemma_sum_permuted(flat, s, w * w);
    assert(0 < d1 * d1) by (nonlinear_arith)
        requires
            0 < d1,
    ;
    lemma_sum_pairs(h, d2 * d2, d1 * d1);
    let rows = |k: int| sum(|l: int| h(k, l), d1 * d1);
    let products = |k: int| wv(k).times_spec(applied(x, wu, d1 * d1)(k));
    assert forall|k: int| 0 <= k < d2 * d2 implies #[trigger] rows(k) == products(k) by {
        let inner = |l: int| row(x, k)(l).times_spec(wu(l));
        lemma_sum_times(wv(k), inner, d1 * d1);
        lemma_sum_same(|l: int| h(k, l), |l: int| wv(k).times_spec(inner(l)), d1 * d1);
    }
    lemma_sum_same(rows, products, d2 * d2);
}

/// One term of that entry.
proof fn lemma_together_term<T: ExactScalar>(
    m: Seq<T>,
    n: nat,
    u: Seq<T>,
    p1: Seq<usize>,
    v: Seq<T>,
    p2: Seq<usize>,
    i: nat,
    j: nat,
    k: int,
)
    requires
        i < pow2(n),
        j < pow2(n),
        all_below(p1, n),
        all_below(p2, n),
        forall|k: int| 0 <= k < p1.len() ==> !listed(p2, #[trigger] p1[k] as nat),
        0 <= k < (pow2(p2.len()) * pow2(p1.len())) * (pow2(p2.len()) * pow2(p1.len())),
    ensures
        ({
            let d1 = pow2(p1.len());
            let d2 = pow2(p2.len());
            let both = p1 + p2;
            let e = regrouped(d1 as int, d2 as int)(k);
            let a = e / ((d1 * d1) as int);
            let b = e % ((d1 * d1) as int);
            weights(kronecker(v, d2, u, d1), d2 * d1, gather(i, both), gather(j, both))(
                k,
            ).times_spec(cells(m, n, both, i, j)(k)) == weights(
                v,
                d2,
                gather(i, p2),
                gather(j, p2),
            )(a).times_spec(
                joint_cells(m, n, p1, p2, i, j)(a, b).times_spec(
                    weights(u, d1, gather(i, p1), gather(j, p1))(b),
                ),
            )
        }),
{
    let d1 = pow2(p1.len());
    let d2 = pow2(p2.len());
    let c = d1 as int;
    let both = p1 + p2;
    let vu = kronecker(v, d2, u, d1);
    let w = d2 * d1;
    lemma_pow2_pos(p1.len());
    lemma_pow2_pos(p2.len());
    lemma_pow2_adds(p2.len(), p1.len());
    assert(pow2(both.len()) == w);
    lemma_regrouped(c, d2 as int, k);
    let e = regrouped(c, d2 as int)(k);
    let a = e / ((d1 * d1) as int);
    let b = e % ((d1 * d1) as int);
    let p = k / (w as int);
    let q = k % (w as int);
    let (gi1, gi2) = (gather(i, p1), gather(i, p2));
    let (gj1, gj2) = (gather(j, p1), gather(j, p2));
    lemma_gather_both(p1, p2, i);
    lemma_gather_both(p1, p2, j);
    let gi = gather(i, both) as int;
    let gj = gather(j, both) as int;
    lemma_flat_bound(gi2 as int, gi1 as int, d2 as int, c);
    lemma_flat_bound(gj2 as int, gj1 as int, d2 as int, c);
    lemma_div_mod_of(gi2 as int, gi1 as int, c);
    lemma_div_mod_of(gj2 as int, gj1 as int, c);
    lemma_kronecker_entry(v, d2, u, d1, gi, p);
    lemma_kronecker_entry(v, d2, u, d1, gj, q);
    // The entry of the matrix.
    lemma_insert_both(p1, p2, i, (p % c) as nat, (p / c) as nat, n);
    lemma_insert_both(p1, p2, j, (q % c) as nat, (q / c) as nat, n);
    let cell = cells(m, n, both, i, j)(k);
    assert(cell == joint_cells(m, n, p1, p2, i, j)(a, b));
    // The weights.
    let (vi, ui) = (entry(v, d2, gi2 as int, p / c), entry(u, d1, gi1 as int, p % c));
    let (vj, uj) = (entry(v, d2, gj2 as int, q / c), entry(u, d1, gj1 as int, q % c));
    T::conj_of_times(vj, uj);
    lemma_times_interchange(vi, ui, vj.conj_spec(), uj.conj_spec());
    let wv = vi.times_spec(vj.conj_spec());
    let wu = ui.times_spec(uj.conj_spec());
    T::times_associates(wv, wu, cell);
    T::times_commutes(wu, cell);
}

/// One-qubit operators on two different qubits act together as their Kronecker
/// product acts on the pair, the first of them being its low digit.
pub proof fn law_single_operators_together<T: ExactScalar>(
    m: Seq<T>,
    n: nat,
    u: Seq<T>,
    a: usize,
    v: Seq<T>,
    b: usize,
)
    requires
        n <= usize::MAX,
        a < n,
        b < n,
        a != b,
    ensures
        evolved(evolved(m, n, u, seq![a]), n, v, seq![b]) == evolved(
            m,
            n,
            kronecker(v, 2, u, 2),
            seq![a, b],
        ),
{
    let first = seq![a];
    let second = seq![b];
    lemma2_to64();
    assert(first + second =~= seq![a, b]);
    assert forall|k: int| 0 <= k < first.len() implies !second.contains(#[trigger] first[k]) by {
        assert(second[0] == b);
    }
    law_disjoint_operators_together(m, n, u, first, v, second);
}

} // verus!
