//! Pure states.
use crate::density_matrix::State;
use crate::laws::algebra::lemma_same_entries;
use crate::laws::evolution::{
    all_below, lemma_evolved_entry, lemma_evolved_rows, lemma_positions_of,
};
use crate::laws::linear::{applied, dot, lemma_dot_commutes, lemma_dot_conj, lemma_dot_same, row};
use crate::matrix::{
    entry, evolved, evolved_at, evolved_entry, lemma_tabulated_entry, positions_of, pure_matrix,
    state_entry, state_matrix,
};
use crate::positions::{gather, inserted, lemma_inserted_bound};
use crate::scalar::{
    lemma_conj_constants, lemma_one_times, lemma_times_interchange, lemma_times_zero, ExactScalar,
    Scalar,
};
use crate::sums::{lemma_sum_same, lemma_sum_times};
use vstd::arithmetic::power2::*;
use vstd::prelude::*;

verus! {

/// The amplitudes on `n` qubits that are 1 in the row `k` and 0 elsewhere.
pub open spec fn basis_amplitudes<T: Scalar>(n: nat, k: int) -> Seq<T> {
    Seq::new(
        pow2(n),
        |i: int|
            if i == k {
                T::one_spec()
            } else {
                T::zero_spec()
            },
    )
}

/// The amplitude in the row `i` after an operator has acted on the digits at
/// the given positions.
pub open spec fn moved_amplitude<T: Scalar>(
    amplitudes: Seq<T>,
    u: Seq<T>,
    pos: Seq<usize>,
    i: int,
) -> T {
    dot(
        |p: int| entry(u, pow2(pos.len()), gather(i as nat, pos) as int, p),
        |p: int| amplitudes[inserted(i as nat, pos, p as nat) as int],
        pow2(pos.len()),
    )
}

/// The amplitudes after an operator has acted on the given qubits.
pub open spec fn moved_amplitudes<T: Scalar>(
    amplitudes: Seq<T>,
    n: nat,
    u: Seq<T>,
    targets: Seq<usize>,
) -> Seq<T> {
    Seq::new(pow2(n), |i: int| moved_amplitude(amplitudes, u, positions_of(n, targets), i))
}

/// The amplitudes, all multiplied by `c`.
pub open spec fn turned<T: Scalar>(amplitudes: Seq<T>, c: T) -> Seq<T> {
    amplitudes.map_values(|a: T| c.times_spec(a))
}

/// A factor of absolute value 1 that all amplitudes have in common does not show in
/// the matrix.
pub proof fn law_phase_does_not_show<T: ExactScalar>(amplitudes: Seq<T>, c: T)
    requires
        c.times_spec(c.conj_spec()) == T::one_spec(),
    ensures
        pure_matrix(turned(amplitudes, c)) == pure_matrix(amplitudes),
{
    let d = amplitudes.len();
    let v = amplitudes;
    let w = turned(v, c);
    let left = pure_matrix(w);
    let right = pure_matrix(v);
    assert forall|i: int, j: int| 0 <= i < d && 0 <= j < d implies #[trigger] entry(left, d, i, j)
        == entry(right, d, i, j) by {
        lemma_tabulated_entry(d, |i: int, j: int| w[i].times_spec(w[j].conj_spec()), i, j);
        lemma_tabulated_entry(d, |i: int, j: int| v[i].times_spec(v[j].conj_spec()), i, j);
        T::conj_of_times(c, v[j]);
        lemma_times_interchange(c, v[i], c.conj_spec(), v[j].conj_spec());
        lemma_one_times(v[i].times_spec(v[j].conj_spec()));
    }
    lemma_same_entries(left, right, d);
}

/// With all qubits 0, or all of them 1, the state is the pure one with the single
/// amplitude 1 in the first or the last row.
pub proof fn law_basis_states_are_pure<T: ExactScalar>(n: nat)
    ensures
        state_matrix::<T>(State::ZERO, n) == pure_matrix(basis_amplitudes::<T>(n, 0)),
        state_matrix::<T>(State::ONE, n) == pure_matrix(basis_amplitudes::<T>(n, pow2(n) - 1)),
{
    lemma_pow2_pos(n);
    lemma_basis_state::<T>(State::ZERO, n, 0);
    lemma_basis_state::<T>(State::ONE, n, pow2(n) - 1);
}

/// A state with a single entry other than zero is pure.
proof fn lemma_basis_state<T: ExactScalar>(s: State, n: nat, k: int)
    requires
        s == State::ZERO && k == 0 || s == State::ONE && k == pow2(n) - 1,
    ensures
        state_matrix::<T>(s, n) == pure_matrix(basis_amplitudes::<T>(n, k)),
{
    let d = pow2(n);
    let v = basis_amplitudes::<T>(n, k);
    let left = state_matrix::<T>(s, n);
    let right = pure_matrix(v);
    lemma_conj_constants::<T>();
    assert forall|i: int, j: int| 0 <= i < d && 0 <= j < d implies #[trigger] entry(left, d, i, j)
        == entry(right, d, i, j) by {
        lemma_tabulated_entry(d, |i: int, j: int| state_entry::<T>(s, n, i, j), i, j);
        lemma_tabulated_entry(d, |i: int, j: int| v[i].times_spec(v[j].conj_spec()), i, j);
        lemma_one_times(v[j]);
        lemma_times_zero(v[i]);
        lemma_times_zero(v[j]);
    }
    lemma_same_entries(left, right, d);
}

/// An operator takes the matrix of a pure state to the matrix of the pure state
/// whose amplitudes it gives.
pub proof fn law_evolve_of_pure<T: ExactScalar>(
    amplitudes: Seq<T>,
    n: nat,
    u: Seq<T>,
    targets: Seq<usize>,
)
    requires
        n <= usize::MAX,
        amplitudes.len() == pow2(n),
        all_below(targets, n),
    ensures
        evolved(pure_matrix(amplitudes), n, u, targets) == pure_matrix(
            moved_amplitudes(amplitudes, n, u, targets),
        ),
{
    let pos = positions_of(n, targets);
    lemma_positions_of(n, targets);
    let m = pure_matrix(amplitudes);
    let w = moved_amplitudes(amplitudes, n, u, targets);
    let left = evolved_at(m, n, u, pos);
    let right = pure_matrix(w);
    let size = pow2(n);
    assert forall|i: int, j: int| 0 <= i < size && 0 <= j < size implies #[trigger] entry(
        left,
        size,
        i,
        j,
    ) == entry(right, size, i, j) by {
        lemma_evolved_entry(m, n, u, pos, i, j);
        lemma_moved_entry(amplitudes, n, u, pos, i, j);
        lemma_tabulated_entry(size, |i: int, j: int| w[i].times_spec(w[j].conj_spec()), i, j);
    }
    lemma_same_entries(left, right, size);
}

/// One entry of the matrix of a pure state after an operator has acted.
proof fn lemma_moved_entry<T: ExactScalar>(
    v: Seq<T>,
    n: nat,
    u: Seq<T>,
    pos: Seq<usize>,
    i: int,
    j: int,
)
    requires
        v.len() == pow2(n),
        all_below(pos, n),
        0 <= i < pow2(n),
        0 <= j < pow2(n),
    ensures
        evolved_entry(pure_matrix(v), n, u, pos, i, j) == moved_amplitude(
            v,
            u,
            pos,
            i,
        ).times_spec(moved_amplitude(v, u, pos, j).conj_spec()),
{
    let m = pure_matrix(v);
    let d = pow2(pos.len());
    let gi = gather(i as nat, pos) as int;
    let gj = gather(j as nat, pos) as int;
    let op = |r: int, c: int| entry(u, d, r, c);
    let oc = |r: int, c: int| entry(u, d, r, c).conj_spec();
    let vi = |p: int| v[inserted(i as nat, pos, p as nat) as int];
    let vj = |q: int| v[inserted(j as nat, pos, q as nat) as int];
    let vc = |q: int| vj(q).conj_spec();
    let x = |p: int, q: int| vi(p).times_spec(vc(q));
    assert forall|p: int, q: int| 0 <= p < d && 0 <= q < d implies #[trigger] x(p, q) == entry(
        m,
        pow2(n),
        inserted(i as nat, pos, p as nat) as int,
        inserted(j as nat, pos, q as nat) as int,
    ) by {
        lemma_inserted_bound(i as nat, pos, p as nat, n);
        lemma_inserted_bound(j as nat, pos, q as nat, n);
        lemma_tabulated_entry(
            pow2(n),
            |i: int, j: int| v[i].times_spec(v[j].conj_spec()),
            inserted(i as nat, pos, p as nat) as int,
            inserted(j as nat, pos, q as nat) as int,
        );
    }
    lemma_evolved_rows(m, n, u, pos, i, j, op, x, oc);
    let a = row(op, gi);
    let b = row(oc, gj);
    let last = dot(vc, b, d);
    let inner = applied(x, b, d);
    assert forall|p: int| 0 <= p < d implies #[trigger] inner(p) == vi(p).times_spec(last) by {
        let products = |q: int| vc(q).times_spec(b(q));
        lemma_sum_times(vi(p), products, d);
        let pushed = |q: int| vi(p).times_spec(products(q));
        let terms = |q: int| row(x, p)(q).times_spec(b(q));
        assert forall|q: int| 0 <= q < d implies #[trigger] terms(q) == pushed(q) by {
            T::times_associates(vi(p), vc(q), b(q));
        }
        lemma_sum_same(terms, pushed, d);
    }
    let left = |p: int| a(p).times_spec(inner(p));
    let right = |p: int| a(p).times_spec(vi(p));
    let scaled = |p: int| right(p).times_spec(last);
    assert forall|p: int| 0 <= p < d implies #[trigger] left(p) == scaled(p) by {
        assert(inner(p) == vi(p).times_spec(last));
        T::times_associates(a(p), vi(p), last);
    }
    lemma_sum_same(left, scaled, d);
    lemma_sum_times(last, right, d);
    // The two sums are the amplitudes.
    lemma_dot_same(a, vi, |p: int| entry(u, d, gi, p), vi, d);
    lemma_dot_conj(|p: int| entry(u, d, gj, p), vj, d);
    lemma_dot_commutes(vc, b, d);
    lemma_dot_same(
        b,
        vc,
        |k: int| (|p: int| entry(u, d, gj, p))(k).conj_spec(),
        |k: int| vj(k).conj_spec(),
        d,
    );
}

} // verus!
