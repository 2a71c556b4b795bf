//! The starting states.
use crate::binary::ones;
use crate::bits::{exponent, lemma_exponent_of_pow2};
use crate::density_matrix::State;
use crate::laws::algebra::{
    hermitian, lemma_kronecker_entry, lemma_nested_digits, lemma_same_entries, scaled,
};
use crate::laws::evolution::{lemma_product_entry, matrix_product};
use crate::laws::linear::{dot, lemma_dot_pick_scaled, lemma_dot_same};
use crate::laws::partial_trace::{law_ptrace_undoes_tensor, qubit_range};
use crate::matrix::{
    diagonal, entry, kronecker, lemma_square_of_pow2, lemma_tabulated_entry, reduced, state_entry,
    state_matrix, trace_of,
};
use crate::scalar::{
    lemma_conj_constants, lemma_conj_negated, lemma_natural_times, lemma_natural_zero,
    lemma_negated_times, lemma_negated_twice, lemma_one_times, lemma_pow2_is_not_zero,
    lemma_quotient_unique, lemma_times_interchange, lemma_times_zero, ExactScalar, Scalar,
};
use crate::sums::{
    lemma_div_mod_bounds, lemma_div_mod_of, lemma_sum_constant, lemma_sum_same, lemma_sum_single,
};
use crate::tensor::{lemma_product_of_twos, lemma_twos_fit, product, product_fits, twos};
use vstd::arithmetic::power2::*;
use vstd::prelude::*;

verus! {

/// The digits of the low and the high part of a number are those of the number.
pub proof fn lemma_ones_of_parts(k: nat, n: nat)
    ensures
        ones(k) == ones(k / pow2(n)) + ones(k % pow2(n)),
    decreases n,
{
    lemma_pow2_pos(n);
    if n == 0 {
        lemma2_to64();
        assert(k / 1 == k && k % 1 == 0);
        assert(ones(0) == 0);
    } else {
        let m = (n - 1) as nat;
        lemma_pow2_unfold(n);
        lemma_pow2_pos(m);
        lemma_ones_of_parts(k / 2, m);
        lemma_nested_digits(k as int, pow2(m) as int, 2);
        assert(pow2(m) * 2 == pow2(n));
        let low = k % pow2(n);
        assert((k / 2) / pow2(m) == k / pow2(n));
        assert((k / 2) % pow2(m) == low / 2);
        assert(low % 2 == k % 2);
        assert(ones(k) == k % 2 + ones(k / 2)) by {
            if k == 0 {
                assert(ones(0) == 0);
            }
        }
        assert(ones(low) == low % 2 + ones(low / 2)) by {
            if low == 0 {
                assert(ones(0) == 0);
            }
        }
    }
}

/// The reciprocals of powers of two multiply.
proof fn lemma_shares_multiply<T: ExactScalar>(m: nat, n: nat)
    ensures
        T::one_spec().over_spec(T::natural_spec(pow2(m))).times_spec(
            T::one_spec().over_spec(T::natural_spec(pow2(n))),
        ) == T::one_spec().over_spec(T::natural_spec(pow2(m + n))),
{
    let a = T::natural_spec(pow2(m));
    let b = T::natural_spec(pow2(n));
    let c = T::natural_spec(pow2(m + n));
    let e = T::one_spec();
    lemma_pow2_adds(m, n);
    lemma_natural_times::<T>(pow2(m), pow2(n));
    lemma_pow2_is_not_zero::<T>(m);
    lemma_pow2_is_not_zero::<T>(n);
    lemma_pow2_is_not_zero::<T>(m + n);
    T::over_undoes_times(e, a);
    T::over_undoes_times(e, b);
    lemma_times_interchange(e.over_spec(a), e.over_spec(b), a, b);
    T::times_one(e);
    lemma_quotient_unique(e, c, e.over_spec(a).times_spec(e.over_spec(b)));
}

/// Reading an entry of a starting state.
pub proof fn lemma_state_entry<T: Scalar>(s: State, n: nat, i: int, j: int)
    requires
        0 <= i < pow2(n),
        0 <= j < pow2(n),
    ensures
        entry(state_matrix::<T>(s, n), pow2(n), i, j) == state_entry::<T>(s, n, i, j),
{
    lemma_tabulated_entry(pow2(n), |i: int, j: int| state_entry::<T>(s, n, i, j), i, j);
}

/// The sign of an entry of the state of minuses.
pub open spec fn sign<T: Scalar>(i: nat, j: nat) -> T {
    if (ones(i) + ones(j)) % 2 == 0 {
        T::one_spec()
    } else {
        T::one_spec().negated_spec()
    }
}

/// Signs multiply as the parities add.
proof fn lemma_signs_multiply<T: ExactScalar>(a: nat, b: nat, c: nat, d: nat)
    ensures
        sign::<T>(a, b).times_spec(sign::<T>(c, d)) == if (ones(a) + ones(b) + ones(c) + ones(d))
            % 2 == 0 {
            T::one_spec()
        } else {
            T::one_spec().negated_spec()
        },
{
    let e = T::one_spec();
    let m = e.negated_spec();
    lemma_one_times(e);
    lemma_one_times(m);
    lemma_negated_times(e, m);
    lemma_one_times(m);
    lemma_negated_twice(e);
}

/// Starting `m` qubits and `n` qubits in the same state and putting them
/// together is starting `m + n` qubits in that state: every starting state is
/// the product of the states of its qubits.
pub proof fn law_states_are_products<T: ExactScalar>(s: State, m: nat, n: nat)
    ensures
        kronecker(state_matrix::<T>(s, m), pow2(m), state_matrix::<T>(s, n), pow2(n))
            == state_matrix::<T>(s, m + n),
{
    let c = pow2(m);
    let d = pow2(n);
    lemma_pow2_adds(m, n);
    lemma_pow2_pos(m);
    lemma_pow2_pos(n);
    let a = state_matrix::<T>(s, m);
    let b = state_matrix::<T>(s, n);
    let left = kronecker(a, c, b, d);
    let right = state_matrix::<T>(s, m + n);
    let w = d as int;
    assert forall|i: int, j: int| 0 <= i < c * d && 0 <= j < c * d implies #[trigger] entry(
        left,
        c * d,
        i,
        j,
    ) == entry(right, c * d, i, j) by {
        lemma_div_mod_bounds(i, c as int, w);
        lemma_div_mod_bounds(j, c as int, w);
        lemma_kronecker_entry(a, c, b, d, i, j);
        lemma_state_entry::<T>(s, m, i / w, j / w);
        lemma_state_entry::<T>(s, n, i % w, j % w);
        lemma_state_entry::<T>(s, m + n, i, j);
        lemma_entry_products::<T>(s, m, n, i, j);
    }
    lemma_same_entries(left, right, c * d);
}

/// The entries of starting states multiply.
proof fn lemma_entry_products<T: ExactScalar>(s: State, m: nat, n: nat, i: int, j: int)
    requires
        0 <= i < pow2(m + n),
        0 <= j < pow2(m + n),
    ensures
        state_entry::<T>(s, m, i / (pow2(n) as int), j / (pow2(n) as int)).times_spec(
            state_entry::<T>(s, n, i % (pow2(n) as int), j % (pow2(n) as int)),
        ) == state_entry::<T>(s, m + n, i, j),
{
    let c = pow2(m) as int;
    let w = pow2(n) as int;
    let e = T::one_spec();
    let o = T::zero_spec();
    lemma_pow2_adds(m, n);
    lemma_pow2_pos(m);
    lemma_pow2_pos(n);
    lemma_div_mod_bounds(i, c, w);
    lemma_div_mod_bounds(j, c, w);
    lemma_one_times(e);
    lemma_times_zero(e);
    lemma_times_zero(o);
    match s {
        State::ZERO => {
            lemma_div_mod_of(0, 0, w);
            assert(0 * w == 0) by (nonlinear_arith);
        },
        State::ONE => {
            let top = c * w - 1;
            assert(top == (c - 1) * w + (w - 1)) by (nonlinear_arith)
                requires
                    top == c * w - 1,
            ;
            lemma_div_mod_of(c - 1, w - 1, w);
        },
        State::PLUS => {
            lemma_shares_multiply::<T>(m, n);
        },
        State::MINUS => {
            let x = e.over_spec(T::natural_spec(pow2(m)));
            let y = e.over_spec(T::natural_spec(pow2(n)));
            let (ih, il) = ((i / w) as nat, (i % w) as nat);
            let (jh, jl) = ((j / w) as nat, (j % w) as nat);
            lemma_shares_multiply::<T>(m, n);
            lemma_times_interchange(x, sign::<T>(ih, jh), y, sign::<T>(il, jl));
            lemma_signs_multiply::<T>(ih, jh, il, jl);
            lemma_ones_of_parts(i as nat, n);
            lemma_ones_of_parts(j as nat, n);
        },
    }
}

/// Every starting state has the trace 1.
pub proof fn law_states_have_trace_one<T: ExactScalar>(s: State, n: nat)
    ensures
        trace_of(state_matrix::<T>(s, n), pow2(n)) == T::one_spec(),
{
    let d = pow2(n);
    let m = state_matrix::<T>(s, n);
    let f = diagonal(m, d);
    let g = |i: int| state_entry::<T>(s, n, i, i);
    let e = T::one_spec();
    let share = e.over_spec(T::natural_spec(d));
    lemma_pow2_pos(n);
    assert forall|i: int| 0 <= i < d implies #[trigger] f(i) == g(i) by {
        lemma_state_entry::<T>(s, n, i, i);
    }
    lemma_sum_same(f, g, d);
    match s {
        State::ZERO => {
            lemma_sum_single(g, d, 0);
        },
        State::ONE => {
            lemma_sum_single(g, d, d - 1);
        },
        _ => {
            assert forall|i: int| 0 <= i < d implies #[trigger] g(i) == share by {
                T::times_one(share);
            }
            lemma_sum_constant(g, share, d);
            lemma_pow2_is_not_zero::<T>(n);
            T::over_undoes_times(e, T::natural_spec(d));
            T::times_commutes(share, T::natural_spec(d));
        },
    }
}

/// Every starting state is pure: its matrix times itself is itself.
pub proof fn law_states_are_pure<T: ExactScalar>(s: State, n: nat)
    ensures
        matrix_product(state_matrix::<T>(s, n), state_matrix::<T>(s, n), pow2(n))
            == state_matrix::<T>(s, n),
{
    let d = pow2(n);
    let m = state_matrix::<T>(s, n);
    let left = matrix_product(m, m, d);
    assert forall|i: int, j: int| 0 <= i < d && 0 <= j < d implies #[trigger] entry(left, d, i, j)
        == entry(m, d, i, j) by {
        lemma_product_entry(m, m, d, i, j);
        lemma_state_entry::<T>(s, n, i, j);
        lemma_state_squared::<T>(s, n, i, j);
        let f = |k: int| entry(m, d, i, k);
        let g = |k: int| entry(m, d, k, j);
        let p = |k: int| state_entry::<T>(s, n, i, k);
        let q = |k: int| state_entry::<T>(s, n, k, j);
        assert forall|k: int| 0 <= k < d implies #[trigger] f(k) == p(k) by {
            lemma_state_entry::<T>(s, n, i, k);
        }
        assert forall|k: int| 0 <= k < d implies #[trigger] g(k) == q(k) by {
            lemma_state_entry::<T>(s, n, k, j);
        }
        lemma_dot_same(f, g, p, q, d);
    }
    lemma_same_entries(left, m, d);
}

/// One entry of the square of a starting state.
proof fn lemma_state_squared<T: ExactScalar>(s: State, n: nat, i: int, j: int)
    requires
        0 <= i < pow2(n),
        0 <= j < pow2(n),
    ensures
        dot(
            |k: int| state_entry::<T>(s, n, i, k),
            |k: int| state_entry::<T>(s, n, k, j),
            pow2(n),
        ) == state_entry::<T>(s, n, i, j),
{
    let d = pow2(n);
    let p = |k: int| state_entry::<T>(s, n, i, k);
    let q = |k: int| state_entry::<T>(s, n, k, j);
    let e = T::one_spec();
    let share = e.over_spec(T::natural_spec(d));
    lemma_pow2_pos(n);
    match s {
        State::ZERO => {
            lemma_dot_pick_scaled(p, q, d, 0);
            lemma_one_times(q(0));
            lemma_times_zero(q(0));
        },
        State::ONE => {
            lemma_dot_pick_scaled(p, q, d, d - 1);
            lemma_one_times(q(d - 1));
            lemma_times_zero(q(d - 1));
        },
        _ => {
            let c = state_entry::<T>(s, n, i, j);
            let f = |k: int| p(k).times_spec(q(k));
            let term = share.times_spec(c);
            assert forall|k: int| 0 <= k < d implies #[trigger] f(k) == term by {
                let (a, b, x) = (i as nat, j as nat, k as nat);
                if s == State::MINUS {
                    lemma_times_interchange(share, sign::<T>(a, x), share, sign::<T>(x, b));
                    lemma_signs_multiply::<T>(a, x, x, b);
                    T::times_associates(share, share, sign::<T>(a, b));
                }
            }
            lemma_sum_constant(f, term, d);
            lemma_pow2_is_not_zero::<T>(n);
            T::over_undoes_times(e, T::natural_spec(d));
            T::times_commutes(share, T::natural_spec(d));
            T::times_associates(T::natural_spec(d), share, c);
            lemma_one_times(c);
        },
    }
}

/// Conjugation keeps whole numbers.
pub proof fn lemma_conj_natural<T: ExactScalar>(n: nat)
    ensures
        T::natural_spec(n).conj_spec() == T::natural_spec(n),
    decreases n,
{
    lemma_conj_constants::<T>();
    if n == 0 {
        lemma_natural_zero::<T>();
    } else {
        let k = (n - 1) as nat;
        lemma_conj_natural::<T>(k);
        T::natural_plus(k, 1);
        T::natural_one();
        T::conj_of_plus(T::natural_spec(k), T::one_spec());
    }
}

/// Every starting state is its own conjugate transpose.
pub proof fn law_states_are_hermitian<T: ExactScalar>(s: State, n: nat)
    ensures
        hermitian(state_matrix::<T>(s, n), pow2(n)),
{
    let d = pow2(n);
    let m = state_matrix::<T>(s, n);
    let e = T::one_spec();
    let share = e.over_spec(T::natural_spec(d));
    lemma_conj_constants::<T>();
    lemma_conj_negated(e);
    assert(share.conj_spec() == share) by {
        lemma_pow2_is_not_zero::<T>(n);
        T::over_undoes_times(e, T::natural_spec(d));
        T::conj_of_times(share, T::natural_spec(d));
        lemma_conj_natural::<T>(d);
        lemma_quotient_unique(e, T::natural_spec(d), share.conj_spec());
    }
    assert forall|i: int, j: int| 0 <= i < d && 0 <= j < d implies #[trigger] entry(m, d, i, j)
        == entry(m, d, j, i).conj_spec() by {
        lemma_state_entry::<T>(s, n, i, j);
        lemma_state_entry::<T>(s, n, j, i);
        T::conj_of_times(share, sign::<T>(j as nat, i as nat));
    }
}

/// Tracing out the last qubits of a starting state leaves the starting state of the
/// others.
pub proof fn law_ptrace_of_state<T: ExactScalar>(s: State, m: nat, n: nat)
    requires
        m + n <= usize::MAX,
    ensures
        reduced(state_matrix::<T>(s, m + n), m + n, qubit_range(m, m + n)) == state_matrix::<T>(
            s,
            m,
        ),
{
    let a = state_matrix::<T>(s, m);
    let b = state_matrix::<T>(s, n);
    law_states_are_products::<T>(s, m, n);
    law_states_have_trace_one::<T>(s, n);
    law_ptrace_undoes_tensor(a, m, b, n);
    assert forall|k: int| 0 <= k < a.len() implies scaled(a, T::one_spec())[k] == a[k] by {
        T::times_one(a[k]);
    }
    assert(scaled(a, T::one_spec()) =~= a);
}

/// The shape of a new matrix is one that a density matrix can be made from again,
/// on as many qubits.
pub proof fn law_new_shape_is_accepted(n: nat)
    requires
        pow2(2 * n) <= usize::MAX,
    ensures
        product_fits(twos(2 * n)),
        exponent(product(twos(2 * n))) == Some(2 * n),
        product(twos(2 * n)) == pow2(n) * pow2(n),
{
    lemma_twos_fit(2 * n);
    lemma_product_of_twos(2 * n);
    lemma_exponent_of_pow2(2 * n);
    lemma_square_of_pow2(n);
}

} // verus!
