//! The two-qubit gates.
use crate::bits::{
    bit, clear_bit, lemma_bit_step, lemma_bits_determine, lemma_clear_bit, lemma_set_bit,
    lemma_set_bit_bound, set_bit,
};
use crate::density_matrix::{gate_applied, DensityMatrix};
use crate::laws::algebra::lemma_same_entries;
use crate::laws::evolution::{
    all_below, column_product, identity_entry, identity_matrix, law_evolve_composes,
    law_identity_evolves_nothing, law_unitary_keeps_trace, lemma_monomial_entry, lemma_positions_of,
    matrix_product, unitary,
};
use crate::laws::linear::{dot, lemma_dot_pick_scaled};
use crate::matrix::{entry, evolved, evolved_at, lemma_tabulated_entry, positions_of, trace_of};
use crate::operators::{gate_matrix, gate_row, TwoQubitsOp};
use crate::positions::{
    gather, inserted, lemma_gather_bits, lemma_inserted_bits, lemma_inserted_bound,
    lemma_inserted_digit, lemma_inserted_gathered, listed, marked,
};
use crate::scalar::{
    lemma_conj_constants, lemma_conj_negated, lemma_negated_times, lemma_negated_twice,
    lemma_one_times, lemma_times_zero, ExactScalar, Scalar,
};
use vstd::arithmetic::power2::*;
use vstd::prelude::*;

verus! {

/// The entry other than zero in the row `r` of a gate.
pub open spec fn gate_weight<T: Scalar>(kind: TwoQubitsOp, r: int) -> T {
    if kind is CZ && r == 3 {
        T::one_spec().negated_spec()
    } else {
        T::one_spec()
    }
}

/// The number with the digit `k` changed.
pub open spec fn flip_bit(x: nat, k: nat) -> nat {
    if bit(x, k) == 0 {
        set_bit(x, k)
    } else {
        clear_bit(x, k)
    }
}

/// The position of a qubit among `n`, counted from the least significant digit.
pub open spec fn position_of(n: nat, qubit: usize) -> nat {
    (n - qubit - 1) as nat
}

/// The row in which the values of two qubits are exchanged.
pub open spec fn swapped_row(n: nat, a: usize, b: usize, i: int) -> int {
    let pos = positions_of(n, seq![a, b]);
    inserted(i as nat, pos, gather(i as nat, positions_of(n, seq![b, a]))) as int
}

/// Reading an entry of a gate.
proof fn lemma_gate_entry<T: Scalar>(kind: TwoQubitsOp, r: int, c: int)
    requires
        0 <= r < 4,
        0 <= c < 4,
    ensures
        entry(gate_matrix::<T>(kind), 4, r, c) == if c == gate_row(kind, r) {
            gate_weight::<T>(kind, r)
        } else {
            T::zero_spec()
        },
{
    assert((r * 4 + c) / 4 == r && (r * 4 + c) % 4 == c);
}

/// A gate moves the entries of the matrix and changes signs.
proof fn lemma_gate_effect<T: ExactScalar>(
    m: Seq<T>,
    n: nat,
    kind: TwoQubitsOp,
    pos: Seq<usize>,
    i: int,
    j: int,
)
    requires
        pos.len() == 2,
        0 <= i < pow2(n),
        0 <= j < pow2(n),
    ensures
        ({
            let gi = gather(i as nat, pos) as int;
            let gj = gather(j as nat, pos) as int;
            entry(evolved_at(m, n, gate_matrix::<T>(kind), pos), pow2(n), i, j) == gate_weight::<T>(
                kind,
                gi,
            ).times_spec(
                entry(
                    m,
                    pow2(n),
                    inserted(i as nat, pos, gate_row(kind, gi) as nat) as int,
                    inserted(j as nat, pos, gate_row(kind, gj) as nat) as int,
                ).times_spec(gate_weight::<T>(kind, gj)),
            )
        }),
{
    let u = gate_matrix::<T>(kind);
    let to = |r: int| gate_row(kind, r);
    let weight = |r: int| gate_weight::<T>(kind, r);
    lemma2_to64();
    assert forall|r: int, c: int| 0 <= r < 4 && 0 <= c < 4 implies #[trigger] entry(u, 4, r, c)
        == if c == to(r) {
        weight(r)
    } else {
        T::zero_spec()
    } by {
        lemma_gate_entry::<T>(kind, r, c);
    }
    lemma_monomial_entry(m, n, u, pos, to, weight, i, j);
    lemma_conj_constants::<T>();
    lemma_conj_negated(T::one_spec());
}

/// The gathered digits of two positions.
proof fn lemma_gather_two(x: nat, p: usize, q: usize)
    ensures
        gather(x, seq![p, q]) == bit(x, p as nat) + 2 * bit(x, q as nat),
        bit(x, p as nat) == 0 || bit(x, p as nat) == 1,
        bit(x, q as nat) == 0 || bit(x, q as nat) == 1,
{
    let pos = seq![p, q];
    let one = seq![p];
    assert(pos.drop_last() =~= one);
    assert(one.drop_last() =~= Seq::<usize>::empty());
    lemma2_to64();
    lemma_bit_step(x, p as nat);
    lemma_bit_step(x, q as nat);
    assert(gather(x, Seq::<usize>::empty()) == 0);
    assert(gather(x, one) == 0 + bit(x, p as nat) * pow2(0));
    assert(gather(x, pos) == gather(x, one) + bit(x, q as nat) * pow2(1));
}

/// The controlled Z changes the sign of an entry if both qubits are 1 in its row
/// or in its column, but not in both.
pub proof fn law_entangle_changes_signs<T: ExactScalar>(
    m: Seq<T>,
    n: nat,
    a: usize,
    b: usize,
    i: int,
    j: int,
)
    requires
        n <= usize::MAX,
        a < n,
        b < n,
        0 <= i < pow2(n),
        0 <= j < pow2(n),
    ensures
        ({
            let pa = position_of(n, a);
            let pb = position_of(n, b);
            let both_i = bit(i as nat, pa) == 1 && bit(i as nat, pb) == 1;
            let both_j = bit(j as nat, pa) == 1 && bit(j as nat, pb) == 1;
            entry(
                evolved(m, n, gate_matrix::<T>(TwoQubitsOp::CZ), seq![a, b]),
                pow2(n),
                i,
                j,
            ) == if both_i != both_j {
                entry(m, pow2(n), i, j).negated_spec()
            } else {
                entry(m, pow2(n), i, j)
            }
        }),
{
    let targets = seq![a, b];
    let pos = positions_of(n, targets);
    assert(all_below(targets, n));
    lemma_positions_of(n, targets);
    assert(pos =~= seq![position_of(n, a) as usize, position_of(n, b) as usize]);
    lemma_gate_effect(m, n, TwoQubitsOp::CZ, pos, i, j);
    lemma_inserted_gathered(i as nat, pos, n);
    lemma_inserted_gathered(j as nat, pos, n);
    lemma_gather_two(i as nat, pos[0], pos[1]);
    lemma_gather_two(j as nat, pos[0], pos[1]);
    let x = entry(m, pow2(n), i, j);
    let e = T::one_spec();
    lemma_one_times(x);
    lemma_negated_times(e, x);
    lemma_one_times(x.negated_spec());
    lemma_negated_times(e, x.negated_spec());
    lemma_negated_twice(x);
}

/// The swap exchanges the values of two qubits in rows and columns.
pub proof fn law_swap_exchanges<T: ExactScalar>(
    m: Seq<T>,
    n: nat,
    a: usize,
    b: usize,
    i: int,
    j: int,
)
    requires
        n <= usize::MAX,
        a < n,
        b < n,
        0 <= i < pow2(n),
        0 <= j < pow2(n),
    ensures
        entry(
            evolved(m, n, gate_matrix::<T>(TwoQubitsOp::SWAP), seq![a, b]),
            pow2(n),
            i,
            j,
        ) == entry(m, pow2(n), swapped_row(n, a, b, i), swapped_row(n, a, b, j)),
{
    let pos = positions_of(n, seq![a, b]);
    let back = positions_of(n, seq![b, a]);
    assert(pos =~= seq![position_of(n, a) as usize, position_of(n, b) as usize]);
    assert(back =~= seq![position_of(n, b) as usize, position_of(n, a) as usize]);
    lemma_gate_effect(m, n, TwoQubitsOp::SWAP, pos, i, j);
    lemma_gather_two(i as nat, pos[0], pos[1]);
    lemma_gather_two(j as nat, pos[0], pos[1]);
    lemma_gather_two(i as nat, back[0], back[1]);
    lemma_gather_two(j as nat, back[0], back[1]);
    let x = entry(m, pow2(n), swapped_row(n, a, b, i), swapped_row(n, a, b, j));
    lemma_one_times(x);
}

/// The digits of a row with two exchanged qubits.
pub proof fn lemma_swapped_row(n: nat, a: usize, b: usize, i: int, k: nat)
    requires
        n <= usize::MAX,
        a < n,
        b < n,
        a != b,
        0 <= i < pow2(n),
    ensures
        0 <= swapped_row(n, a, b, i) < pow2(n),
        bit(swapped_row(n, a, b, i) as nat, k) == if k == position_of(n, a) {
            bit(i as nat, position_of(n, b))
        } else if k == position_of(n, b) {
            bit(i as nat, position_of(n, a))
        } else {
            bit(i as nat, k)
        },
{
    let targets = seq![a, b];
    let pos = positions_of(n, targets);
    let back = positions_of(n, seq![b, a]);
    assert(all_below(targets, n));
    assert(targets.no_duplicates());
    lemma_positions_of(n, targets);
    assert(pos =~= seq![position_of(n, a) as usize, position_of(n, b) as usize]);
    assert(back =~= seq![position_of(n, b) as usize, position_of(n, a) as usize]);
    let g = gather(i as nat, back);
    lemma_gather_bits(i as nat, back);
    assert(bit(g, 0) == bit(i as nat, back[0] as nat));
    assert(bit(g, 1) == bit(i as nat, back[1] as nat));
    lemma_inserted_bound(i as nat, pos, g, n);
    lemma_inserted_digit(i as nat, pos, g, 0);
    lemma_inserted_digit(i as nat, pos, g, 1);
    lemma_inserted_bits(i as nat, pos, g, k);
    if k != position_of(n, a) && k != position_of(n, b) {
        assert(!listed(pos, k));
        assert(!marked(pos, g, k));
    }
}

/// The controlled NOT changes the first qubit in the rows and columns in which
/// the second one is 1.
pub proof fn law_cnot_flips<T: ExactScalar>(
    m: Seq<T>,
    n: nat,
    a: usize,
    b: usize,
    i: int,
    j: int,
)
    requires
        n <= usize::MAX,
        a < n,
        b < n,
        a != b,
        0 <= i < pow2(n),
        0 <= j < pow2(n),
    ensures
        entry(
            evolved(m, n, gate_matrix::<T>(TwoQubitsOp::CX), seq![a, b]),
            pow2(n),
            i,
            j,
        ) == entry(m, pow2(n), flipped_row(n, a, b, i), flipped_row(n, a, b, j)),
{
    let pos = positions_of(n, seq![a, b]);
    assert(pos =~= seq![position_of(n, a) as usize, position_of(n, b) as usize]);
    lemma_gate_effect(m, n, TwoQubitsOp::CX, pos, i, j);
    lemma_flipped_row(n, a, b, i);
    lemma_flipped_row(n, a, b, j);
    let x = entry(m, pow2(n), flipped_row(n, a, b, i), flipped_row(n, a, b, j));
    lemma_one_times(x);
}

/// The row in which the first qubit is changed if the second one is 1.
pub open spec fn flipped_row(n: nat, a: usize, b: usize, i: int) -> int {
    if bit(i as nat, position_of(n, b)) == 1 {
        flip_bit(i as nat, position_of(n, a)) as int
    } else {
        i
    }
}

/// That row is where the controlled NOT takes a row.
proof fn lemma_flipped_row(n: nat, a: usize, b: usize, i: int)
    requires
        n <= usize::MAX,
        a < n,
        b < n,
        a != b,
        0 <= i < pow2(n),
    ensures
        ({
            let pos = positions_of(n, seq![a, b]);
            let g = gather(i as nat, pos) as int;
            inserted(i as nat, pos, gate_row(TwoQubitsOp::CX, g) as nat) == flipped_row(n, a, b, i)
        }),
{
    let targets = seq![a, b];
    let pos = positions_of(n, targets);
    let pa = position_of(n, a);
    let pb = position_of(n, b);
    assert(all_below(targets, n));
    assert(targets.no_duplicates());
    lemma_positions_of(n, targets);
    assert(pos =~= seq![pa as usize, pb as usize]);
    let x = i as nat;
    let g = gather(x, pos);
    let h = gate_row(TwoQubitsOp::CX, g as int) as nat;
    lemma_gather_two(x, pos[0], pos[1]);
    if bit(x, pb) == 0 {
        lemma_inserted_gathered(x, pos, n);
    } else {
        let y = inserted(x, pos, h);
        let z = flip_bit(x, pa);
        lemma_inserted_bound(x, pos, h, n);
        lemma_set_bit_bound(x, pa, n);
        lemma_clear_bit(x, pa, pa);
        assert(bit(h, 0) == 1 - bit(x, pa) && bit(h, 1) == 1) by {
            lemma2_to64();
            lemma_bit_step(h, 0);
            lemma_bit_step(h / 2, 0);
        }
        assert forall|k: nat| k < n implies bit(y, k) == bit(z, k) by {
            lemma_inserted_digit(x, pos, h, 0);
            lemma_inserted_digit(x, pos, h, 1);
            lemma_inserted_bits(x, pos, h, k);
            lemma_set_bit(x, pa, k);
            lemma_clear_bit(x, pa, k);
            if k != pa && k != pb {
                assert(!listed(pos, k));
                assert(!marked(pos, h, k));
            }
        }
        lemma_bits_determine(y, z, n);
    }
}

/// The controlled Z and the swap do not depend on the order of the two qubits.
pub proof fn law_edge_order<T: ExactScalar>(
    m: Seq<T>,
    n: nat,
    kind: TwoQubitsOp,
    a: usize,
    b: usize,
)
    requires
        n <= usize::MAX,
        a < n,
        b < n,
        kind is CZ || kind is SWAP,
    ensures
        evolved(m, n, gate_matrix::<T>(kind), seq![a, b]) == evolved(
            m,
            n,
            gate_matrix::<T>(kind),
            seq![b, a],
        ),
{
    let size = pow2(n);
    let left = evolved(m, n, gate_matrix::<T>(kind), seq![a, b]);
    let right = evolved(m, n, gate_matrix::<T>(kind), seq![b, a]);
    assert forall|i: int, j: int| 0 <= i < size && 0 <= j < size implies #[trigger] entry(
        left,
        size,
        i,
        j,
    ) == entry(right, size, i, j) by {
        if kind is CZ {
            law_entangle_changes_signs(m, n, a, b, i, j);
            law_entangle_changes_signs(m, n, b, a, i, j);
        } else {
            law_swap_exchanges(m, n, a, b, i, j);
            law_swap_exchanges(m, n, b, a, i, j);
            if a != b {
                lemma_swapped_symmetric(n, a, b, i);
                lemma_swapped_symmetric(n, a, b, j);
            }
        }
    }
    lemma_same_entries(left, right, size);
}

/// Exchanging two qubits is the same in either order.
proof fn lemma_swapped_symmetric(n: nat, a: usize, b: usize, i: int)
    requires
        n <= usize::MAX,
        a < n,
        b < n,
        a != b,
        0 <= i < pow2(n),
    ensures
        swapped_row(n, a, b, i) == swapped_row(n, b, a, i),
{
    let x = swapped_row(n, a, b, i) as nat;
    let y = swapped_row(n, b, a, i) as nat;
    lemma_swapped_row(n, a, b, i, 0);
    lemma_swapped_row(n, b, a, i, 0);
    assert forall|k: nat| k < n implies bit(x, k) == bit(y, k) by {
        lemma_swapped_row(n, a, b, i, k);
        lemma_swapped_row(n, b, a, i, k);
    }
    lemma_bits_determine(x, y, n);
}

/// The gates are unitary.
pub proof fn law_gates_are_unitary<T: ExactScalar>(kind: TwoQubitsOp)
    ensures
        unitary(gate_matrix::<T>(kind), 4),
{
    let u = gate_matrix::<T>(kind);
    let e = T::one_spec();
    lemma_conj_constants::<T>();
    lemma_conj_negated(e);
    lemma_one_times(e);
    lemma_one_times(e.negated_spec());
    lemma_negated_times(e, e.negated_spec());
    lemma_negated_twice(e);
    lemma_times_zero(e);
    lemma_times_zero(e.negated_spec());
    assert forall|p: int, q: int| 0 <= p < 4 && 0 <= q < 4 implies #[trigger] column_product(
        u,
        4,
        p,
        q,
    ) == identity_entry::<T>(p, q) by {
        let f = |b: int| entry(u, 4, b, p);
        let g = |b: int| entry(u, 4, b, q).conj_spec();
        let k = gate_row(kind, p);
        assert forall|b: int| 0 <= b < 4 && b != k implies #[trigger] f(b) == T::zero_spec() by {
            lemma_gate_entry::<T>(kind, b, p);
        }
        lemma_gate_entry::<T>(kind, k, p);
        lemma_gate_entry::<T>(kind, k, q);
        lemma_dot_pick_scaled(f, g, 4, k);
    }
}

/// A gate times itself is the identity.
proof fn lemma_gate_square<T: ExactScalar>(kind: TwoQubitsOp)
    ensures
        matrix_product(gate_matrix::<T>(kind), gate_matrix::<T>(kind), 4) == identity_matrix::<T>(
            4,
        ),
{
    let u = gate_matrix::<T>(kind);
    let left = matrix_product(u, u, 4);
    let right = identity_matrix::<T>(4);
    let e = T::one_spec();
    lemma_one_times(e);
    lemma_one_times(e.negated_spec());
    lemma_negated_times(e, e.negated_spec());
    lemma_negated_twice(e);
    lemma_times_zero(e);
    lemma_times_zero(e.negated_spec());
    let h = |r: int, c: int| dot(|k: int| entry(u, 4, r, k), |k: int| entry(u, 4, k, c), 4);
    let id = |r: int, c: int| identity_entry::<T>(r, c);
    assert forall|r: int, c: int| 0 <= r < 4 && 0 <= c < 4 implies #[trigger] entry(left, 4, r, c)
        == entry(right, 4, r, c) by {
        lemma_tabulated_entry(4, h, r, c);
        lemma_tabulated_entry(4, id, r, c);
        let f = |k: int| entry(u, 4, r, k);
        let g = |k: int| entry(u, 4, k, c);
        let k = gate_row(kind, r);
        assert forall|b: int| 0 <= b < 4 && b != k implies #[trigger] f(b) == T::zero_spec() by {
            lemma_gate_entry::<T>(kind, r, b);
        }
        lemma_gate_entry::<T>(kind, r, k);
        lemma_gate_entry::<T>(kind, k, c);
        lemma_dot_pick_scaled(f, g, 4, k);
    }
    lemma_same_entries(left, right, 4);
}

/// Applying a gate twice to two different qubits gives the matrix back.
pub proof fn law_gate_twice<T: ExactScalar>(
    before: DensityMatrix<T>,
    middle: DensityMatrix<T>,
    after: DensityMatrix<T>,
    kind: TwoQubitsOp,
    edge: (usize, usize),
)
    requires
        before.wf(),
        edge.0 != edge.1,
        gate_applied(before, middle, kind, edge),
        gate_applied(middle, after, kind, edge),
    ensures
        after.wf(),
        after.nqubits == before.nqubits,
        after.data.shape == before.data.shape,
        after.data.data@ == before.data.data@,
{
    if edge.0 < before.nqubits && edge.1 < before.nqubits {
        let n = before.nqubits as nat;
        let targets = seq![edge.0, edge.1];
        assert(all_below(targets, n));
        assert(targets.no_duplicates());
        lemma2_to64();
        lemma_gate_square::<T>(kind);
        law_evolve_composes(
            before.data.data@,
            n,
            gate_matrix::<T>(kind),
            gate_matrix::<T>(kind),
            targets,
        );
        law_identity_evolves_nothing(before.data.data@, n, targets);
    }
}

/// A gate on two different qubits keeps the trace.
pub proof fn law_gate_keeps_trace<T: ExactScalar>(
    before: DensityMatrix<T>,
    after: DensityMatrix<T>,
    kind: TwoQubitsOp,
    edge: (usize, usize),
)
    requires
        before.wf(),
        edge.0 != edge.1,
        gate_applied(before, after, kind, edge),
    ensures
        trace_of(after.data.data@, after.size as nat) == trace_of(
            before.data.data@,
            before.size as nat,
        ),
{
    if edge.0 < before.nqubits && edge.1 < before.nqubits {
        let n = before.nqubits as nat;
        let targets = seq![edge.0, edge.1];
        assert(all_below(targets, n));
        assert(targets.no_duplicates());
        lemma2_to64();
        law_gates_are_unitary::<T>(kind);
        law_unitary_keeps_trace(before.data.data@, n, gate_matrix::<T>(kind), targets);
    }
}

} // verus!
