//! The two-qubit gates.
use crate::bits::{
    bit, lemma_bit_step, lemma_bits_determine, lemma_clear_bit, lemma_set_bit, lemma_set_bit_bound,
};
use crate::density_matrix::DensityMatrix;
use crate::laws::calls::{lemma_value_of, value_of, whole};
use crate::laws::evolution::all_below;
use crate::laws::gates::{
    flipped_row, law_cnot_flips, law_entangle_changes_signs, law_swap_exchanges, lemma_swapped_row,
    position_of, swapped_row,
};
use crate::matrix::{entry, positions_of};
use crate::operators::{Operator, TwoQubitsOp};
use crate::positions::lemma_inserted_gathered;
use crate::scalar::{ExactScalar, Scalar};
use vstd::arithmetic::power2::*;
use vstd::prelude::*;

verus! {

/// The matrices of the gates, row by row. With the high digit as the control, CX is the
/// controlled NOT.
pub proof fn law_gate_operators<T: Scalar>(kind: TwoQubitsOp, op: Operator<T>)
    requires
        call_ensures(Operator::<T>::two_qubits, (kind,), op),
    ensures
        op.nqubits == 2,
        op.data.shape@ == seq![2usize, 2, 2, 2],
        ({
            let o = T::zero_spec();
            let e = T::one_spec();
            op.data.data@ == match kind {
                TwoQubitsOp::CX => seq![e, o, o, o, o, e, o, o, o, o, o, e, o, o, e, o],
                TwoQubitsOp::CZ => seq![
                    e,
                    o,
                    o,
                    o,
                    o,
                    e,
                    o,
                    o,
                    o,
                    o,
                    e,
                    o,
                    o,
                    o,
                    o,
                    e.negated_spec(),
                ],
                TwoQubitsOp::SWAP => seq![e, o, o, o, o, o, e, o, o, e, o, o, o, o, o, e],
            }
        }),
        call_requires(Operator::<T>::two_qubits, (kind,)),
{
    let o = T::zero_spec();
    let e = T::one_spec();
    let want = match kind {
        TwoQubitsOp::CX => seq![e, o, o, o, o, e, o, o, o, o, o, e, o, o, e, o],
        TwoQubitsOp::CZ => seq![e, o, o, o, o, e, o, o, o, o, e, o, o, o, o, e.negated_spec()],
        TwoQubitsOp::SWAP => seq![e, o, o, o, o, o, e, o, o, e, o, o, o, o, o, e],
    };
    assert(op.data.data@ =~= want);
}

/// `entangle` does what `evolve` does with the controlled Z and the two qubits in their
/// order, whatever they are, and changes nothing when one of them is not there.
pub proof fn law_entangle_is_evolve<T: Scalar>(
    a: &mut DensityMatrix<T>,
    b: &mut DensityMatrix<T>,
    edge: (usize, usize),
    op: Operator<T>,
    indices: &[usize],
    r: Result<(), String>,
)
    requires
        *old(a) == *old(b),
        indices@ == seq![edge.0, edge.1],
        call_ensures(Operator::<T>::two_qubits, (TwoQubitsOp::CZ,), op),
        call_ensures(DensityMatrix::<T>::entangle, (a, &edge), ()),
        call_ensures(DensityMatrix::<T>::evolve, (b, &op, indices), r),
    ensures
        final(a).data.data@ == final(b).data.data@,
        final(a).data.shape@ == final(b).data.shape@,
        final(a).size == final(b).size,
        final(a).nqubits == final(b).nqubits,
        edge.0 >= old(a).nqubits || edge.1 >= old(a).nqubits ==> *final(a) == *old(a),
        whole(*old(a)) ==> call_requires(DensityMatrix::<T>::entangle, (a, &edge)),
{
    lemma_two_targets(indices@, edge, old(a).nqubits);
}

/// `swap` does what `evolve` does with the operator SWAP and the two qubits in their
/// order, whatever they are, and changes nothing when one of them is not there.
pub proof fn law_swap_is_evolve<T: Scalar>(
    a: &mut DensityMatrix<T>,
    b: &mut DensityMatrix<T>,
    edge: (usize, usize),
    op: Operator<T>,
    indices: &[usize],
    r: Result<(), String>,
)
    requires
        *old(a) == *old(b),
        indices@ == seq![edge.0, edge.1],
        call_ensures(Operator::<T>::two_qubits, (TwoQubitsOp::SWAP,), op),
        call_ensures(DensityMatrix::<T>::swap, (a, &edge), ()),
        call_ensures(DensityMatrix::<T>::evolve, (b, &op, indices), r),
    ensures
        final(a).data.data@ == final(b).data.data@,
        final(a).data.shape@ == final(b).data.shape@,
        final(a).size == final(b).size,
        final(a).nqubits == final(b).nqubits,
        edge.0 >= old(a).nqubits || edge.1 >= old(a).nqubits ==> *final(a) == *old(a),
        whole(*old(a)) ==> call_requires(DensityMatrix::<T>::swap, (a, &edge)),
{
    lemma_two_targets(indices@, edge, old(a).nqubits);
}

/// `cnot` does what `evolve` does with the operator CX and the two qubits in their order,
/// whatever they are, and changes nothing when one of them is not there.
pub proof fn law_cnot_is_evolve<T: Scalar>(
    a: &mut DensityMatrix<T>,
    b: &mut DensityMatrix<T>,
    edge: (usize, usize),
    op: Operator<T>,
    indices: &[usize],
    r: Result<(), String>,
)
    requires
        *old(a) == *old(b),
        indices@ == seq![edge.0, edge.1],
        call_ensures(Operator::<T>::two_qubits, (TwoQubitsOp::CX,), op),
        call_ensures(DensityMatrix::<T>::cnot, (a, &edge), ()),
        call_ensures(DensityMatrix::<T>::evolve, (b, &op, indices), r),
    ensures
        final(a).data.data@ == final(b).data.data@,
        final(a).data.shape@ == final(b).data.shape@,
        final(a).size == final(b).size,
        final(a).nqubits == final(b).nqubits,
        edge.0 >= old(a).nqubits || edge.1 >= old(a).nqubits ==> *final(a) == *old(a),
        whole(*old(a)) ==> call_requires(DensityMatrix::<T>::cnot, (a, &edge)),
{
    lemma_two_targets(indices@, edge, old(a).nqubits);
}

/// Whether both targets are there.
proof fn lemma_two_targets(targets: Seq<usize>, edge: (usize, usize), n: usize)
    requires
        targets == seq![edge.0, edge.1],
    ensures
        all_below(targets, n as nat) == (edge.0 < n && edge.1 < n),
{
    assert(targets[0] == edge.0 && targets[1] == edge.1);
}

/// `entangle` changes the sign of an entry exactly if both qubits are 1 in its row and
/// not both in its column, or the other way round.
pub proof fn law_entangle_signs<T: ExactScalar>(
    m: &mut DensityMatrix<T>,
    edge: (usize, usize),
    i: int,
    j: int,
)
    requires
        whole(*old(m)),
        edge.0 < old(m).nqubits,
        edge.1 < old(m).nqubits,
        0 <= i < old(m).size,
        0 <= j < old(m).size,
        call_ensures(DensityMatrix::<T>::entangle, (m, &edge), ()),
    ensures
        final(m).size == old(m).size,
        final(m).nqubits == old(m).nqubits,
        final(m).data.shape@ == old(m).data.shape@,
        final(m).data.data@.len() == old(m).data.data@.len(),
        ({
            let n = old(m).nqubits as nat;
            let x = old(m).data.data@[i * old(m).size + j];
            let row = value_of(n, edge.0 as int, i) == 1 && value_of(n, edge.1 as int, i) == 1;
            let column = value_of(n, edge.0 as int, j) == 1 && value_of(n, edge.1 as int, j) == 1;
            final(m).data.data@[i * old(m).size + j] == if row != column {
                x.negated_spec()
            } else {
                x
            }
        }),
{
    let n = old(m).nqubits as nat;
    lemma_value_of(n, edge.0 as int, i);
    lemma_value_of(n, edge.1 as int, i);
    lemma_value_of(n, edge.0 as int, j);
    lemma_value_of(n, edge.1 as int, j);
    law_entangle_changes_signs(old(m).data.data@, n, edge.0, edge.1, i, j);
}

/// `swap` moves entries: the entry in row `i` and column `j` comes from the row and the
/// column in which the two qubits have exchanged their values.
pub proof fn law_swap_moves<T: ExactScalar>(
    m: &mut DensityMatrix<T>,
    edge: (usize, usize),
    i: int,
    j: int,
    x: int,
    y: int,
)
    requires
        whole(*old(m)),
        edge.0 < old(m).nqubits,
        edge.1 < old(m).nqubits,
        0 <= i < old(m).size,
        0 <= j < old(m).size,
        0 <= x < old(m).size,
        0 <= y < old(m).size,
        exchanged(old(m).nqubits as nat, edge, i, x),
        exchanged(old(m).nqubits as nat, edge, j, y),
        call_ensures(DensityMatrix::<T>::swap, (m, &edge), ()),
    ensures
        final(m).size == old(m).size,
        final(m).nqubits == old(m).nqubits,
        final(m).data.shape@ == old(m).data.shape@,
        final(m).data.data@.len() == old(m).data.data@.len(),
        final(m).data.data@[i * old(m).size + j] == old(m).data.data@[x * old(m).size + y],
{
    let n = old(m).nqubits as nat;
    law_swap_exchanges(old(m).data.data@, n, edge.0, edge.1, i, j);
    lemma_exchanged(n, edge, i, x);
    lemma_exchanged(n, edge, j, y);
}

/// Whether `x` has the values of the row `i`, with those of two qubits exchanged.
pub open spec fn exchanged(n: nat, edge: (usize, usize), i: int, x: int) -> bool {
    forall|q: int|
        0 <= q < n ==> #[trigger] value_of(n, q, x) == if q == edge.0 {
            value_of(n, edge.1 as int, i)
        } else if q == edge.1 {
            value_of(n, edge.0 as int, i)
        } else {
            value_of(n, q, i)
        }
}

/// There is one such row.
proof fn lemma_exchanged(n: nat, edge: (usize, usize), i: int, x: int)
    requires
        n <= usize::MAX,
        edge.0 < n,
        edge.1 < n,
        0 <= i < pow2(n),
        0 <= x < pow2(n),
        exchanged(n, edge, i, x),
    ensures
        x == swapped_row(n, edge.0, edge.1, i),
{
    let (a, b) = edge;
    let y = swapped_row(n, a, b, i);
    lemma_value_of(n, a as int, i);
    lemma_value_of(n, b as int, i);
    if a == b {
        let pos = positions_of(n, seq![a, b]);
        assert(pos[0] < n && pos[1] < n);
        lemma_inserted_gathered(i as nat, pos, n);
        assert(y == i);
    } else {
        lemma_swapped_row(n, a, b, i, 0);
    }
    let (xn, yn) = (x as nat, y as nat);
    assert forall|k: nat| k < n implies bit(xn, k) == bit(yn, k) by {
        let q = n - 1 - k;
        lemma_value_of(n, q, x);
        lemma_value_of(n, q, i);
        if a != b {
            lemma_swapped_row(n, a, b, i, k);
        }
    }
    lemma_bits_determine(xn, yn, n);
}

/// `cnot` moves entries: the entry in row `i` and column `j` comes from the row and the
/// column in which the first qubit has its value changed if the second one is 1.
pub proof fn law_cnot_moves<T: ExactScalar>(
    m: &mut DensityMatrix<T>,
    edge: (usize, usize),
    i: int,
    j: int,
    x: int,
    y: int,
)
    requires
        whole(*old(m)),
        edge.0 < old(m).nqubits,
        edge.1 < old(m).nqubits,
        edge.0 != edge.1,
        0 <= i < old(m).size,
        0 <= j < old(m).size,
        0 <= x < old(m).size,
        0 <= y < old(m).size,
        controlled(old(m).nqubits as nat, edge, i, x),
        controlled(old(m).nqubits as nat, edge, j, y),
        call_ensures(DensityMatrix::<T>::cnot, (m, &edge), ()),
    ensures
        final(m).size == old(m).size,
        final(m).nqubits == old(m).nqubits,
        final(m).data.shape@ == old(m).data.shape@,
        final(m).data.data@.len() == old(m).data.data@.len(),
        final(m).data.data@[i * old(m).size + j] == old(m).data.data@[x * old(m).size + y],
{
    let n = old(m).nqubits as nat;
    law_cnot_flips(old(m).data.data@, n, edge.0, edge.1, i, j);
    lemma_controlled(n, edge, i, x);
    lemma_controlled(n, edge, j, y);
}

/// Whether `x` has the values of the row `i`, but for the first qubit where the second
/// one is 1.
pub open spec fn controlled(n: nat, edge: (usize, usize), i: int, x: int) -> bool {
    forall|q: int|
        0 <= q < n ==> #[trigger] value_of(n, q, x) == if q == edge.0 && value_of(
            n,
            edge.1 as int,
            i,
        ) == 1 {
            1 - value_of(n, q, i)
        } else {
            value_of(n, q, i)
        }
}

/// There is one such row.
proof fn lemma_controlled(n: nat, edge: (usize, usize), i: int, x: int)
    requires
        n <= usize::MAX,
        edge.0 < n,
        edge.1 < n,
        0 <= i < pow2(n),
        0 <= x < pow2(n),
        controlled(n, edge, i, x),
    ensures
        x == flipped_row(n, edge.0, edge.1, i),
{
    let (a, b) = edge;
    let pa = position_of(n, a);
    let y = flipped_row(n, a, b, i);
    lemma_set_bit_bound(i as nat, pa, n);
    lemma_clear_bit(i as nat, pa, pa);
    lemma_value_of(n, b as int, i);
    let (xn, yn) = (x as nat, y as nat);
    assert forall|k: nat| k < n implies bit(xn, k) == bit(yn, k) by {
        let q = n - 1 - k;
        lemma_value_of(n, q, x);
        lemma_value_of(n, q, i);
        lemma_set_bit(i as nat, pa, k);
        lemma_clear_bit(i as nat, pa, k);
        lemma_bit_step(i as nat, pa);
    }
    lemma_bits_determine(xn, yn, n);
}

/// The rows that `law_swap_moves` and `law_cnot_moves` speak of are always there.
pub proof fn law_gate_rows_exist(n: nat, edge: (usize, usize), i: int)
    requires
        n <= usize::MAX,
        edge.0 < n,
        edge.1 < n,
        0 <= i < pow2(n),
    ensures
        exists|x: int| 0 <= x < pow2(n) && #[trigger] exchanged(n, edge, i, x),
        exists|x: int| 0 <= x < pow2(n) && #[trigger] controlled(n, edge, i, x),
{
    let (a, b) = edge;
    let pa = position_of(n, a);
    lemma_value_of(n, a as int, i);
    lemma_value_of(n, b as int, i);
    let x = if a == b {
        i
    } else {
        swapped_row(n, a, b, i)
    };
    if a != b {
        lemma_swapped_row(n, a, b, i, 0);
    }
    assert forall|q: int| 0 <= q < n implies #[trigger] value_of(n, q, x) == if q == edge.0 {
        value_of(n, edge.1 as int, i)
    } else if q == edge.1 {
        value_of(n, edge.0 as int, i)
    } else {
        value_of(n, q, i)
    } by {
        lemma_value_of(n, q, x);
        lemma_value_of(n, q, i);
        if a != b {
            lemma_swapped_row(n, a, b, i, (n - 1 - q) as nat);
        }
    }
    assert(exchanged(n, edge, i, x));
    let y = flipped_row(n, a, b, i);
    lemma_set_bit_bound(i as nat, pa, n);
    lemma_clear_bit(i as nat, pa, pa);
    assert forall|q: int| 0 <= q < n implies #[trigger] value_of(n, q, y) == if q == edge.0
        && value_of(n, edge.1 as int, i) == 1 {
        1 - value_of(n, q, i)
    } else {
        value_of(n, q, i)
    } by {
        let k = (n - 1 - q) as nat;
        lemma_value_of(n, q, y);
        lemma_value_of(n, q, i);
        lemma_set_bit(i as nat, pa, k);
        lemma_clear_bit(i as nat, pa, k);
        lemma_bit_step(i as nat, pa);
    }
    assert(controlled(n, edge, i, y));
}

} // verus!
