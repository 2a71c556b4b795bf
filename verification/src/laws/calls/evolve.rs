//! Operators that act on qubits.
use crate::bits::{bit, lemma_bits_determine, lemma_clear_bit, lemma_set_bit, lemma_set_bit_bound};
use crate::density_matrix::DensityMatrix;
use crate::laws::calls::{lemma_value_of, value_of, whole};
use crate::laws::evolution::{all_below, lemma_evolved_entry, lemma_positions_of};
use crate::matrix::{entry, evolved, evolved_terms, positions_of};
use crate::operators::Operator;
use crate::positions::{
    gather, inserted, lemma_gather_bits, lemma_inserted_bits, lemma_inserted_bound, listed, marked,
};
use crate::scalar::Scalar;
use crate::sums::{lemma_div_mod_bounds, lemma_sum_same, sum};
use crate::text::decimal_text;
use vstd::arithmetic::power2::*;
use vstd::prelude::*;

verus! {

/// Whether the number `g` spells the values of the targets in the row `i` of `n`
/// qubits: its lowest binary digit is the value of the first target, and so on.
pub open spec fn spells(n: nat, targets: Seq<usize>, i: int, g: int) -> bool {
    &&& 0 <= g < pow2(targets.len())
    &&& forall|k: int|
        0 <= k < targets.len() ==> (g / (pow2(k as nat) as int)) % 2 == value_of(
            n,
            #[trigger] targets[k] as int,
            i,
        )
}

/// Whether `x` is the row `i` of `n` qubits with the values of the targets replaced by
/// those that `p` spells: all other qubits keep their values. A target that is listed
/// twice is 1 if `p` has a 1 in one of its places.
pub open spec fn rewritten(n: nat, targets: Seq<usize>, i: int, p: int, x: int) -> bool {
    &&& 0 <= x < pow2(n)
    &&& forall|q: int|
        0 <= q < n ==> #[trigger] value_of(n, q, x) == if raises(targets, p, q) {
            1
        } else if targets.contains(q as usize) {
            0
        } else {
            value_of(n, q, i)
        }
}

/// Whether `p` has a 1 in a place of the target `q`.
pub open spec fn raises(targets: Seq<usize>, p: int, q: int) -> bool {
    exists|k: int|
        0 <= k < targets.len() && #[trigger] targets[k] == q && (p / (pow2(k as nat) as int)) % 2
            == 1
}

/// There is one number that spells the values of the targets.
proof fn lemma_spells(n: nat, targets: Seq<usize>, i: int, g: int)
    requires
        n <= usize::MAX,
        all_below(targets, n),
        0 <= i,
        spells(n, targets, i, g),
    ensures
        g == gather(i as nat, positions_of(n, targets)),
{
    let pos = positions_of(n, targets);
    let h = gather(i as nat, pos);
    lemma_gather_bits(i as nat, pos);
    assert forall|k: nat| k < targets.len() implies bit(g as nat, k) == bit(h, k) by {
        let q = targets[k as int];
        assert(q < n);
        lemma_value_of(n, q as int, i);
        assert(pos[k as int] == n - q - 1);
        assert(bit(h, k) == bit(i as nat, pos[k as int] as nat));
    }
    lemma_bits_determine(g as nat, h, targets.len());
}

/// There is one rewritten row.
proof fn lemma_rewritten(n: nat, targets: Seq<usize>, i: int, p: int, x: int)
    requires
        n <= usize::MAX,
        all_below(targets, n),
        0 <= i < pow2(n),
        0 <= p,
        rewritten(n, targets, i, p, x),
    ensures
        x == inserted(i as nat, positions_of(n, targets), p as nat),
{
    let pos = positions_of(n, targets);
    let y = inserted(i as nat, pos, p as nat);
    lemma_positions_of(n, targets);
    lemma_inserted_bound(i as nat, pos, p as nat, n);
    assert forall|b: nat| b < n implies bit(x as nat, b) == bit(y, b) by {
        let q = n - 1 - b;
        lemma_value_of(n, q, x);
        lemma_value_of(n, q, i);
        lemma_inserted_bits(i as nat, pos, p as nat, b);
        if raises(targets, p, q) {
            let k = choose|k: int|
                0 <= k < targets.len() && #[trigger] targets[k] == q && (p / (pow2(
                    k as nat,
                ) as int)) % 2 == 1;
            assert(pos[k] == b);
            assert(marked(pos, p as nat, b));
        }
        if marked(pos, p as nat, b) {
            let k = choose|k: int|
                0 <= k < pos.len() && #[trigger] pos[k] == b && bit(p as nat, k as nat) == 1;
            assert(targets[k] < n);
            assert(targets[k] == q);
        }
        if targets.contains(q as usize) {
            let k = targets.index_of(q as usize);
            assert(targets[k] == q);
            assert(pos[k] == b);
            assert(listed(pos, b));
        }
        if listed(pos, b) {
            let k = choose|k: int| 0 <= k < pos.len() && #[trigger] pos[k] == b;
            assert(targets[k] < n);
            assert(targets[k] == q);
        }
    }
    lemma_bits_determine(x as nat, y, n);
}

/// One entry of an evolved matrix.
proof fn lemma_evolved_spelled<T: Scalar>(
    m: Seq<T>,
    n: nat,
    u: Seq<T>,
    targets: Seq<usize>,
    i: int,
    j: int,
    gi: int,
    gj: int,
    x: spec_fn(int) -> int,
    y: spec_fn(int) -> int,
)
    requires
        n <= usize::MAX,
        all_below(targets, n),
        0 <= i < pow2(n),
        0 <= j < pow2(n),
        spells(n, targets, i, gi),
        spells(n, targets, j, gj),
        forall|p: int|
            0 <= p < pow2(targets.len()) ==> rewritten(n, targets, i, p, #[trigger] x(p)),
        forall|q: int|
            0 <= q < pow2(targets.len()) ==> rewritten(n, targets, j, q, #[trigger] y(q)),
    ensures
        ({
            let d = pow2(targets.len()) as int;
            evolved(m, n, u, targets)[i * pow2(n) + j] == sum(
                |k: int|
                    u[gi * d + k / d].times_spec(
                        m[x(k / d) * pow2(n) + y(k % d)],
                    ).times_spec(u[gj * d + k % d].conj_spec()),
                (d * d) as nat,
            )
        }),
{
    let pos = positions_of(n, targets);
    let d = pow2(targets.len()) as int;
    lemma_pow2_pos(targets.len());
    lemma_evolved_entry(m, n, u, pos, i, j);
    lemma_spells(n, targets, i, gi);
    lemma_spells(n, targets, j, gj);
    let f = evolved_terms(m, n, u, pos, i, j);
    let g = |k: int|
        u[gi * d + k / d].times_spec(m[x(k / d) * pow2(n) + y(k % d)]).times_spec(
            u[gj * d + k % d].conj_spec(),
        );
    assert forall|k: int| 0 <= k < d * d implies #[trigger] f(k) == g(k) by {
        lemma_div_mod_bounds(k, d, d);
        let p = k / d;
        let q = k % d;
        assert(rewritten(n, targets, i, p, x(p)));
        assert(rewritten(n, targets, j, q, y(q)));
        lemma_rewritten(n, targets, i, p, x(p));
        lemma_rewritten(n, targets, j, q, y(q));
    }
    lemma_sum_same(f, g, (d * d) as nat);
    assert(entry(evolved(m, n, u, targets), pow2(n), i, j) == evolved(m, n, u, targets)[i * pow2(n)
        + j]);
}

/// What `evolve` makes of an entry: the sum of the entries in all rows and columns that
/// differ from it in the targets alone, each between the operator's entry that leads
/// there from the row and the conjugate of the one that leads there from the column.
pub proof fn law_evolve_entries<T: Scalar>(
    m: &mut DensityMatrix<T>,
    op: &Operator<T>,
    indices: &[usize],
    r: Result<(), String>,
    i: int,
    j: int,
    gi: int,
    gj: int,
    x: spec_fn(int) -> int,
    y: spec_fn(int) -> int,
)
    requires
        whole(*old(m)),
        op.nqubits == indices@.len(),
        forall|k: int| 0 <= k < indices@.len() ==> #[trigger] indices@[k] < old(m).nqubits,
        call_ensures(DensityMatrix::<T>::evolve, (m, op, indices), r),
        0 <= i < old(m).size,
        0 <= j < old(m).size,
        spells(old(m).nqubits as nat, indices@, i, gi),
        spells(old(m).nqubits as nat, indices@, j, gj),
        forall|p: int|
            0 <= p < pow2(indices@.len()) ==> rewritten(
                old(m).nqubits as nat,
                indices@,
                i,
                p,
                #[trigger] x(p),
            ),
        forall|q: int|
            0 <= q < pow2(indices@.len()) ==> rewritten(
                old(m).nqubits as nat,
                indices@,
                j,
                q,
                #[trigger] y(q),
            ),
    ensures
        r is Ok,
        final(m).size == old(m).size,
        final(m).nqubits == old(m).nqubits,
        final(m).data.shape@ == old(m).data.shape@,
        final(m).data.data@.len() == old(m).data.data@.len(),
        ({
            let d = pow2(indices@.len()) as int;
            let size = old(m).size;
            let u = op.data.data@;
            final(m).data.data@[i * size + j] == sum(
                |k: int|
                    u[gi * d + k / d].times_spec(
                        old(m).data.data@[x(k / d) * size + y(k % d)],
                    ).times_spec(u[gj * d + k % d].conj_spec()),
                (d * d) as nat,
            )
        }),
{
    let n = old(m).nqubits as nat;
    let d = pow2(indices@.len()) as int;
    let size = old(m).size;
    let a = old(m).data.data@;
    let u = op.data.data@;
    lemma_evolved_spelled(a, n, u, indices@, i, j, gi, gj, x, y);
    lemma_sum_same(
        |k: int|
            u[gi * d + k / d].times_spec(a[x(k / d) * pow2(n) + y(k % d)]).times_spec(
                u[gj * d + k % d].conj_spec(),
            ),
        |k: int|
            u[gi * d + k / d].times_spec(
                old(m).data.data@[x(k / d) * size + y(k % d)],
            ).times_spec(u[gj * d + k % d].conj_spec()),
        (d * d) as nat,
    );
}

/// The numbers that `law_evolve_entries` speaks of are always there.
pub proof fn law_rows_can_be_rewritten(n: nat, targets: Seq<usize>, i: int, p: int)
    requires
        n <= usize::MAX,
        forall|k: int| 0 <= k < targets.len() ==> #[trigger] targets[k] < n,
        0 <= i < pow2(n),
        0 <= p,
    ensures
        exists|g: int| spells(n, targets, i, g),
        exists|x: int| rewritten(n, targets, i, p, x),
{
    let pos = positions_of(n, targets);
    assert(all_below(targets, n));
    lemma_positions_of(n, targets);
    lemma_gather_bits(i as nat, pos);
    let g = gather(i as nat, pos) as int;
    assert forall|k: int| 0 <= k < targets.len() implies (g / (pow2(k as nat) as int)) % 2
        == value_of(n, #[trigger] targets[k] as int, i) by {
        assert(targets[k] < n);
        lemma_value_of(n, targets[k] as int, i);
        assert(bit(g as nat, k as nat) == bit(i as nat, pos[k] as nat));
    }
    assert(spells(n, targets, i, g));
    let x = inserted(i as nat, pos, p as nat) as int;
    lemma_inserted_bound(i as nat, pos, p as nat, n);
    assert forall|q: int| 0 <= q < n implies #[trigger] value_of(n, q, x) == if raises(
        targets,
        p,
        q,
    ) {
        1
    } else if targets.contains(q as usize) {
        0
    } else {
        value_of(n, q, i)
    } by {
        let b = (n - 1 - q) as nat;
        lemma_value_of(n, q, x);
        lemma_value_of(n, q, i);
        lemma_inserted_bits(i as nat, pos, p as nat, b);
        if raises(targets, p, q) {
            let k = choose|k: int|
                0 <= k < targets.len() && #[trigger] targets[k] == q && (p / (pow2(
                    k as nat,
                ) as int)) % 2 == 1;
            assert(pos[k] == b);
            assert(marked(pos, p as nat, b));
        }
        if marked(pos, p as nat, b) {
            let k = choose|k: int|
                0 <= k < pos.len() && #[trigger] pos[k] == b && bit(p as nat, k as nat) == 1;
            assert(targets[k] < n);
            assert(targets[k] == q);
        }
        if targets.contains(q as usize) {
            let k = targets.index_of(q as usize);
            assert(pos[k] == b);
            assert(listed(pos, b));
        }
        if listed(pos, b) {
            let k = choose|k: int| 0 <= k < pos.len() && #[trigger] pos[k] == b;
            assert(targets[k] < n);
            assert(targets[k] == q);
        }
    }
    assert(rewritten(n, targets, i, p, x));
}

/// `evolve` refuses a list exactly if one of its targets is not there or the operator
/// acts on another number of qubits, and says so; the matrix stays as it is.
pub proof fn law_evolve_refuses<T: Scalar>(
    m: &mut DensityMatrix<T>,
    op: &Operator<T>,
    indices: &[usize],
    r: Result<(), String>,
    n_text: String,
    arity_text: String,
    given_text: String,
    given: usize,
)
    requires
        call_ensures(DensityMatrix::<T>::evolve, (m, op, indices), r),
        given == indices@.len(),
        call_ensures(decimal_text, (old(m).nqubits,), n_text),
        call_ensures(decimal_text, (op.nqubits,), arity_text),
        call_ensures(decimal_text, (given,), given_text),
    ensures
        ({
            let misplaced = exists|k: int|
                0 <= k < indices@.len() && #[trigger] indices@[k] >= old(m).nqubits;
            &&& r is Err == (misplaced || op.nqubits != indices@.len())
            &&& r matches Err(e) ==> {
                &&& *final(m) == *old(m)
                &&& e@ == if misplaced {
                    "One or more target qubits are out of range [0-"@ + n_text@ + "]."@
                } else {
                    "Operator acts on "@ + arity_text@ + " qubits, but "@ + given_text@
                        + " were provided."@
                }
            }
            &&& misplaced || op.nqubits != indices@.len() || (whole(*old(m))
                && op.data.data@.len() >= pow2(op.nqubits as nat) * pow2(op.nqubits as nat))
                ==> call_requires(DensityMatrix::<T>::evolve, (m, op, indices))
        }),
{
    let misplaced = exists|k: int|
        0 <= k < indices@.len() && #[trigger] indices@[k] >= old(m).nqubits;
    if misplaced {
        let k = choose|k: int|
            0 <= k < indices@.len() && #[trigger] indices@[k] >= old(m).nqubits;
        assert(!(indices@[k] < old(m).nqubits));
    } else {
        assert forall|k: int| 0 <= k < indices@.len() implies #[trigger] indices@[k]
            < old(m).nqubits by {
            assert(!(indices@[k] >= old(m).nqubits));
        }
    }
}

/// The row with the value of one qubit replaced.
proof fn lemma_rewritten_single(n: nat, index: usize, i: int, p: int)
    requires
        index < n <= usize::MAX,
        0 <= i < pow2(n),
        0 <= p < 2,
    ensures
        rewritten(
            n,
            seq![index],
            i,
            p,
            i + (p - value_of(n, index as int, i)) * pow2((n - 1 - index) as nat),
        ),
        spells(n, seq![index], i, value_of(n, index as int, i)),
{
    let targets = seq![index];
    let b = (n - 1 - index) as nat;
    let w = pow2(b) as int;
    let v = value_of(n, index as int, i);
    let x = i + (p - v) * w;
    lemma2_to64();
    lemma_value_of(n, index as int, i);
    assert((p - v) * w == if p == v {
        0
    } else if p == 1 {
        w
    } else {
        -w
    }) by (nonlinear_arith)
        requires
            p == 0 || p == 1,
            v == 0 || v == 1,
    ;
    lemma_set_bit_bound(i as nat, b, n);
    lemma_clear_bit(i as nat, b, b);
    assert forall|q: int| 0 <= q < n implies #[trigger] value_of(n, q, x) == if raises(
        targets,
        p,
        q,
    ) {
        1
    } else if targets.contains(q as usize) {
        0
    } else {
        value_of(n, q, i)
    } by {
        let k = (n - 1 - q) as nat;
        lemma_value_of(n, q, x);
        lemma_value_of(n, q, i);
        lemma_set_bit(i as nat, b, k);
        lemma_clear_bit(i as nat, b, k);
        assert(targets[0] == index);
        assert(pow2(0) == 1 && p / 1 == p);
        if q == index {
            assert(raises(targets, p, q) == (p == 1)) by {
                if p == 1 {
                    assert(targets[0] == q && (p / (pow2(0) as int)) % 2 == 1);
                }
            }
        }
    }
    assert(pow2(0) == 1);
    assert(v == 0 || v == 1);
    assert(0int / 1 == 0 && 1int / 1 == 1);
}

/// What `evolve_single` makes of an entry: four terms, for the two values of the qubit
/// in the row and in the column, added in this order to zero.
pub proof fn law_evolve_single_entries<T: Scalar>(
    m: &mut DensityMatrix<T>,
    op: &Operator<T>,
    index: usize,
    r: Result<(), String>,
    i: int,
    j: int,
)
    requires
        whole(*old(m)),
        op.nqubits == 1,
        index < old(m).nqubits,
        call_ensures(DensityMatrix::<T>::evolve_single, (m, op, index), r),
        0 <= i < old(m).size,
        0 <= j < old(m).size,
    ensures
        r is Ok,
        final(m).size == old(m).size,
        final(m).nqubits == old(m).nqubits,
        final(m).data.shape@ == old(m).data.shape@,
        final(m).data.data@.len() == old(m).data.data@.len(),
        ({
            let n = old(m).nqubits as nat;
            let size = old(m).size as int;
            let w = pow2((n - 1 - index) as nat) as int;
            let vi = value_of(n, index as int, i);
            let vj = value_of(n, index as int, j);
            let term = |p: int, q: int|
                op.data.data@[vi * 2 + p].times_spec(
                    old(m).data.data@[(i + (p - vi) * w) * size + (j + (q - vj) * w)],
                ).times_spec(op.data.data@[vj * 2 + q].conj_spec());
            final(m).data.data@[i * size + j] == T::zero_spec().plus_spec(term(0, 0)).plus_spec(
                term(0, 1),
            ).plus_spec(term(1, 0)).plus_spec(term(1, 1))
        }),
{
    let n = old(m).nqubits as nat;
    let size = old(m).size as int;
    let a = old(m).data.data@;
    let u = op.data.data@;
    let w = pow2((n - 1 - index) as nat) as int;
    let vi = value_of(n, index as int, i);
    let vj = value_of(n, index as int, j);
    let x = |p: int| i + (p - vi) * w;
    let y = |q: int| j + (q - vj) * w;
    lemma2_to64();
    let targets = seq![index];
    assert forall|p: int| 0 <= p < pow2(targets.len()) implies rewritten(
        n,
        targets,
        i,
        p,
        #[trigger] x(p),
    ) by {
        lemma_rewritten_single(n, index, i, p);
    }
    assert forall|q: int| 0 <= q < pow2(targets.len()) implies rewritten(
        n,
        targets,
        j,
        q,
        #[trigger] y(q),
    ) by {
        lemma_rewritten_single(n, index, j, q);
    }
    lemma_rewritten_single(n, index, i, 0);
    lemma_rewritten_single(n, index, j, 0);
    lemma_evolved_spelled(a, n, u, targets, i, j, vi, vj, x, y);
    let term = |p: int, q: int|
        u[vi * 2 + p].times_spec(a[(i + (p - vi) * w) * size + (j + (q - vj) * w)]).times_spec(
            u[vj * 2 + q].conj_spec(),
        );
    let d = pow2(targets.len()) as int;
    assert(d == 2 && d * d == 4);
    let f = |k: int|
        u[vi * d + k / d].times_spec(a[x(k / d) * pow2(n) + y(k % d)]).times_spec(
            u[vj * d + k % d].conj_spec(),
        );
    let g = |k: int| term(k / 2, k % 2);
    assert forall|k: int| 0 <= k < 4 implies #[trigger] f(k) == g(k) by {
    }
    lemma_sum_same(f, g, 4);
    reveal_with_fuel(sum, 5);
    assert(g(0) == term(0, 0) && g(1) == term(0, 1) && g(2) == term(1, 0) && g(3) == term(1, 1));
}

/// `evolve_single` refuses a call exactly if the qubit is not there or the operator acts
/// on another number of qubits than one, and says so; the matrix stays as it is.
pub proof fn law_evolve_single_refuses<T: Scalar>(
    m: &mut DensityMatrix<T>,
    op: &Operator<T>,
    index: usize,
    r: Result<(), String>,
    index_text: String,
    n_text: String,
)
    requires
        call_ensures(DensityMatrix::<T>::evolve_single, (m, op, index), r),
        call_ensures(decimal_text, (index,), index_text),
        call_ensures(decimal_text, (old(m).nqubits,), n_text),
    ensures
        r is Err == (index >= old(m).nqubits || op.nqubits != 1),
        r matches Err(e) ==> {
            &&& *final(m) == *old(m)
            &&& e@ == if index >= old(m).nqubits {
                "Target qubit "@ + index_text@ + " is not in the range [0-"@ + n_text@ + "]."@
            } else {
                "Passed operator is not a one qubit operator."@
            }
        },
        index >= old(m).nqubits || op.nqubits != 1 || (whole(*old(m)) && op.data.data@.len() >= 4)
            ==> call_requires(DensityMatrix::<T>::evolve_single, (m, op, index)),
{
    lemma2_to64();
    assert(pow2(1) * pow2(1) == 4) by (nonlinear_arith)
        requires
            pow2(1) == 2,
    ;
}

/// `evolve_single` does what `evolve` does with a list of one.
pub proof fn law_evolve_single_is_evolve<T: Scalar>(
    a: &mut DensityMatrix<T>,
    b: &mut DensityMatrix<T>,
    op: &Operator<T>,
    index: usize,
    indices: &[usize],
    ra: Result<(), String>,
    rb: Result<(), String>,
)
    requires
        *old(a) == *old(b),
        op.nqubits == 1,
        indices@ == seq![index],
        call_ensures(DensityMatrix::<T>::evolve_single, (a, op, index), ra),
        call_ensures(DensityMatrix::<T>::evolve, (b, op, indices), rb),
    ensures
        ra is Ok == rb is Ok,
        final(a).data.data@ == final(b).data.data@,
        final(a).data.shape@ == final(b).data.shape@,
        final(a).size == final(b).size,
        final(a).nqubits == final(b).nqubits,
{
    assert(indices@[0] == index);
    if index < old(a).nqubits {
        assert forall|k: int| 0 <= k < indices@.len() implies #[trigger] indices@[k]
            < old(b).nqubits by {
        }
    }
}

} // verus!
