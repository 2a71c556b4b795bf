//! The partial trace.
use crate::binary::to_binary;
use crate::bits::{bit, lemma_bit_step, lemma_bits_determine};
use crate::density_matrix::DensityMatrix;
use crate::laws::calls::{lemma_value_of, value_of, whole};
use crate::laws::evolution::all_below;
use crate::laws::partial_trace::{
    lemma_reduced_entry, lemma_remaining_contains, lemma_remaining_distinct,
};
use crate::laws::subsystems::lemma_joint_bit;
use crate::matrix::{
    assigned, entry, joint_digits, joint_row, lemma_joint_row_bound, lemma_remaining_bounds,
    reduced, reduced_terms, remaining,
};
use crate::scalar::Scalar;
use crate::sums::{lemma_sum_same, sum};
use vstd::arithmetic::power2::*;
use vstd::prelude::*;

verus! {

/// Whether `kept` lists, in order, the qubits among `n` that are not traced out.
pub open spec fn left_over(n: nat, traced: Seq<usize>, kept: Seq<usize>) -> bool {
    &&& forall|a: int, b: int| 0 <= a < b < kept.len() ==> #[trigger] kept[a] < #[trigger] kept[b]
    &&& forall|k: int| 0 <= k < kept.len() ==> #[trigger] kept[k] < n
    &&& forall|q: usize| q < n ==> #[trigger] kept.contains(q) == !traced.contains(q)
}

/// Whether the qubits that are left over spell `x` in a row, and those that are traced
/// out spell `t`, the first of each list being the most significant digit. Of a qubit
/// that is listed twice, the last place counts.
pub open spec fn row_of(
    n: nat,
    traced: Seq<usize>,
    kept: Seq<usize>,
    x: int,
    t: int,
    row: int,
) -> bool {
    &&& 0 <= row < pow2(n)
    &&& forall|k: int|
        0 <= k < kept.len() ==> value_of(n, #[trigger] kept[k] as int, row) == (x / (pow2(
            (kept.len() - 1 - k) as nat,
        ) as int)) % 2
    &&& forall|k: int|
        0 <= k < traced.len() && last_place(traced, k) ==> value_of(
            n,
            #[trigger] traced[k] as int,
            row,
        ) == (t / (pow2((traced.len() - 1 - k) as nat) as int)) % 2
}

/// Whether the qubit at the place `k` is not listed again later.
pub open spec fn last_place(traced: Seq<usize>, k: int) -> bool {
    forall|l: int| k < l < traced.len() ==> #[trigger] traced[l] != traced[k]
}

/// There is one list of the qubits that are left over.
proof fn lemma_left_over(n: nat, traced: Seq<usize>, kept: Seq<usize>)
    requires
        n <= usize::MAX,
        left_over(n, traced, kept),
    ensures
        kept == remaining(n, traced),
    decreases n,
{
    if n == 0 {
        if kept.len() > 0 {
            assert(kept[0] < n);
        }
        assert(kept =~= remaining(n, traced));
    } else {
        let m = (n - 1) as nat;
        let last = m as usize;
        assert(kept.contains(last) == !traced.contains(last));
        if traced.contains(last) {
            assert forall|k: int| 0 <= k < kept.len() implies #[trigger] kept[k] < m by {
                assert(kept[k] < n);
                assert(kept.contains(kept[k]));
            }
            lemma_left_over(m, traced, kept);
        } else {
            let k = kept.index_of(last);
            let l = kept.len() - 1;
            if k < l {
                assert(kept[k] < kept[l]);
                assert(kept[l] < n);
            }
            let init = kept.drop_last();
            assert forall|a: int| 0 <= a < init.len() implies #[trigger] init[a] < m by {
                assert(kept[a] < kept[l]);
            }
            assert forall|a: int, b: int| 0 <= a < b < init.len() implies #[trigger] init[a]
                < #[trigger] init[b] by {
                assert(kept[a] < kept[b]);
            }
            assert forall|q: usize| q < m implies #[trigger] init.contains(q) == !traced.contains(
                q,
            ) by {
                assert(kept.contains(q) == !traced.contains(q));
                if kept.contains(q) {
                    let a = kept.index_of(q);
                    assert(init[a] == q);
                }
                if init.contains(q) {
                    let a = init.index_of(q);
                    assert(kept[a] == q);
                }
            }
            lemma_left_over(m, traced, init);
            assert(kept =~= init.push(last));
        }
    }
}

/// A listed qubit has a last place.
proof fn lemma_last_place(s: Seq<usize>, q: usize) -> (k: int)
    requires
        s.contains(q),
    ensures
        0 <= k < s.len(),
        s[k] == q,
        last_place(s, k),
    decreases s.len(),
{
    let l = s.len() - 1;
    if s[l] == q {
        l
    } else {
        let init = s.drop_last();
        let c = s.index_of(q);
        assert(init[c] == q);
        let k = lemma_last_place(init, q);
        assert forall|j: int| k < j < s.len() implies #[trigger] s[j] != s[k] by {
            if j < l {
                assert(init[j] != init[k]);
            }
        }
        k
    }
}

/// The digit at a place: the last value that was put there.
proof fn lemma_assigned_last(digits: Seq<u8>, places: Seq<usize>, values: Seq<u8>, q: int)
    requires
        0 <= q < digits.len(),
        all_below(places, digits.len()),
    ensures
        assigned(digits, places, values).len() == digits.len(),
        forall|k: int|
            0 <= k < places.len() && last_place(places, k) && #[trigger] places[k] == q ==> assigned(
                digits,
                places,
                values,
            )[q] == values[k],
        !places.contains(q as usize) ==> assigned(digits, places, values)[q] == digits[q],
    decreases places.len(),
{
    if places.len() > 0 {
        let init = places.drop_last();
        let l = places.len() - 1;
        assert forall|k: int| 0 <= k < init.len() implies #[trigger] init[k] < digits.len() by {
            assert(places[k] < digits.len());
        }
        lemma_assigned_last(digits, init, values, q);
        assert(places[l] < digits.len());
        assert forall|k: int|
            0 <= k < places.len() && last_place(places, k) && #[trigger] places[k]
                == q implies assigned(digits, places, values)[q] == values[k] by {
            if k < l {
                assert(places[l] != places[k]);
                assert(init[k] == q);
                assert(last_place(init, k)) by {
                    assert forall|j: int| k < j < init.len() implies #[trigger] init[j]
                        != init[k] by {
                        assert(places[j] != places[k]);
                    }
                }
            }
        }
        if !places.contains(q as usize) {
            assert(places[l] != q);
            if init.contains(q as usize) {
                let k = init.index_of(q as usize);
                assert(places[k] == q);
            }
        }
    }
}

/// The digits of a joint row, for lists with repetitions too.
proof fn lemma_joint_places(n: nat, traced: Seq<usize>, x: nat, t: nat, q: int)
    requires
        n <= usize::MAX,
        all_below(traced, n),
        0 <= q < n,
    ensures
        ({
            let kept = remaining(n, traced);
            let digit = joint_digits(n, traced, x, t)[q];
            &&& forall|k: int|
                0 <= k < kept.len() && #[trigger] kept[k] == q ==> digit == bit(
                    x,
                    (kept.len() - 1 - k) as nat,
                )
            &&& forall|k: int|
                0 <= k < traced.len() && last_place(traced, k) && #[trigger] traced[k] == q
                    ==> digit == bit(t, (traced.len() - 1 - k) as nat)
        }),
{
    let kept = remaining(n, traced);
    let blank = Seq::new(n, |k: int| 0u8);
    let xb = to_binary(x, kept.len());
    let tb = to_binary(t, traced.len());
    let half = assigned(blank, kept, xb);
    lemma_remaining_bounds(n, traced);
    lemma_remaining_distinct(n, traced);
    lemma_assigned_last(blank, kept, xb, q);
    lemma_assigned_last(half, traced, tb, q);
    let digit = joint_digits(n, traced, x, t)[q];
    assert forall|k: int| 0 <= k < kept.len() && #[trigger] kept[k] == q implies digit == bit(
        x,
        (kept.len() - 1 - k) as nat,
    ) by {
        lemma_remaining_contains(n, traced, q as usize);
        assert(kept.contains(kept[k]));
        assert(last_place(kept, k)) by {
            assert forall|l: int| k < l < kept.len() implies #[trigger] kept[l] != kept[k] by {
            }
        }
        lemma_bit_step(x, (kept.len() - 1 - k) as nat);
    }
    assert forall|k: int|
        0 <= k < traced.len() && last_place(traced, k) && #[trigger] traced[k]
            == q implies digit == bit(t, (traced.len() - 1 - k) as nat) by {
        lemma_bit_step(t, (traced.len() - 1 - k) as nat);
    }
}

/// There is one row with given values.
proof fn lemma_row_of(n: nat, traced: Seq<usize>, kept: Seq<usize>, x: int, t: int, row: int)
    requires
        n <= usize::MAX,
        all_below(traced, n),
        left_over(n, traced, kept),
        0 <= x,
        0 <= t,
        row_of(n, traced, kept, x, t, row),
    ensures
        row == joint_row(n, traced, x as nat, t as nat),
{
    let other = joint_row(n, traced, x as nat, t as nat);
    let mine = row as nat;
    lemma_left_over(n, traced, kept);
    lemma_joint_row_bound(n, traced, x as nat, t as nat);
    assert forall|b: nat| b < n implies bit(mine, b) == bit(other, b) by {
        let q = (n - 1 - b) as nat;
        lemma_joint_bit(n, traced, x as nat, t as nat, q);
        lemma_joint_places(n, traced, x as nat, t as nat, q as int);
        lemma_value_of(n, q as int, row);
        assert(kept.contains(q as usize) == !traced.contains(q as usize));
        if traced.contains(q as usize) {
            let k = lemma_last_place(traced, q as usize);
            assert(traced[k] == q);
        } else {
            let k = kept.index_of(q as usize);
            assert(kept[k] == q);
        }
    }
    lemma_bits_determine(mine, other, n);
}

/// What `ptrace` makes of a matrix: the entry in row `x` and column `y` is the sum, over
/// all values of the traced qubits, of the entries in whose row and column these qubits
/// have the same values, while the qubits that are left over have the values of `x` in
/// the row and those of `y` in the column.
pub proof fn law_ptrace_entries<T: Scalar>(
    m: &mut DensityMatrix<T>,
    qargs: &[usize],
    r: Result<(), &'static str>,
    kept: Seq<usize>,
    x: int,
    y: int,
    rows: spec_fn(int) -> int,
    columns: spec_fn(int) -> int,
)
    requires
        whole(*old(m)),
        forall|k: int| 0 <= k < qargs@.len() ==> #[trigger] qargs@[k] < old(m).nqubits,
        call_ensures(DensityMatrix::<T>::ptrace, (m, qargs), r),
        left_over(old(m).nqubits as nat, qargs@, kept),
        0 <= x < pow2(kept.len()),
        0 <= y < pow2(kept.len()),
        forall|t: int|
            0 <= t < pow2(qargs@.len()) ==> row_of(
                old(m).nqubits as nat,
                qargs@,
                kept,
                x,
                t,
                #[trigger] rows(t),
            ),
        forall|t: int|
            0 <= t < pow2(qargs@.len()) ==> row_of(
                old(m).nqubits as nat,
                qargs@,
                kept,
                y,
                t,
                #[trigger] columns(t),
            ),
    ensures
        r is Ok,
        final(m).nqubits == old(m).nqubits - qargs@.len(),
        final(m).size == pow2(final(m).nqubits as nat),
        final(m).data.data@.len() == pow2(kept.len()) * pow2(kept.len()),
        final(m).data.data@[x * pow2(kept.len()) + y] == sum(
            |t: int| old(m).data.data@[rows(t) * old(m).size + columns(t)],
            pow2(qargs@.len()),
        ),
        kept.len() == 0 ==> final(m).data.shape@ == seq![1usize],
        kept.len() > 0 ==> {
            &&& final(m).data.shape@.len() == 2 * kept.len()
            &&& forall|k: int| 0 <= k < 2 * kept.len() ==> #[trigger] final(m).data.shape@[k] == 2
        },
{
    let n = old(m).nqubits as nat;
    let a = old(m).data.data@;
    let w = pow2(qargs@.len());
    lemma_left_over(n, qargs@, kept);
    lemma_reduced_entry(a, n, qargs@, x, y);
    let f = reduced_terms(a, n, qargs@, x, y);
    let g = |t: int| old(m).data.data@[rows(t) * old(m).size + columns(t)];
    assert forall|t: int| 0 <= t < w implies #[trigger] f(t) == g(t) by {
        assert(row_of(n, qargs@, kept, x, t, rows(t)));
        assert(row_of(n, qargs@, kept, y, t, columns(t)));
        lemma_row_of(n, qargs@, kept, x, t, rows(t));
        lemma_row_of(n, qargs@, kept, y, t, columns(t));
    }
    lemma_sum_same(f, g, w);
    assert(entry(reduced(a, n, qargs@), pow2(kept.len()), x, y) == final(m).data.data@[x * pow2(
        kept.len(),
    ) + y]);
}

/// The lists and rows that `law_ptrace_entries` speaks of are always there.
pub proof fn law_rows_can_be_found(n: nat, traced: Seq<usize>, x: int, t: int)
    requires
        n <= usize::MAX,
        forall|k: int| 0 <= k < traced.len() ==> #[trigger] traced[k] < n,
        0 <= x,
        0 <= t,
    ensures
        exists|kept: Seq<usize>, row: int|
            left_over(n, traced, kept) && #[trigger] row_of(n, traced, kept, x, t, row),
{
    let kept = remaining(n, traced);
    let row = joint_row(n, traced, x as nat, t as nat);
    assert(all_below(traced, n));
    lemma_remaining_ordered(n, traced);
    lemma_remaining_bounds(n, traced);
    assert forall|q: usize| q < n implies #[trigger] kept.contains(q) == !traced.contains(q) by {
        lemma_remaining_contains(n, traced, q);
    }
    assert(left_over(n, traced, kept));
    lemma_joint_row_bound(n, traced, x as nat, t as nat);
    assert forall|k: int| 0 <= k < kept.len() implies value_of(
        n,
        #[trigger] kept[k] as int,
        row as int,
    ) == (x / (pow2((kept.len() - 1 - k) as nat) as int)) % 2 by {
        let q = kept[k];
        assert(q < n);
        lemma_value_of(n, q as int, row as int);
        lemma_joint_bit(n, traced, x as nat, t as nat, q as nat);
        lemma_joint_places(n, traced, x as nat, t as nat, q as int);
    }
    assert forall|k: int| 0 <= k < traced.len() && last_place(traced, k) implies value_of(
        n,
        #[trigger] traced[k] as int,
        row as int,
    ) == (t / (pow2((traced.len() - 1 - k) as nat) as int)) % 2 by {
        let q = traced[k];
        assert(q < n);
        lemma_value_of(n, q as int, row as int);
        lemma_joint_bit(n, traced, x as nat, t as nat, q as nat);
        lemma_joint_places(n, traced, x as nat, t as nat, q as int);
    }
    assert(row_of(n, traced, kept, x, t, row as int));
}

/// The qubits that are left over are listed in order.
proof fn lemma_remaining_ordered(n: nat, traced: Seq<usize>)
    requires
        n <= usize::MAX,
    ensures
        ({
            let kept = remaining(n, traced);
            forall|a: int, b: int|
                0 <= a < b < kept.len() ==> #[trigger] kept[a] < #[trigger] kept[b]
        }),
    decreases n,
{
    if n > 0 {
        let m = (n - 1) as nat;
        lemma_remaining_ordered(m, traced);
        lemma_remaining_bounds(m, traced);
    }
}

/// `ptrace` refuses a list exactly if one of its qubits is not there; the matrix stays as
/// it is. Every other list that is not longer than the number of qubits can be given.
pub proof fn law_ptrace_refuses<T: Scalar>(
    m: &mut DensityMatrix<T>,
    qargs: &[usize],
    r: Result<(), &'static str>,
)
    requires
        call_ensures(DensityMatrix::<T>::ptrace, (m, qargs), r),
    ensures
        r is Err == (exists|k: int|
            0 <= k < qargs@.len() && #[trigger] qargs@[k] >= old(m).nqubits),
        r matches Err(e) ==> {
            &&& *final(m) == *old(m)
            &&& e@ == "Wrong qubit argument for partial trace"@
        },
        r is Err || (whole(*old(m)) && qargs@.len() <= old(m).nqubits) ==> call_requires(
            DensityMatrix::<T>::ptrace,
            (m, qargs),
        ),
{
    if exists|k: int| 0 <= k < qargs@.len() && #[trigger] qargs@[k] >= old(m).nqubits {
        let k = choose|k: int| 0 <= k < qargs@.len() && #[trigger] qargs@[k] >= old(m).nqubits;
        assert(!(qargs@[k] < old(m).nqubits));
    } else {
        assert forall|k: int| 0 <= k < qargs@.len() implies #[trigger] qargs@[k]
            < old(m).nqubits by {
            assert(!(qargs@[k] >= old(m).nqubits));
        }
    }
}

} // verus!
