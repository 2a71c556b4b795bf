//! Reading, writing and comparing entries, traces and products.
use crate::density_matrix::DensityMatrix;
use crate::laws::algebra::lemma_kronecker_entry;
use crate::laws::calls::whole;
use crate::matrix::{diagonal, entry, kronecker, lemma_square_of_pow2};
use crate::scalar::Scalar;
use crate::sums::{lemma_div_mod_of, lemma_flat_bound, lemma_sum_same, sum};
use crate::tensor::product;
use vstd::arithmetic::power2::*;
use vstd::prelude::*;

verus! {

/// `get` reads the entry in row `i` and column `j`, and every entry that there is can
/// be asked for.
pub proof fn law_get_reads<T: Scalar>(m: &DensityMatrix<T>, i: u8, j: u8, r: T)
    requires
        whole(*m),
        i * m.size + j < m.size * m.size,
        call_ensures(DensityMatrix::<T>::get, (m, i, j), r),
    ensures
        r == m.data.data@[i * m.size + j],
        call_requires(DensityMatrix::<T>::get, (m, i, j)),
{
}

/// `set` writes the entry in row `i` and column `j`, and changes nothing else.
pub proof fn law_set_writes<T: Scalar>(m: &mut DensityMatrix<T>, i: u8, j: u8, value: T, k: int)
    requires
        whole(*old(m)),
        i * old(m).size + j < old(m).size * old(m).size,
        0 <= k < old(m).data.data@.len(),
        call_ensures(DensityMatrix::<T>::set, (m, i, j, value), ()),
    ensures
        final(m).data.data@.len() == old(m).data.data@.len(),
        final(m).data.data@[k] == if k == i * old(m).size + j {
            value
        } else {
            old(m).data.data@[k]
        },
        final(m).size == old(m).size,
        final(m).nqubits == old(m).nqubits,
        final(m).data.shape@ == old(m).data.shape@,
        call_requires(DensityMatrix::<T>::set, (m, i, j, value)),
{
}

/// What `get` gives after `set`: the value in the place that was written, and in
/// every other place what `get` gave before.
pub proof fn law_get_after_set_call<T: Scalar>(
    m: &mut DensityMatrix<T>,
    i: u8,
    j: u8,
    value: T,
    p: u8,
    q: u8,
    before: T,
    after: T,
)
    requires
        whole(*old(m)),
        i < old(m).size,
        j < old(m).size,
        p < old(m).size,
        q < old(m).size,
        call_ensures(DensityMatrix::<T>::get, (&*old(m), p, q), before),
        call_ensures(DensityMatrix::<T>::set, (m, i, j, value), ()),
        call_ensures(DensityMatrix::<T>::get, (&*final(m), p, q), after),
    ensures
        after == if p == i && q == j {
            value
        } else {
            before
        },
{
    let d = old(m).size as int;
    lemma_flat_bound(p as int, q as int, d, d);
    lemma_flat_bound(i as int, j as int, d, d);
    lemma_div_mod_of(p as int, q as int, d);
    lemma_div_mod_of(i as int, j as int, d);
    law_set_writes(m, i, j, value, p * d + q);
    law_get_reads(old(m), p, q, before);
    law_get_reads(final(m), p, q, after);
}

/// `trace` adds the entries on the diagonal, from the first to the last.
pub proof fn law_trace_adds<T: Scalar>(m: &DensityMatrix<T>, r: T)
    requires
        whole(*m),
        call_ensures(DensityMatrix::<T>::trace, (m,), r),
    ensures
        r == sum(|i: int| m.data.data@[i * m.size + i], m.size as nat),
        call_requires(DensityMatrix::<T>::trace, (m,)),
{
    let f = diagonal(m.data.data@, m.size as nat);
    lemma_sum_same(f, |i: int| m.data.data@[i * m.size + i], m.size as nat);
}

/// How sums are added: from the left, starting with zero.
pub proof fn law_sums_are_added<T: Scalar>(f: spec_fn(int) -> T, n: nat)
    ensures
        sum(f, 0) == T::zero_spec(),
        sum(f, n + 1) == sum(f, n).plus_spec(f(n as int)),
{
}

/// `normalize` divides every entry by what `trace` gives.
pub proof fn law_normalize_divides<T: Scalar>(m: &mut DensityMatrix<T>, t: T, k: int)
    requires
        whole(*old(m)),
        0 <= k < old(m).data.data@.len(),
        call_ensures(DensityMatrix::<T>::trace, (&*old(m),), t),
        call_ensures(DensityMatrix::<T>::normalize, (m,), ()),
    ensures
        final(m).data.data@.len() == old(m).data.data@.len(),
        final(m).data.data@[k] == old(m).data.data@[k].over_spec(t),
        final(m).size == old(m).size,
        final(m).nqubits == old(m).nqubits,
        final(m).data.shape@ == old(m).data.shape@,
        call_requires(DensityMatrix::<T>::normalize, (m,)),
{
}

/// `tensor` multiplies every entry of the one matrix with every entry of the other:
/// the rows and columns of the first give the high digits, those of the second the
/// low digits.
pub proof fn law_tensor_multiplies<T: Scalar>(
    m: &mut DensityMatrix<T>,
    other: &DensityMatrix<T>,
    i: int,
    j: int,
    k: int,
    l: int,
)
    requires
        whole(*old(m)),
        whole(*other),
        0 <= i < old(m).size,
        0 <= j < old(m).size,
        0 <= k < other.size,
        0 <= l < other.size,
        call_ensures(DensityMatrix::<T>::tensor, (m, other), ()),
    ensures
        final(m).nqubits == old(m).nqubits + other.nqubits,
        final(m).size == old(m).size * other.size,
        final(m).size == pow2(final(m).nqubits as nat),
        final(m).data.data@.len() == final(m).size * final(m).size,
        final(m).data.shape@.len() == 2 * final(m).nqubits,
        forall|x: int|
            0 <= x < final(m).data.shape@.len() ==> #[trigger] final(m).data.shape@[x] == 2,
        final(m).data.data@[(i * other.size + k) * final(m).size + j * other.size + l]
            == old(m).data.data@[i * old(m).size + j].times_spec(
            other.data.data@[k * other.size + l],
        ),
        pow2((old(m).nqubits + other.nqubits) as nat) * pow2(
            (old(m).nqubits + other.nqubits) as nat,
        ) <= usize::MAX ==> call_requires(DensityMatrix::<T>::tensor, (m, other)),
{
    let c = old(m).size as int;
    let d = other.size as int;
    let a = old(m).data.data@;
    let b = other.data.data@;
    lemma_pow2_adds(old(m).nqubits as nat, other.nqubits as nat);
    lemma_square_of_pow2((old(m).nqubits + other.nqubits) as nat);
    lemma_flat_bound(i, k, c, d);
    lemma_flat_bound(j, l, c, d);
    lemma_div_mod_of(i, k, d);
    lemma_div_mod_of(j, l, d);
    lemma_kronecker_entry(a, c as nat, b, d as nat, i * d + k, j * d + l);
    assert(entry(kronecker(a, c as nat, b, d as nat), (c * d) as nat, i * d + k, j * d + l)
        == final(m).data.data@[(i * d + k) * (c * d) + j * d + l]);
}

/// `equals` says yes exactly if the shapes multiply to the same number and every
/// entry is close to the one in the same place.
pub proof fn law_equals_compares<T: Scalar>(
    a: &DensityMatrix<T>,
    b: DensityMatrix<T>,
    tol: T::Tolerance,
    r: bool,
)
    requires
        call_ensures(DensityMatrix::<T>::equals, (a, b, tol), r),
    ensures
        r ==> product(a.data.shape@) == product(b.data.shape@),
        forall|k: int|
            r && 0 <= k < a.data.data@.len() ==> #[trigger] a.data.data@[k].close_spec(
                b.data.data@[k],
                tol,
            ),
        !r && product(a.data.shape@) == product(b.data.shape@) ==> exists|k: int|
            0 <= k < a.data.data@.len() && !(#[trigger] a.data.data@[k].close_spec(
                b.data.data@[k],
                tol,
            )),
{
}

/// Where closeness is equality, matrices whose shapes multiply to the same number
/// are equal exactly if they have the same entries.
pub proof fn law_equals_is_equality<T: Scalar>(
    a: &DensityMatrix<T>,
    b: DensityMatrix<T>,
    tol: T::Tolerance,
    r: bool,
)
    requires
        call_ensures(DensityMatrix::<T>::equals, (a, b, tol), r),
        forall|x: T, y: T| #[trigger] x.close_spec(y, tol) == (x == y),
        product(a.data.shape@) == product(b.data.shape@),
        a.data.data@.len() == b.data.data@.len(),
    ensures
        r == (a.data.data@ == b.data.data@),
{
    law_equals_compares(a, b, tol, r);
    if r {
        assert forall|k: int| 0 <= k < a.data.data@.len() implies a.data.data@[k]
            == b.data.data@[k] by {
            assert(a.data.data@[k].close_spec(b.data.data@[k], tol));
        }
        assert(a.data.data@ =~= b.data.data@);
    }
}

/// Matrices with as many entries as their shapes say can be compared.
pub proof fn law_equals_is_possible<T: Scalar>(
    a: &DensityMatrix<T>,
    b: DensityMatrix<T>,
    tol: T::Tolerance,
)
    requires
        a.data.data@.len() == product(a.data.shape@),
        b.data.data@.len() == product(b.data.shape@),
        forall|k: int|
            0 <= k <= a.data.shape@.len() ==> product(#[trigger] a.data.shape@.take(k))
                <= usize::MAX,
        forall|k: int|
            0 <= k <= b.data.shape@.len() ==> product(#[trigger] b.data.shape@.take(k))
                <= usize::MAX,
    ensures
        call_requires(DensityMatrix::<T>::equals, (a, b, tol)),
{
}

} // verus!
