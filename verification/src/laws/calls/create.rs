//! Making a matrix.
use crate::binary::ones;
use crate::bits::{exponent, lemma_exponent_of_pow2, lemma_set_bit_bound};
use crate::density_matrix::{DensityMatrix, State};
use crate::laws::states::{lemma_ones_of_parts, lemma_state_entry};
use crate::matrix::{entry, lemma_square_of_pow2, lemma_tabulated_entry, pure_matrix};
use crate::scalar::{lemma_negated_times, lemma_negated_twice, lemma_one_times, ExactScalar, Scalar};
use crate::sums::lemma_div_mod_of;
use crate::tensor::{product, Tensor};
use vstd::arithmetic::div_mod::*;
use vstd::arithmetic::power2::*;
use vstd::prelude::*;

verus! {

/// A new matrix has a row and a column for every combination of values of its
/// qubits, and two indices for every qubit. Its entries are: for zeros a 1 in the
/// first place, for ones a 1 in the last place, for plus the same share
/// everywhere, and for minus the share with a sign that tells whether row and
/// column together have an even or an odd number of ones.
pub proof fn law_new_entries<T: Scalar>(
    nqubits: usize,
    s: State,
    r: DensityMatrix<T>,
    i: int,
    j: int,
)
    requires
        call_ensures(DensityMatrix::<T>::new, (nqubits, s), r),
        0 <= i < pow2(nqubits as nat),
        0 <= j < pow2(nqubits as nat),
    ensures
        r.nqubits == nqubits,
        r.size == pow2(nqubits as nat),
        r.data.data@.len() == pow2(nqubits as nat) * pow2(nqubits as nat),
        r.data.shape@.len() == 2 * nqubits,
        forall|k: int| 0 <= k < 2 * nqubits ==> #[trigger] r.data.shape@[k] == 2,
        ({
            let size = pow2(nqubits as nat);
            let x = r.data.data@[i * size + j];
            let share = T::one_spec().over_spec(T::natural_spec(size));
            match s {
                State::ZERO => x == if i == 0 && j == 0 {
                    T::one_spec()
                } else {
                    T::zero_spec()
                },
                State::ONE => x == if i == size - 1 && j == size - 1 {
                    T::one_spec()
                } else {
                    T::zero_spec()
                },
                State::PLUS => x == share,
                State::MINUS => x == share.times_spec(
                    if (ones(i as nat) + ones(j as nat)) % 2 == 0 {
                        T::one_spec()
                    } else {
                        T::one_spec().negated_spec()
                    },
                ),
            }
        }),
{
    lemma_state_entry::<T>(s, nqubits as nat, i, j);
    assert(entry(r.data.data@, pow2(nqubits as nat), i, j) == r.data.data@[i * pow2(nqubits as nat)
        + j]);
}

/// A new matrix can be had of every size that fits a machine word.
pub proof fn law_new_is_possible<T: Scalar>(nqubits: usize, s: State)
    requires
        pow2(nqubits as nat) * pow2(nqubits as nat) <= usize::MAX,
    ensures
        call_requires(DensityMatrix::<T>::new, (nqubits, s)),
{
    lemma_square_of_pow2(nqubits as nat);
}

/// How ones are counted: a number and its double have as many, and one more makes
/// an even number odd.
pub proof fn law_ones_are_counted(x: nat)
    ensures
        ones(0) == 0,
        ones(2 * x) == ones(x),
        ones(2 * x + 1) == ones(x) + 1,
{
    assert((2 * x) / 2 == x && (2 * x) % 2 == 0);
    assert((2 * x + 1) / 2 == x && (2 * x + 1) % 2 == 1);
}

/// In the state of minuses, an entry changes its sign when one qubit of its row
/// goes from 0 to 1, and when one qubit of its column does.
pub proof fn law_minus_changes_signs<T: ExactScalar>(
    nqubits: usize,
    r: DensityMatrix<T>,
    p: nat,
    i: int,
    j: int,
)
    requires
        call_ensures(DensityMatrix::<T>::new, (nqubits, State::MINUS), r),
        p < nqubits,
        0 <= i < pow2(nqubits as nat),
        0 <= j < pow2(nqubits as nat),
        (i / (pow2(p) as int)) % 2 == 0,
    ensures
        ({
            let size = pow2(nqubits as nat);
            &&& i + pow2(p) < size
            &&& r.data.data@[(i + pow2(p)) * size + j] == r.data.data@[i * size + j].negated_spec()
            &&& r.data.data@[j * size + i + pow2(p)] == r.data.data@[j * size + i].negated_spec()
            &&& r.data.data@[0] == T::one_spec().over_spec(T::natural_spec(size))
        }),
{
    let n = nqubits as nat;
    let size = pow2(n);
    let k = i + pow2(p);
    lemma_set_bit_bound(i as nat, p, n);
    lemma_pow2_pos(p);
    lemma_pow2_pos(n);
    lemma_raised_ones(i as nat, p);
    law_new_entries(nqubits, State::MINUS, r, i, j);
    law_new_entries(nqubits, State::MINUS, r, k, j);
    law_new_entries(nqubits, State::MINUS, r, j, i);
    law_new_entries(nqubits, State::MINUS, r, j, k);
    law_new_entries(nqubits, State::MINUS, r, 0, 0);
    let e = T::one_spec();
    let share = e.over_spec(T::natural_spec(size));
    lemma_one_times(share);
    lemma_negated_times(e, share);
    lemma_negated_twice(share);
    assert(0 * size == 0) by (nonlinear_arith);
    assert(ones(0) == 0);
}

/// Setting a digit adds one to the number of ones.
proof fn lemma_raised_ones(x: nat, p: nat)
    requires
        (x / pow2(p)) % 2 == 0,
    ensures
        ones(x + pow2(p)) == ones(x) + 1,
{
    let w = pow2(p);
    let h = x / w;
    lemma_pow2_pos(p);
    lemma_ones_of_parts(x, p);
    lemma_ones_of_parts(x + w, p);
    lemma_fundamental_div_mod(x as int, w as int);
    lemma_mod_bound(x as int, w as int);
    assert((h + 1) * w == h * w + w && h * w == w * h) by (nonlinear_arith);
    lemma_div_mod_of((h + 1) as int, (x % w) as int, w as int);
    assert((x + w) / w == h + 1 && (x + w) % w == x % w);
    assert(ones(h + 1) == ones(h) + 1) by {
        let g = h / 2;
        law_ones_are_counted(g);
        assert(h == 2 * g);
    }
}

/// A state vector gives the matrix of products of its amplitudes with the conjugate
/// amplitudes, on as many qubits as its length is a power of two.
pub proof fn law_statevec_entries<T: Scalar>(
    v: &[T],
    r: Result<DensityMatrix<T>, &'static str>,
    n: nat,
    i: int,
    j: int,
)
    requires
        call_ensures(DensityMatrix::<T>::from_statevec, (v,), r),
        v@.len() == pow2(n),
        0 <= i < v@.len(),
        0 <= j < v@.len(),
    ensures
        r is Ok,
        r->Ok_0.nqubits == n,
        r->Ok_0.size == v@.len(),
        r->Ok_0.data.data@.len() == v@.len() * v@.len(),
        r->Ok_0.data.data@[i * v@.len() + j] == v@[i].times_spec(v@[j].conj_spec()),
        r->Ok_0.data.shape@.len() == 2 * n,
        forall|k: int| 0 <= k < 2 * n ==> #[trigger] r->Ok_0.data.shape@[k] == 2,
{
    lemma_exponent_of_pow2(n);
    let d = v@.len();
    lemma_tabulated_entry(d, |i: int, j: int| v@[i].times_spec(v@[j].conj_spec()), i, j);
    assert(entry(pure_matrix(v@), d, i, j) == r->Ok_0.data.data@[i * d + j]);
}

/// A state vector is refused if its length is no power of two, and for no other
/// reason; one whose matrix fits a machine word can be given.
pub proof fn law_statevec_is_refused<T: Scalar>(
    v: &[T],
    r: Result<DensityMatrix<T>, &'static str>,
)
    requires
        call_ensures(DensityMatrix::<T>::from_statevec, (v,), r),
    ensures
        r is Err == (forall|n: nat| v@.len() != #[trigger] pow2(n)),
        r matches Err(e) ==> e@ == "The size of the statevec is not a power of two"@,
        v@.len() * v@.len() <= usize::MAX ==> call_requires(
            DensityMatrix::<T>::from_statevec,
            (v,),
        ),
{
    if exists|n: nat| v@.len() == #[trigger] pow2(n) {
        let n = choose|n: nat| v@.len() == #[trigger] pow2(n);
        lemma_exponent_of_pow2(n);
        assert(exponent(v@.len()) is Some);
    } else {
        assert(exponent(v@.len()) is None);
    }
}

/// A tensor becomes the matrix on `n` qubits with the same entries if its dimensions
/// multiply to `4^n`, and is refused otherwise.
pub proof fn law_tensor_is_taken<T: Scalar>(
    t: Tensor<T>,
    r: Result<DensityMatrix<T>, &'static str>,
)
    requires
        call_ensures(DensityMatrix::<T>::from_tensor, (t,), r),
    ensures
        forall|n: nat|
            product(t.shape@) == pow2(n) * pow2(n) ==> {
                &&& r is Ok
                &&& r->Ok_0.data == t
                &&& r->Ok_0.nqubits == n
                &&& r->Ok_0.size == #[trigger] pow2(n)
            },
        (forall|n: nat| product(t.shape@) != #[trigger] pow2(n)) ==> {
            &&& r matches Err(e) && e@ == "Tensor size is not a power of two."@
        },
        forall|n: nat|
            product(t.shape@) == 2 * (pow2(n) * #[trigger] pow2(n)) ==> {
                &&& r matches Err(e) && e@
                    == "Tensor size is not valid. It should be of size 2^(2n) with n the number of qubits."@
            },
        (forall|k: int| 0 <= k <= t.shape@.len() ==> product(#[trigger] t.shape@.take(k)) <= usize::MAX)
            ==> call_requires(DensityMatrix::<T>::from_tensor, (t,)),
{
    assert forall|n: nat| product(t.shape@) == pow2(n) * pow2(n) implies {
        &&& r is Ok
        &&& r->Ok_0.data == t
        &&& r->Ok_0.nqubits == n
        &&& r->Ok_0.size == #[trigger] pow2(n)
    } by {
        lemma_square_of_pow2(n);
        lemma_exponent_of_pow2(2 * n);
        assert((2 * n) / 2 == n && (2 * n) % 2 == 0);
    }
    assert forall|n: nat| product(t.shape@) == 2 * (pow2(n) * #[trigger] pow2(n)) implies {
        &&& r matches Err(e) && e@
            == "Tensor size is not valid. It should be of size 2^(2n) with n the number of qubits."@
    } by {
        lemma_square_of_pow2(n);
        lemma_pow2_unfold(2 * n + 1);
        lemma_exponent_of_pow2(2 * n + 1);
        assert((2 * n + 1) % 2 == 1);
    }
    if forall|n: nat| product(t.shape@) != #[trigger] pow2(n) {
        assert(exponent(product(t.shape@)) is None);
    }
}

/// How dimensions are multiplied.
pub proof fn law_dimensions_multiply(shape: Seq<usize>, d: usize)
    ensures
        product(Seq::<usize>::empty()) == 1,
        product(shape.push(d)) == product(shape) * d,
{
    let longer = shape.push(d);
    assert(longer.drop_last() =~= shape);
    assert(longer.last() == d);
}

} // verus!
