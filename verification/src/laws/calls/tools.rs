//! Digits, dimensions and tensors.
use crate::binary::{
    bitwise_bin_vec_to_int, bitwise_int_to_bin_vec, count_ones, lemma_from_to_binary, ones,
};
use crate::bits::{
    bit, bit_at, exponent, exponent_of, lemma_bit_step, lemma_exponent_of_pow2, power_of_two,
};
use crate::field9::{F9, Trit};
use crate::positions::{
    clear_bits, gather_bits, lemma_cleared_bits, lemma_gather_bits, lemma_raised_bits, listed,
    marked, raise_bits,
};
use crate::scalar::Scalar;
use crate::tensor::{flat, in_shape, lemma_flat_in_range, product, product_of, Tensor};
use vstd::arithmetic::power2::*;
use vstd::prelude::*;

verus! {

/// The binary digits of a number, the most significant first.
pub proof fn law_binary_digits(x: usize, n: usize, r: Vec<u8>, k: int)
    requires
        call_ensures(bitwise_int_to_bin_vec, (x, n), r),
        0 <= k < n,
    ensures
        r@.len() == n,
        r@[k] == (x as nat / pow2((n - 1 - k) as nat)) % 2,
        n <= usize::BITS ==> call_requires(bitwise_int_to_bin_vec, (x, n)),
{
    lemma_bit_step(x as nat, (n - 1 - k) as nat);
}

/// What binary digits stand for: with one more digit, twice the number and the digit.
pub proof fn law_binary_number(digits: &Vec<u8>, longer: &Vec<u8>, r: usize, s: usize)
    requires
        longer@.len() > 0,
        longer@.drop_last() == digits@,
        call_ensures(bitwise_bin_vec_to_int, (digits,), r),
        call_ensures(bitwise_bin_vec_to_int, (longer,), s),
    ensures
        digits@.len() == 0 ==> r == 0,
        s == 2 * r + longer@.last(),
        (forall|k: int| 0 <= k < digits@.len() ==> #[trigger] digits@[k] <= 1) && pow2(
            digits@.len(),
        ) <= usize::MAX ==> call_requires(bitwise_bin_vec_to_int, (digits,)),
{
}

/// The digits of a number stand for the number.
pub proof fn law_binary_round_trip(x: usize, n: usize, digits: Vec<u8>, r: usize)
    requires
        x < pow2(n as nat),
        call_ensures(bitwise_int_to_bin_vec, (x, n), digits),
        call_ensures(bitwise_bin_vec_to_int, (&digits,), r),
    ensures
        r == x,
{
    lemma_from_to_binary(x as nat, n as nat);
}

/// Counting the ones of a number: as many as in its half, and one more if it is odd.
pub proof fn law_count_ones(x: usize, r: usize, half: usize)
    requires
        call_ensures(count_ones, (x,), r),
        call_ensures(count_ones, ((x / 2) as usize,), half),
    ensures
        r == half + x % 2,
        x == 0 ==> r == 0,
        call_requires(count_ones, (x,)),
{
    assert(ones(0) == 0);
}

/// Powers of two and the digits of a number.
pub proof fn law_digits_of_a_number(x: usize, k: usize, power: usize, digit: usize)
    requires
        call_ensures(power_of_two, (k,), power),
        call_ensures(bit_at, (x, k), digit),
    ensures
        power == pow2(k as nat),
        digit == (x as nat / pow2(k as nat)) % 2,
        pow2(k as nat) <= usize::MAX ==> call_requires(power_of_two, (k,)),
        k < usize::BITS ==> call_requires(bit_at, (x, k)),
{
}

/// The exponent of a power of two is found, and no other number has one.
pub proof fn law_exponents(x: usize, r: Option<usize>)
    requires
        call_ensures(exponent_of, (x,), r),
    ensures
        r matches Some(e) ==> x == pow2(e as nat),
        r is None == (forall|e: nat| x != #[trigger] pow2(e)),
        call_requires(exponent_of, (x,)),
{
    if exists|e: nat| x == #[trigger] pow2(e) {
        let e = choose|e: nat| x == #[trigger] pow2(e);
        lemma_exponent_of_pow2(e);
    } else {
        assert(exponent(x as nat) is None);
    }
}

/// Reading digits at positions: the digit `k` of the result is the one at the position
/// `k` of the list, and there are no others.
pub proof fn law_gathered_digits(x: usize, pos: &Vec<usize>, r: usize, k: int)
    requires
        call_ensures(gather_bits, (x, pos), r),
        0 <= k < pos@.len(),
    ensures
        r < pow2(pos@.len()),
        (r as nat / pow2(k as nat)) % 2 == (x as nat / pow2(pos@[k] as nat)) % 2,
{
    lemma_gather_bits(x as nat, pos@);
    assert(bit(r as nat, k as nat) == bit(x as nat, pos@[k] as nat));
}

/// Clearing digits at positions: they become 0, and the others stay.
pub proof fn law_cleared_digits(x: usize, pos: &Vec<usize>, r: usize, b: nat)
    requires
        call_ensures(clear_bits, (x, pos), r),
    ensures
        r <= x,
        (r as nat / pow2(b)) % 2 == if exists|k: int|
            0 <= k < pos@.len() && #[trigger] pos@[k] == b {
            0
        } else {
            (x as nat / pow2(b)) % 2
        },
{
    lemma_cleared_bits(x as nat, pos@, b);
    assert(bit(r as nat, b) == (r as nat / pow2(b)) % 2);
    assert(bit(x as nat, b) == (x as nat / pow2(b)) % 2);
    assert(listed(pos@, b) == exists|k: int| 0 <= k < pos@.len() && #[trigger] pos@[k] == b);
}

/// Setting digits at positions: those become 1 for which `p` has a 1, and the others
/// stay.
pub proof fn law_raised_digits(x: usize, pos: &Vec<usize>, p: usize, n: usize, r: usize, b: nat)
    requires
        call_ensures(raise_bits, (x, pos, p, n), r),
    ensures
        r < pow2(n as nat),
        (r as nat / pow2(b)) % 2 == if exists|k: int|
            0 <= k < pos@.len() && #[trigger] pos@[k] == b && (p as nat / pow2(k as nat)) % 2
                == 1 {
            1
        } else {
            (x as nat / pow2(b)) % 2
        },
{
    lemma_raised_bits(x as nat, pos@, p as nat, b);
    assert(bit(r as nat, b) == (r as nat / pow2(b)) % 2);
    assert(bit(x as nat, b) == (x as nat / pow2(b)) % 2);
    let found = exists|k: int|
        0 <= k < pos@.len() && #[trigger] pos@[k] == b && (p as nat / pow2(k as nat)) % 2 == 1;
    if marked(pos@, p as nat, b) {
        let k = choose|k: int|
            0 <= k < pos@.len() && #[trigger] pos@[k] == b && bit(p as nat, k as nat) == 1;
        assert(pos@[k] == b && (p as nat / pow2(k as nat)) % 2 == 1);
        assert(found);
    }
    if found {
        let k = choose|k: int|
            0 <= k < pos@.len() && #[trigger] pos@[k] == b && (p as nat / pow2(k as nat)) % 2
                == 1;
        assert(pos@[k] == b && bit(p as nat, k as nat) == 1);
    }
}

/// The product of dimensions: one more dimension multiplies it.
pub proof fn law_product_of_dimensions(
    shape: &Vec<usize>,
    longer: &Vec<usize>,
    r: usize,
    s: usize,
)
    requires
        longer@.len() > 0,
        longer@.drop_last() == shape@,
        call_ensures(product_of, (shape,), r),
        call_ensures(product_of, (longer,), s),
    ensures
        shape@.len() == 0 ==> r == 1,
        s == r * longer@.last(),
        r == product(shape@),
{
}

/// A new tensor has its shape, and a zero for every entry.
pub proof fn law_new_tensor<T: Scalar>(shape: &Vec<usize>, r: Tensor<T>, k: int)
    requires
        call_ensures(Tensor::<T>::new, (shape,), r),
        0 <= k < product(shape@),
    ensures
        r.shape@ == shape@,
        r.data@.len() == product(shape@),
        r.data@[k] == T::zero_spec(),
        (forall|i: int| 0 <= i <= shape@.len() ==> product(#[trigger] shape@.take(i))
            <= usize::MAX) ==> call_requires(Tensor::<T>::new, (shape,)),
{
}

/// A tensor of given entries has these entries and the given shape.
pub proof fn law_tensor_of_entries<T: Scalar>(
    entries: &Vec<T>,
    shape: Vec<usize>,
    r: Tensor<T>,
)
    requires
        call_ensures(Tensor::<T>::from_vec, (entries, shape), r),
    ensures
        r.data@ == entries@,
        r.shape@ == shape@,
        call_requires(Tensor::<T>::from_vec, (entries, shape)),
{
}

/// Where an entry of a tensor stands: the last index counts single places, and each
/// index before it as many places as the dimensions after it have together.
pub proof fn law_places_of_entries(shape: Seq<usize>, indices: Seq<u8>, d: usize, x: u8)
    ensures
        flat(Seq::<usize>::empty(), Seq::<u8>::empty()) == 0,
        flat(shape.push(d), indices.push(x)) == flat(shape, indices) * d + x,
{
    let s = shape.push(d);
    let i = indices.push(x);
    assert(s.drop_last() =~= shape && i.drop_last() =~= indices);
    assert(s.last() == d && i.last() == x);
}

/// Reading and writing an entry of a tensor: what was written is read in its place, and
/// in every other place what was there.
pub proof fn law_tensor_get_after_set<T: Scalar>(
    t: &mut Tensor<T>,
    indices: &[u8],
    value: T,
    others: &[u8],
    before: &T,
    after: &T,
)
    requires
        old(t).data@.len() == product(old(t).shape@),
        in_shape(old(t).shape@, indices@),
        in_shape(old(t).shape@, others@),
        call_ensures(Tensor::<T>::get, (&*old(t), others), before),
        call_ensures(Tensor::<T>::set, (t, indices, value), ()),
        call_ensures(Tensor::<T>::get, (&*final(t), others), after),
    ensures
        *before == old(t).data@[flat(old(t).shape@, others@) as int],
        final(t).shape@ == old(t).shape@,
        final(t).data@.len() == old(t).data@.len(),
        *after == if flat(old(t).shape@, others@) == flat(old(t).shape@, indices@) {
            value
        } else {
            *before
        },
        call_requires(Tensor::<T>::get, (&*old(t), others)),
        call_requires(Tensor::<T>::set, (t, indices, value)),
{
    lemma_flat_in_range(old(t).shape@, indices@);
    lemma_flat_in_range(old(t).shape@, others@);
}

/// Indices are in range if there is one for every dimension and each is below it.
pub proof fn law_indices_in_range(shape: Seq<usize>, indices: Seq<u8>)
    ensures
        in_shape(shape, indices) == (shape.len() == indices.len() && forall|k: int|
            0 <= k < indices.len() ==> (#[trigger] indices[k] as int) < shape[k]),
{
}

/// The nine numbers: `i` has the square -1 and the conjugate -i, every number is a whole
/// number and a whole multiple of `i` together, and two are close only if they are the
/// same.
pub proof fn law_nine_numbers(a: F9, b: F9)
    ensures
        ({
            let i = F9 { re: Trit::Zero, im: Trit::One };
            let whole = |t: Trit| F9 { re: t, im: Trit::Zero };
            &&& i.times_spec(i) == F9::one_spec().negated_spec()
            &&& i.conj_spec() == i.negated_spec()
            &&& a == whole(a.re).plus_spec(i.times_spec(whole(a.im)))
            &&& whole(a.re).conj_spec() == whole(a.re)
            &&& a.close_spec(b, ()) == (a == b)
        }),
{
}

} // verus!
