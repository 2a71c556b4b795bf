//! Tensors in row-major order.
use crate::binary::{from_binary, lemma_from_to_binary, to_binary};
use crate::bits::lemma_bit_step;
use crate::scalar::Scalar;
use vstd::arithmetic::power2::*;
use vstd::prelude::*;

verus! {

/// A tensor: its entries in row-major order, and how many values each of its
/// indices takes.
pub struct Tensor<T> {
    pub data: Vec<T>,
    pub shape: Vec<usize>,
}

/// The product of the dimensions.
pub open spec fn product(shape: Seq<usize>) -> nat
    decreases shape.len(),
{
    if shape.len() == 0 {
        1
    } else {
        product(shape.drop_last()) * shape.last() as nat
    }
}

/// Whether the dimensions can be multiplied one after the other in a machine word.
pub open spec fn product_fits(shape: Seq<usize>) -> bool {
    forall|k: int| 0 <= k <= shape.len() ==> #[trigger] product(shape.take(k)) <= usize::MAX
}

/// Whether there is one index for each dimension, and each is in range.
pub open spec fn in_shape(shape: Seq<usize>, indices: Seq<u8>) -> bool {
    &&& indices.len() == shape.len()
    &&& forall|k: int| 0 <= k < shape.len() ==> (#[trigger] indices[k] as int) < shape[k]
}

/// Where the entry with the given indices stands among all entries.
pub open spec fn flat(shape: Seq<usize>, indices: Seq<u8>) -> nat
    decreases shape.len(),
{
    if shape.len() == 0 {
        0
    } else {
        flat(shape.drop_last(), indices.drop_last()) * shape.last() as nat + indices.last() as nat
    }
}

/// The shape with `m` indices that take two values each.
pub open spec fn twos(m: nat) -> Seq<usize> {
    Seq::new(m, |k: int| 2usize)
}

/// A position in range is below the number of entries.
pub proof fn lemma_flat_in_range(shape: Seq<usize>, indices: Seq<u8>)
    requires
        in_shape(shape, indices),
    ensures
        flat(shape, indices) < product(shape),
    decreases shape.len(),
{
    if shape.len() > 0 {
        let s = shape.drop_last();
        let i = indices.drop_last();
        assert forall|k: int| 0 <= k < s.len() implies (#[trigger] i[k] as int) < s[k] by {
            assert((indices[k] as int) < shape[k]);
        }
        lemma_flat_in_range(s, i);
        let a = flat(s, i);
        let p = product(s);
        let d = shape.last() as nat;
        assert((indices[shape.len() - 1] as int) < shape[shape.len() - 1]);
        assert(a * d + d <= p * d) by (nonlinear_arith)
            requires
                a + 1 <= p,
        ;
    }
}

/// A shape of twos has a power of two of entries.
pub proof fn lemma_product_of_twos(m: nat)
    ensures
        product(twos(m)) == pow2(m),
    decreases m,
{
    if m == 0 {
        lemma2_to64();
    } else {
        assert(twos(m).drop_last() =~= twos((m - 1) as nat));
        lemma_product_of_twos((m - 1) as nat);
        lemma_pow2_unfold(m);
        assert(twos(m).last() == 2);
    }
}

/// A shape of twos can be multiplied when the result fits.
pub proof fn lemma_twos_fit(m: nat)
    requires
        pow2(m) <= usize::MAX,
    ensures
        product_fits(twos(m)),
{
    assert forall|k: int| 0 <= k <= m implies #[trigger] product(twos(m).take(k))
        <= usize::MAX by {
        assert(twos(m).take(k) =~= twos(k as nat));
        lemma_product_of_twos(k as nat);
        if k < m {
            lemma_pow2_strictly_increases(k as nat, m);
        }
    }
}

/// In a shape of twos the position is read off the indices as binary digits.
pub proof fn lemma_flat_of_twos(indices: Seq<u8>)
    ensures
        flat(twos(indices.len()), indices) == from_binary(indices),
    decreases indices.len(),
{
    let m = indices.len();
    if m > 0 {
        assert(twos(m).drop_last() =~= twos((m - 1) as nat));
        lemma_flat_of_twos(indices.drop_last());
        assert(twos(m).last() == 2);
    }
}

/// In a shape of twos the digits of `x` are the indices of the entry at `x`.
pub proof fn lemma_flat_of_binary(x: nat, m: nat)
    requires
        x < pow2(m),
    ensures
        in_shape(twos(m), to_binary(x, m)),
        flat(twos(m), to_binary(x, m)) == x,
{
    lemma_flat_of_twos(to_binary(x, m));
    lemma_from_to_binary(x, m);
    assert forall|k: int| 0 <= k < m implies (#[trigger] to_binary(x, m)[k] as int) < twos(
        m,
    )[k] by {
        lemma_bit_step(x, (m - 1 - k) as nat);
    }
}

/// The product of the dimensions.
pub fn product_of(shape: &Vec<usize>) -> (r: usize)
    requires
        product_fits(shape@),
    ensures
        r == product(shape@),
{
    let mut acc: usize = 1;
    let mut k: usize = 0;
    while k < shape.len()
        invariant
            k <= shape@.len(),
            product_fits(shape@),
            acc == product(shape@.take(k as int)),
        decreases shape@.len() - k,
    {
        proof {
            assert(shape@.take(k + 1).drop_last() =~= shape@.take(k as int));
            assert(product(shape@.take(k + 1)) <= usize::MAX);
            assert(shape@.take(k + 1).last() == shape@[k as int]);
        }
        acc = acc * shape[k];
        k = k + 1;
    }
    assert(shape@.take(k as int) =~= shape@);
    acc
}

impl<T> Tensor<T> {
    /// Whether the tensor has as many entries as its shape says.
    pub open spec fn wf(&self) -> bool {
        self.data@.len() == product(self.shape@)
    }

    /// The entry with the given indices.
    pub open spec fn at(&self, indices: Seq<u8>) -> T {
        self.data@[flat(self.shape@, indices) as int]
    }
}

impl<T: Scalar> Tensor<T> {
    /// A tensor of zeros.
    pub fn new(shape: &Vec<usize>) -> (r: Self)
        requires
            product_fits(shape@),
        ensures
            r.wf(),
            r.shape@ == shape@,
            r.data@ == Seq::new(product(shape@), |k: int| T::zero_spec()),
    {
        let n: usize = product_of(shape);
        let mut data: Vec<T> = Vec::with_capacity(n);
        let mut dims: Vec<usize> = Vec::with_capacity(shape.len());
        let mut k: usize = 0;
        while k < n
            invariant
                k <= n,
                data@ == Seq::new(k as nat, |i: int| T::zero_spec()),
            decreases n - k,
        {
            data.push(T::zero());
            k = k + 1;
            assert(data@ =~= Seq::new(k as nat, |i: int| T::zero_spec()));
        }
        let mut d: usize = 0;
        while d < shape.len()
            invariant
                d <= shape@.len(),
                dims@ == shape@.take(d as int),
            decreases shape@.len() - d,
        {
            dims.push(shape[d]);
            d = d + 1;
            assert(dims@ =~= shape@.take(d as int));
        }
        assert(dims@ =~= shape@);
        Tensor { data, shape: dims }
    }

    /// A tensor with a copy of the given entries.
    pub fn from_vec(entries: &Vec<T>, shape: Vec<usize>) -> (r: Self)
        ensures
            r.data@ == entries@,
            r.shape == shape,
    {
        let mut data: Vec<T> = Vec::with_capacity(entries.len());
        let mut k: usize = 0;
        while k < entries.len()
            invariant
                k <= entries@.len(),
                data@ == entries@.take(k as int),
            decreases entries@.len() - k,
        {
            data.push(entries[k]);
            k = k + 1;
            assert(data@ =~= entries@.take(k as int));
        }
        assert(data@ =~= entries@);
        Tensor { data, shape }
    }

    /// Where the entry with the given indices stands among all entries.
    fn position(&self, indices: &[u8]) -> (r: usize)
        requires
            self.wf(),
            in_shape(self.shape@, indices@),
        ensures
            r == flat(self.shape@, indices@),
            r < self.data@.len(),
    {
        proof {
            lemma_flat_in_range(self.shape@, indices@);
        }
        let ghost shape = self.shape@;
        let mut acc: usize = 0;
        let mut k: usize = 0;
        while k < self.shape.len()
            invariant
                k <= self.shape@.len(),
                self.wf(),
                shape == self.shape@,
                in_shape(shape, indices@),
                acc == flat(shape.take(k as int), indices@.take(k as int)),
            decreases self.shape@.len() - k,
        {
            proof {
                let s = shape.take(k + 1);
                let i = indices@.take(k + 1);
                assert(s.drop_last() =~= shape.take(k as int));
                assert(i.drop_last() =~= indices@.take(k as int));
                assert forall|j: int| 0 <= j < s.len() implies (#[trigger] i[j] as int) < s[j] by {
                    assert((indices@[j] as int) < shape[j]);
                }
                lemma_flat_in_range(s, i);
                lemma_prefix_product(shape, indices@, k + 1);
                assert((indices@[k as int] as int) < shape[k as int]);
                assert(s.last() == shape[k as int] && i.last() == indices@[k as int]);
                assert(self.data.len() <= usize::MAX);
                let a = acc as int;
                let d = shape[k as int] as int;
                assert(0 <= a * d) by (nonlinear_arith)
                    requires
                        0 <= a,
                        0 <= d,
                ;
            }
            acc = acc * self.shape[k] + indices[k] as usize;
            k = k + 1;
        }
        assert(shape.take(k as int) =~= shape);
        assert(indices@.take(k as int) =~= indices@);
        acc
    }

    /// The entry with the given indices.
    pub fn get(&self, indices: &[u8]) -> (r: &T)
        requires
            self.wf(),
            in_shape(self.shape@, indices@),
        ensures
            *r == self.at(indices@),
    {
        let k: usize = self.position(indices);
        &self.data[k]
    }

    /// Replaces the entry with the given indices.
    pub fn set(&mut self, indices: &[u8], value: T)
        requires
            old(self).wf(),
            in_shape(old(self).shape@, indices@),
        ensures
            final(self).wf(),
            final(self).shape == old(self).shape,
            final(self).data@ == old(self).data@.update(
                flat(old(self).shape@, indices@) as int,
                value,
            ),
    {
        let k: usize = self.position(indices);
        self.data.set(k, value);
    }
}

/// When all indices are in range, the product of the first dimensions is at
/// most the product of all.
proof fn lemma_prefix_product(shape: Seq<usize>, indices: Seq<u8>, k: int)
    requires
        in_shape(shape, indices),
        0 <= k <= shape.len(),
    ensures
        product(shape.take(k)) <= product(shape),
    decreases shape.len() - k,
{
    if k == shape.len() {
        assert(shape.take(k) =~= shape);
    } else {
        lemma_prefix_product(shape, indices, k + 1);
        assert(shape.take(k + 1).drop_last() =~= shape.take(k));
        assert((indices[k] as int) < shape[k]);
        let p = product(shape.take(k));
        let d = shape[k] as nat;
        assert(p <= p * d) by (nonlinear_arith)
            requires
                1 <= d,
        ;
    }
}

} // verus!
