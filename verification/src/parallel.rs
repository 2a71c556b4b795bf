//! Work that is handed out to threads.
use crate::scalar::Scalar;
use crate::sums::is_some_sum;
use rayon::iter::{IntoParallelIterator, ParallelIterator};
use vstd::prelude::*;

verus! {

/// The values of `f` at `0`, ..., `n - 1`, computed in parallel with
/// `map` and `collect` of rayon's parallel iterator over a range: the
/// collected vector holds what `f` returned for each number, in the order of
/// the numbers.
#[verifier::external_body]
pub(crate) fn map_range<T: Send, F: Fn(usize) -> T + Sync + Send>(n: usize, f: F) -> (v: Vec<T>)
    requires
        forall|i: usize| i < n ==> call_requires(f, (i,)),
    ensures
        v@.len() == n,
        forall|i: usize| i < n ==> call_ensures(f, (i,), #[trigger] v@[i as int]),
{
    (0..n).into_par_iter().map(f).collect()
}

/// Whether `total` is the sum of values that `f` may return for `0`, ...,
/// `n - 1`, in this order, under some placement of parentheses and with any
/// number of zeros put in.
pub open spec fn adds_up<T: Scalar, F: Fn(usize) -> T>(f: F, n: usize, total: T) -> bool {
    exists|value: spec_fn(int) -> T|
        {
            &&& #[trigger] is_some_sum(value, n as nat, total)
            &&& forall|i: usize| i < n ==> call_ensures(f, (i,), #[trigger] value(i as int))
        }
}

/// The sum of the values of `f` at `0`, ..., `n - 1`, computed in parallel with
/// `map` and `reduce` of rayon's parallel iterator over a range: the values
/// are added in the order of the numbers, but where the parentheses stand and
/// where zeros are put in depends on how the range was split among threads.
#[verifier::external_body]
pub(crate) fn sum_range<T: Scalar, F: Fn(usize) -> T + Sync + Send>(n: usize, f: F) -> (total: T)
    requires
        forall|i: usize| i < n ==> call_requires(f, (i,)),
    ensures
        adds_up(f, n, total),
{
    (0..n).into_par_iter().map(f).reduce(|| T::zero(), |a, b| a.plus(&b))
}

} // verus!
