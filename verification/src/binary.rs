//! Numbers written as vectors of binary digits, the most significant digit first.
use crate::bits::{bit, bit_at, lemma_bit_step};
use vstd::arithmetic::power2::*;
use vstd::prelude::*;

verus! {

/// The low `n` binary digits of `x`, the most significant first.
pub open spec fn to_binary(x: nat, n: nat) -> Seq<u8> {
    Seq::new(n, |k: int| bit(x, (n - 1 - k) as nat) as u8)
}

/// The number that a sequence of digits stands for.
pub open spec fn from_binary(digits: Seq<u8>) -> nat
    decreases digits.len(),
{
    if digits.len() == 0 {
        0
    } else {
        2 * from_binary(digits.drop_last()) + digits.last() as nat
    }
}

/// Whether every entry is 0 or 1.
pub open spec fn all_binary(digits: Seq<u8>) -> bool {
    forall|k: int| 0 <= k < digits.len() ==> #[trigger] digits[k] <= 1
}

/// How many binary digits of `x` are 1.
pub open spec fn ones(x: nat) -> nat
    decreases x,
{
    if x == 0 {
        0
    } else {
        x % 2 + ones(x / 2)
    }
}

/// The binary digits of a number are 0 or 1.
pub proof fn lemma_binary_digits(x: nat, n: nat)
    ensures
        all_binary(to_binary(x, n)),
{
    assert forall|k: int| 0 <= k < n implies #[trigger] to_binary(x, n)[k] <= 1 by {
        lemma_bit_step(x, (n - 1 - k) as nat);
    }
}

/// Dropping the last digit halves the number.
pub proof fn lemma_to_binary_step(x: nat, n: nat)
    requires
        0 < n,
    ensures
        to_binary(x, n).drop_last() == to_binary(x / 2, (n - 1) as nat),
        to_binary(x, n).last() == x % 2,
{
    let m = (n - 1) as nat;
    let init = to_binary(x, n).drop_last();
    let half = to_binary(x / 2, m);
    lemma_bit_step(x, 0);
    assert forall|k: int| 0 <= k < m implies init[k] == half[k] by {
        lemma_bit_step(x, (m - 1 - k) as nat);
        assert((m - 1 - k) as nat + 1 == (n - 1 - k) as nat);
    }
    assert(init =~= half);
}

/// The digits of a number below `2^n` stand for it.
pub proof fn lemma_from_to_binary(x: nat, n: nat)
    requires
        x < pow2(n),
    ensures
        from_binary(to_binary(x, n)) == x,
    decreases n,
{
    if n == 0 {
        lemma2_to64();
    } else {
        lemma_pow2_unfold(n);
        lemma_to_binary_step(x, n);
        lemma_from_to_binary(x / 2, (n - 1) as nat);
    }
}

/// Digits are those of the number that they stand for.
pub proof fn lemma_to_from_binary(digits: Seq<u8>)
    requires
        all_binary(digits),
    ensures
        from_binary(digits) < pow2(digits.len()),
        to_binary(from_binary(digits), digits.len()) == digits,
    decreases digits.len(),
{
    let n = digits.len();
    if n == 0 {
        lemma2_to64();
        assert(to_binary(from_binary(digits), n) =~= digits);
    } else {
        let init = digits.drop_last();
        assert forall|k: int| 0 <= k < init.len() implies #[trigger] init[k] <= 1 by {
            assert(digits[k] <= 1);
        }
        lemma_to_from_binary(init);
        lemma_pow2_unfold(n);
        assert(digits[n - 1] <= 1);
        let x = from_binary(digits);
        lemma_to_binary_step(x, n);
        assert(x / 2 == from_binary(init));
        assert(to_binary(x, n) =~= to_binary(x, n).drop_last().push(to_binary(x, n).last()));
        assert(digits =~= init.push(digits.last()));
    }
}

/// The number of ones is at most the number itself.
proof fn lemma_ones_bound(x: nat)
    ensures
        ones(x) <= x,
    decreases x,
{
    if x > 0 {
        lemma_ones_bound(x / 2);
    }
}

/// The low `n` binary digits of a number, the most significant first.
pub fn bitwise_int_to_bin_vec(x: usize, n: usize) -> (r: Vec<u8>)
    requires
        n <= usize::BITS,
    ensures
        r@ == to_binary(x as nat, n as nat),
{
    let mut v: Vec<u8> = Vec::new();
    let mut k: usize = 0;
    while k < n
        invariant
            k <= n <= usize::BITS,
            v@ == to_binary(x as nat, n as nat).take(k as int),
        decreases n - k,
    {
        let ghost all = to_binary(x as nat, n as nat);
        v.push(bit_at(x, n - 1 - k) as u8);
        k = k + 1;
        assert(v@ =~= all.take(k as int));
    }
    assert(to_binary(x as nat, n as nat).take(k as int) =~= to_binary(x as nat, n as nat));
    v
}

/// The number that a vector of binary digits stands for.
pub fn bitwise_bin_vec_to_int(digits: &Vec<u8>) -> (r: usize)
    requires
        all_binary(digits@),
        pow2(digits@.len()) <= usize::MAX,
    ensures
        r == from_binary(digits@),
        r < pow2(digits@.len()),
{
    let mut acc: usize = 0;
    let mut k: usize = 0;
    while k < digits.len()
        invariant
            k <= digits@.len(),
            all_binary(digits@),
            pow2(digits@.len()) <= usize::MAX,
            acc == from_binary(digits@.take(k as int)),
        decreases digits@.len() - k,
    {
        proof {
            let next = digits@.take(k + 1);
            assert(next.drop_last() =~= digits@.take(k as int));
            assert(all_binary(next)) by {
                assert forall|i: int| 0 <= i < next.len() implies #[trigger] next[i] <= 1 by {
                    assert(digits@[i] <= 1);
                }
            }
            lemma_to_from_binary(next);
            if k + 1 < digits@.len() {
                lemma_pow2_strictly_increases((k + 1) as nat, digits@.len());
            }
        }
        acc = 2 * acc + digits[k] as usize;
        k = k + 1;
    }
    proof {
        assert(digits@.take(k as int) =~= digits@);
        lemma_to_from_binary(digits@);
    }
    acc
}

/// How many binary digits of a number are 1.
pub fn count_ones(x: usize) -> (r: usize)
    ensures
        r == ones(x as nat),
        r <= x,
{
    let mut rest: usize = x;
    let mut count: usize = 0;
    proof {
        lemma_ones_bound(x as nat);
    }
    while rest > 0
        invariant
            count + ones(rest as nat) == ones(x as nat),
            ones(x as nat) <= x,
        decreases rest,
    {
        count = count + rest % 2;
        rest = rest / 2;
    }
    count
}

} // verus!
