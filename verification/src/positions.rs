//! Reading and writing the binary digits of a number at a list of positions.
use crate::bits::{
    bit, bit_at, clear_bit, lemma_bit_step, lemma_bits_determine, lemma_clear_bit,
    lemma_exponent_fits, lemma_high_bit, lemma_set_bit, lemma_set_bit_bound, power_of_two, set_bit,
};
use vstd::arithmetic::power2::*;
use vstd::prelude::*;

verus! {

/// The number whose digit `k` is the digit of `x` at the position `pos[k]`.
pub open spec fn gather(x: nat, pos: Seq<usize>) -> nat
    decreases pos.len(),
{
    if pos.len() == 0 {
        0
    } else {
        gather(x, pos.drop_last()) + bit(x, pos.last() as nat) * pow2((pos.len() - 1) as nat)
    }
}

/// `x` with a 0 at every position in the list.
pub open spec fn cleared(x: nat, pos: Seq<usize>) -> nat
    decreases pos.len(),
{
    if pos.len() == 0 {
        x
    } else {
        clear_bit(cleared(x, pos.drop_last()), pos.last() as nat)
    }
}

/// `x` with a 1 at every position `pos[k]` for which the digit `k` of `p` is 1.
pub open spec fn raised(x: nat, pos: Seq<usize>, p: nat) -> nat
    decreases pos.len(),
{
    if pos.len() == 0 {
        x
    } else {
        let y = raised(x, pos.drop_last(), p);
        if bit(p, (pos.len() - 1) as nat) == 1 {
            set_bit(y, pos.last() as nat)
        } else {
            y
        }
    }
}

/// `x` with the digits at the listed positions replaced by the digits of `p`.
/// Where a position is listed twice, it is 1 if one of its digits in `p` is.
pub open spec fn inserted(x: nat, pos: Seq<usize>, p: nat) -> nat {
    raised(cleared(x, pos), pos, p)
}

/// Whether the position `m` is in the list.
pub open spec fn listed(pos: Seq<usize>, m: nat) -> bool {
    exists|k: int| 0 <= k < pos.len() && #[trigger] pos[k] == m
}

/// Whether the position `m` is in the list with a 1 for it in `p`.
pub open spec fn marked(pos: Seq<usize>, p: nat, m: nat) -> bool {
    exists|k: int| 0 <= k < pos.len() && #[trigger] pos[k] == m && bit(p, k as nat) == 1
}

/// The digits of a gathered number.
pub proof fn lemma_gather_bits(x: nat, pos: Seq<usize>)
    ensures
        gather(x, pos) < pow2(pos.len()),
        forall|k: int|
            0 <= k < pos.len() ==> bit(gather(x, pos), k as nat) == bit(
                x,
                #[trigger] pos[k] as nat,
            ),
    decreases pos.len(),
{
    if pos.len() == 0 {
        lemma2_to64();
    } else {
        let init = pos.drop_last();
        let last = (pos.len() - 1) as nat;
        lemma_gather_bits(x, init);
        lemma_bit_step(x, pos.last() as nat);
        let low = gather(x, init);
        lemma_high_bit(low, last, last);
        lemma_pow2_unfold(pos.len());
        let b = bit(x, pos.last() as nat);
        assert(b * pow2(last) == if b == 1 {
            pow2(last)
        } else {
            0
        }) by (nonlinear_arith)
            requires
                b == 0 || b == 1,
        ;
        assert forall|k: int| 0 <= k < pos.len() implies bit(gather(x, pos), k as nat) == bit(
            x,
            #[trigger] pos[k] as nat,
        ) by {
            lemma_set_bit(low, last, k as nat);
            if k < last {
                assert(init[k] == pos[k]);
            }
        }
    }
}

/// The digits of a number that was cleared at a list of positions.
pub proof fn lemma_cleared_bits(x: nat, pos: Seq<usize>, m: nat)
    ensures
        cleared(x, pos) <= x,
        bit(cleared(x, pos), m) == if listed(pos, m) {
            0
        } else {
            bit(x, m)
        },
    decreases pos.len(),
{
    if pos.len() > 0 {
        let init = pos.drop_last();
        lemma_cleared_bits(x, init, m);
        lemma_clear_bit(cleared(x, init), pos.last() as nat, m);
        if listed(init, m) {
            let k = choose|k: int| 0 <= k < init.len() && #[trigger] init[k] == m;
            assert(pos[k] == m);
        }
        if listed(pos, m) && pos.last() != m {
            let k = choose|k: int| 0 <= k < pos.len() && #[trigger] pos[k] == m;
            assert(init[k] == m);
        }
        if pos.last() == m {
            assert(pos[pos.len() - 1] == m);
        }
    }
}

/// The digits of a number that was raised at a list of positions.
pub proof fn lemma_raised_bits(x: nat, pos: Seq<usize>, p: nat, m: nat)
    ensures
        bit(raised(x, pos, p), m) == if marked(pos, p, m) {
            1
        } else {
            bit(x, m)
        },
    decreases pos.len(),
{
    if pos.len() > 0 {
        let init = pos.drop_last();
        let last = pos.len() - 1;
        lemma_raised_bits(x, init, p, m);
        lemma_set_bit(raised(x, init, p), pos.last() as nat, m);
        if marked(init, p, m) {
            let k = choose|k: int|
                0 <= k < init.len() && #[trigger] init[k] == m && bit(p, k as nat) == 1;
            assert(pos[k] == m);
        }
        if marked(pos, p, m) && !(pos.last() == m && bit(p, last as nat) == 1) {
            let k = choose|k: int|
                0 <= k < pos.len() && #[trigger] pos[k] == m && bit(p, k as nat) == 1;
            assert(init[k] == m);
        }
        if pos.last() == m {
            assert(pos[last] == m);
        }
    }
}

/// A raised number stays below `2^n` when the positions are below `n`.
pub proof fn lemma_raised_bound(x: nat, pos: Seq<usize>, p: nat, n: nat)
    requires
        x < pow2(n),
        forall|k: int| 0 <= k < pos.len() ==> #[trigger] pos[k] < n,
    ensures
        raised(x, pos, p) < pow2(n),
    decreases pos.len(),
{
    if pos.len() > 0 {
        let init = pos.drop_last();
        assert forall|k: int| 0 <= k < init.len() implies #[trigger] init[k] < n by {
            assert(pos[k] < n);
        }
        lemma_raised_bound(x, init, p, n);
        assert(pos[pos.len() - 1] < n);
        lemma_set_bit_bound(raised(x, init, p), pos.last() as nat, n);
    }
}

/// A number keeps its bound when digits are inserted below it.
pub proof fn lemma_inserted_bound(x: nat, pos: Seq<usize>, p: nat, n: nat)
    requires
        x < pow2(n),
        forall|k: int| 0 <= k < pos.len() ==> #[trigger] pos[k] < n,
    ensures
        inserted(x, pos, p) < pow2(n),
{
    lemma_cleared_bits(x, pos, 0);
    lemma_raised_bound(cleared(x, pos), pos, p, n);
}

/// The digits of a number with inserted digits.
pub proof fn lemma_inserted_bits(x: nat, pos: Seq<usize>, p: nat, m: nat)
    ensures
        bit(inserted(x, pos, p), m) == if marked(pos, p, m) {
            1
        } else if listed(pos, m) {
            0
        } else {
            bit(x, m)
        },
{
    lemma_cleared_bits(x, pos, m);
    lemma_raised_bits(cleared(x, pos), pos, p, m);
}

/// At distinct positions the inserted digits are those of `p`.
pub proof fn lemma_inserted_digit(x: nat, pos: Seq<usize>, p: nat, k: int)
    requires
        pos.no_duplicates(),
        0 <= k < pos.len(),
    ensures
        bit(inserted(x, pos, p), pos[k] as nat) == bit(p, k as nat),
{
    let m = pos[k] as nat;
    lemma_inserted_bits(x, pos, p, m);
    lemma_bit_step(p, k as nat);
    assert(listed(pos, m));
    if bit(p, k as nat) == 1 {
        assert(marked(pos, p, m));
    } else if marked(pos, p, m) {
        let j = choose|j: int|
            0 <= j < pos.len() && #[trigger] pos[j] == m && bit(p, j as nat) == 1;
        assert(pos[j] == pos[k]);
    }
}

/// Gathering at distinct positions reads what was inserted there.
pub proof fn lemma_gather_inserted(x: nat, pos: Seq<usize>, p: nat)
    requires
        pos.no_duplicates(),
        p < pow2(pos.len()),
    ensures
        gather(inserted(x, pos, p), pos) == p,
{
    let y = inserted(x, pos, p);
    lemma_gather_bits(y, pos);
    assert forall|k: nat| k < pos.len() implies bit(gather(y, pos), k) == bit(p, k) by {
        lemma_inserted_digit(x, pos, p, k as int);
        assert(bit(gather(y, pos), k) == bit(y, pos[k as int] as nat));
    }
    lemma_bits_determine(gather(y, pos), p, pos.len());
}

/// What is inserted last counts.
pub proof fn lemma_inserted_twice(x: nat, pos: Seq<usize>, p: nat, q: nat, n: nat)
    requires
        x < pow2(n),
        forall|k: int| 0 <= k < pos.len() ==> #[trigger] pos[k] < n,
    ensures
        inserted(inserted(x, pos, p), pos, q) == inserted(x, pos, q),
{
    let y = inserted(x, pos, p);
    lemma_inserted_bound(x, pos, p, n);
    lemma_inserted_bound(x, pos, q, n);
    lemma_inserted_bound(y, pos, q, n);
    let left = inserted(y, pos, q);
    let right = inserted(x, pos, q);
    assert forall|m: nat| m < n implies bit(left, m) == bit(right, m) by {
        lemma_inserted_bits(y, pos, q, m);
        lemma_inserted_bits(x, pos, q, m);
        lemma_inserted_bits(x, pos, p, m);
        if marked(pos, p, m) {
            let k = choose|k: int|
                0 <= k < pos.len() && #[trigger] pos[k] == m && bit(p, k as nat) == 1;
            assert(listed(pos, m));
        }
    }
    lemma_bits_determine(left, right, n);
}

/// Inserting the digits that are there already changes nothing.
pub proof fn lemma_inserted_gathered(x: nat, pos: Seq<usize>, n: nat)
    requires
        x < pow2(n),
        forall|k: int| 0 <= k < pos.len() ==> #[trigger] pos[k] < n,
    ensures
        inserted(x, pos, gather(x, pos)) == x,
{
    let g = gather(x, pos);
    let y = inserted(x, pos, g);
    lemma_inserted_bound(x, pos, g, n);
    lemma_gather_bits(x, pos);
    assert forall|m: nat| m < n implies bit(y, m) == bit(x, m) by {
        lemma_inserted_bits(x, pos, g, m);
        lemma_bit_step(x, m);
        if marked(pos, g, m) {
            let k = choose|k: int|
                0 <= k < pos.len() && #[trigger] pos[k] == m && bit(g, k as nat) == 1;
            assert(bit(g, k as nat) == bit(x, pos[k] as nat));
        } else if listed(pos, m) {
            let k = choose|k: int| 0 <= k < pos.len() && #[trigger] pos[k] == m;
            assert(bit(g, k as nat) == bit(x, pos[k] as nat));
        }
    }
    lemma_bits_determine(y, x, n);
}

/// Gathers the digits of `x` at the given positions.
pub fn gather_bits(x: usize, pos: &Vec<usize>) -> (r: usize)
    requires
        pow2(pos@.len()) <= usize::MAX,
        forall|k: int| 0 <= k < pos@.len() ==> #[trigger] pos@[k] < usize::BITS,
    ensures
        r == gather(x as nat, pos@),
{
    let mut acc: usize = 0;
    let mut k: usize = 0;
    while k < pos.len()
        invariant
            k <= pos@.len(),
            pow2(pos@.len()) <= usize::MAX,
            forall|i: int| 0 <= i < pos@.len() ==> #[trigger] pos@[i] < usize::BITS,
            acc == gather(x as nat, pos@.take(k as int)),
        decreases pos@.len() - k,
    {
        proof {
            let next = pos@.take(k + 1);
            assert(next.drop_last() =~= pos@.take(k as int));
            lemma_gather_bits(x as nat, next);
            assert(pos@[k as int] < usize::BITS);
            if k + 1 < pos@.len() {
                lemma_pow2_strictly_increases((k + 1) as nat, pos@.len());
            }
            lemma_pow2_strictly_increases(k as nat, (k + 1) as nat);
            let b = bit(x as nat, pos@[k as int] as nat);
            lemma_bit_step(x as nat, pos@[k as int] as nat);
            assert(b * pow2(k as nat) == if b == 1 {
                pow2(k as nat)
            } else {
                0
            }) by (nonlinear_arith)
                requires
                    b == 0 || b == 1,
            ;
            assert(next.last() == pos@[k as int]);
        }
        if bit_at(x, pos[k]) == 1 {
            acc = acc + power_of_two(k);
        }
        k = k + 1;
    }
    assert(pos@.take(k as int) =~= pos@);
    acc
}

/// Clears the digits of `x` at the given positions.
pub fn clear_bits(x: usize, pos: &Vec<usize>) -> (r: usize)
    requires
        forall|k: int| 0 <= k < pos@.len() ==> #[trigger] pos@[k] < usize::BITS,
    ensures
        r == cleared(x as nat, pos@),
{
    let mut acc: usize = x;
    let mut k: usize = 0;
    while k < pos.len()
        invariant
            k <= pos@.len(),
            forall|i: int| 0 <= i < pos@.len() ==> #[trigger] pos@[i] < usize::BITS,
            acc == cleared(x as nat, pos@.take(k as int)),
        decreases pos@.len() - k,
    {
        proof {
            assert(pos@.take(k + 1).drop_last() =~= pos@.take(k as int));
            assert(pos@[k as int] < usize::BITS);
            lemma_clear_bit(acc as nat, pos@[k as int] as nat, 0);
        }
        if bit_at(acc, pos[k]) == 1 {
            acc = acc - power_of_two(pos[k]);
        }
        k = k + 1;
    }
    assert(pos@.take(k as int) =~= pos@);
    acc
}

/// Sets the digit of `x` at `pos[k]` for every digit `k` of `p` that is 1.
pub fn raise_bits(x: usize, pos: &Vec<usize>, p: usize, n: usize) -> (r: usize)
    requires
        x < pow2(n as nat),
        pow2(n as nat) <= usize::MAX,
        pos@.len() <= usize::BITS,
        forall|k: int| 0 <= k < pos@.len() ==> #[trigger] pos@[k] < n,
    ensures
        r == raised(x as nat, pos@, p as nat),
        r < pow2(n as nat),
{
    proof {
        lemma_exponent_fits(n as nat);
    }
    let mut acc: usize = x;
    let mut k: usize = 0;
    while k < pos.len()
        invariant
            k <= pos@.len() <= usize::BITS,
            n < usize::BITS,
            pow2(n as nat) <= usize::MAX,
            acc < pow2(n as nat),
            forall|i: int| 0 <= i < pos@.len() ==> #[trigger] pos@[i] < n,
            acc == raised(x as nat, pos@.take(k as int), p as nat),
        decreases pos@.len() - k,
    {
        proof {
            assert(pos@.take(k + 1).drop_last() =~= pos@.take(k as int));
            assert(pos@[k as int] < n);
            lemma_set_bit_bound(acc as nat, pos@[k as int] as nat, n as nat);
            lemma_pow2_strictly_increases(pos@[k as int] as nat, n as nat);
            lemma_bit_step(acc as nat, pos@[k as int] as nat);
        }
        if bit_at(p, k) == 1 && bit_at(acc, pos[k]) == 0 {
            acc = acc + power_of_two(pos[k]);
        }
        k = k + 1;
    }
    assert(pos@.take(k as int) =~= pos@);
    acc
}

} // verus!
