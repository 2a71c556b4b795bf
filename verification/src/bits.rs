//! Whole numbers seen as strings of binary digits.
use vstd::arithmetic::div_mod::*;
use vstd::arithmetic::power2::*;
use vstd::prelude::*;

verus! {

/// The binary digit of `x` that stands for `2^k`.
pub open spec fn bit(x: nat, k: nat) -> nat {
    (x / pow2(k)) % 2
}

/// `x` with the digit `k` set to 1.
pub open spec fn set_bit(x: nat, k: nat) -> nat {
    if bit(x, k) == 0 {
        x + pow2(k)
    } else {
        x
    }
}

/// `x` with the digit `k` set to 0.
pub open spec fn clear_bit(x: nat, k: nat) -> nat {
    if bit(x, k) == 0 {
        x
    } else {
        (x - pow2(k)) as nat
    }
}

/// The lowest digit is the parity, and the others are those of half the number.
pub proof fn lemma_bit_step(x: nat, k: nat)
    ensures
        bit(x, 0) == x % 2,
        bit(x, k + 1) == bit(x / 2, k),
        bit(x, k) == 0 || bit(x, k) == 1,
{
    lemma2_to64();
    lemma_pow2_unfold(k + 1);
    lemma_pow2_pos(k);
    lemma_div_denominator(x as int, 2, pow2(k) as int);
}

/// Two numbers below `2^n` with the same digits are the same.
pub proof fn lemma_bits_determine(x: nat, y: nat, n: nat)
    requires
        x < pow2(n),
        y < pow2(n),
        forall|k: nat| k < n ==> bit(x, k) == bit(y, k),
    ensures
        x == y,
    decreases n,
{
    if n == 0 {
        lemma2_to64();
    } else {
        let m = (n - 1) as nat;
        lemma_pow2_unfold(n);
        let hx = x / 2;
        let hy = y / 2;
        assert forall|k: nat| k < m implies bit(hx, k) == bit(hy, k) by {
            lemma_bit_step(x, k);
            lemma_bit_step(y, k);
            assert(bit(x, k + 1) == bit(y, k + 1));
        }
        lemma_bits_determine(hx, hy, m);
        lemma_bit_step(x, 0);
        lemma_bit_step(y, 0);
        assert(bit(x, 0) == bit(y, 0));
    }
}

/// Digits from `n` on are zero in a number below `2^n`.
pub proof fn lemma_high_bit(x: nat, n: nat, k: nat)
    requires
        x < pow2(n),
        n <= k,
    ensures
        bit(x, k) == 0,
{
    if n < k {
        lemma_pow2_strictly_increases(n, k);
    }
    lemma_basic_div(x as int, pow2(k) as int);
}

/// Adding `2^k` where the digit `k` is 0 changes that digit alone.
proof fn lemma_add_power(x: nat, k: nat, m: nat)
    requires
        bit(x, k) == 0,
    ensures
        bit(x + pow2(k), m) == if m == k {
            1
        } else {
            bit(x, m)
        },
    decreases k,
{
    let y = x + pow2(k);
    if k == 0 {
        lemma2_to64();
        lemma_bit_step(x, 0);
        lemma_bit_step(y, 0);
        if m > 0 {
            lemma_bit_step(x, (m - 1) as nat);
            lemma_bit_step(y, (m - 1) as nat);
            assert(y / 2 == x / 2);
        }
    } else {
        let j = (k - 1) as nat;
        lemma_pow2_unfold(k);
        lemma_bit_step(x, j);
        assert(y / 2 == x / 2 + pow2(j));
        if m == 0 {
            lemma_bit_step(x, 0);
            lemma_bit_step(y, 0);
        } else {
            lemma_bit_step(x, (m - 1) as nat);
            lemma_bit_step(y, (m - 1) as nat);
            lemma_add_power(x / 2, j, (m - 1) as nat);
        }
    }
}

/// Adding `2^k` where the digit `k` is 0 leaves the number below `2^n`.
proof fn lemma_add_power_bound(x: nat, k: nat, n: nat)
    requires
        bit(x, k) == 0,
        x < pow2(n),
        k < n,
    ensures
        x + pow2(k) < pow2(n),
    decreases k,
{
    lemma_pow2_unfold(n);
    lemma_bit_step(x, 0);
    if k == 0 {
        lemma2_to64();
    } else {
        let j = (k - 1) as nat;
        lemma_pow2_unfold(k);
        lemma_bit_step(x, j);
        lemma_add_power_bound(x / 2, j, (n - 1) as nat);
    }
}

/// A digit that is 1 counts `2^k`.
proof fn lemma_bit_needs_power(x: nat, k: nat)
    requires
        bit(x, k) == 1,
    ensures
        pow2(k) <= x,
        bit((x - pow2(k)) as nat, k) == 0,
    decreases k,
{
    if k == 0 {
        lemma2_to64();
        lemma_bit_step(x, 0);
        if x == 0 {
        } else {
            lemma_bit_step((x - 1) as nat, 0);
        }
    } else {
        let j = (k - 1) as nat;
        lemma_pow2_unfold(k);
        lemma_bit_step(x, j);
        lemma_bit_needs_power(x / 2, j);
        let y = (x - pow2(k)) as nat;
        assert(y / 2 == x / 2 - pow2(j));
        lemma_bit_step(y, j);
    }
}

/// What setting a digit does to every digit.
pub proof fn lemma_set_bit(x: nat, k: nat, m: nat)
    ensures
        bit(set_bit(x, k), m) == if m == k {
            1
        } else {
            bit(x, m)
        },
{
    lemma_bit_step(x, k);
    if bit(x, k) == 0 {
        lemma_add_power(x, k, m);
    }
}

/// What clearing a digit does to every digit.
pub proof fn lemma_clear_bit(x: nat, k: nat, m: nat)
    ensures
        clear_bit(x, k) <= x,
        bit(x, k) == 1 ==> pow2(k) <= x,
        bit(clear_bit(x, k), m) == if m == k {
            0
        } else {
            bit(x, m)
        },
{
    lemma_bit_step(x, k);
    if bit(x, k) == 1 {
        lemma_bit_needs_power(x, k);
        lemma_add_power((x - pow2(k)) as nat, k, m);
    }
}

/// Setting one of the low `n` digits leaves the number below `2^n`.
pub proof fn lemma_set_bit_bound(x: nat, k: nat, n: nat)
    requires
        x < pow2(n),
        k < n,
    ensures
        set_bit(x, k) < pow2(n),
{
    if bit(x, k) == 0 {
        lemma_add_power_bound(x, k, n);
    }
}

/// A power of two that a machine word holds has a small exponent.
pub proof fn lemma_exponent_fits(n: nat)
    requires
        pow2(n) <= usize::MAX,
    ensures
        n < usize::BITS,
{
    lemma2_to64();
    if n >= usize::BITS {
        if n > usize::BITS as nat {
            lemma_pow2_strictly_increases(usize::BITS as nat, n);
        }
        assert(usize::BITS == 32 || usize::BITS == 64);
        assert(pow2(usize::BITS as nat) > usize::MAX);
    }
}

/// The number `2^n`.
pub fn power_of_two(n: usize) -> (r: usize)
    requires
        pow2(n as nat) <= usize::MAX,
    ensures
        r == pow2(n as nat),
{
    proof {
        lemma_exponent_fits(n as nat);
        vstd::bits::lemma_usize_shl_is_mul(1, n);
    }
    1usize << n
}

/// The binary digit of `x` that stands for `2^k`.
pub fn bit_at(x: usize, k: usize) -> (r: usize)
    requires
        k < usize::BITS,
    ensures
        r == bit(x as nat, k as nat),
        r == 0 || r == 1,
{
    let shifted = x >> k;
    proof {
        vstd::bits::lemma_usize_shr_is_div(x, k);
        assert(shifted & 1 == shifted % 2) by (bit_vector);
        lemma_bit_step(x as nat, k as nat);
    }
    shifted & 1
}

/// The exponent `e` for which `x` is `2^e`, if there is one.
pub open spec fn exponent(x: nat) -> Option<nat> {
    if exists|e: nat| pow2(e) == x {
        Some(choose|e: nat| pow2(e) == x)
    } else {
        None
    }
}

/// The exponent of a power of two.
pub proof fn lemma_exponent_of_pow2(e: nat)
    ensures
        exponent(pow2(e)) == Some(e),
{
    let c = choose|c: nat| pow2(c) == pow2(e);
    if c < e {
        lemma_pow2_strictly_increases(c, e);
    } else if e < c {
        lemma_pow2_strictly_increases(e, c);
    }
}

/// A power of two with an odd factor other than 1 is no power of two.
proof fn lemma_odd_factor(rest: nat, k: nat, e: nat)
    requires
        rest % 2 == 1,
        rest * pow2(k) == pow2(e),
    ensures
        rest == 1,
{
    lemma_pow2_pos(k);
    if e < k {
        lemma_pow2_strictly_increases(e, k);
        assert(rest * pow2(k) >= pow2(k)) by (nonlinear_arith)
            requires
                rest >= 1,
        ;
    } else {
        let m = (e - k) as nat;
        lemma_pow2_adds(m, k);
        assert(rest == pow2(m)) by (nonlinear_arith)
            requires
                rest * pow2(k) == pow2(m) * pow2(k),
                pow2(k) > 0,
        ;
        if m > 0 {
            lemma_pow2_unfold(m);
        } else {
            lemma2_to64();
        }
    }
}

/// The exponent `e` for which `x` is `2^e`, if there is one.
pub fn exponent_of(x: usize) -> (r: Option<usize>)
    ensures
        match r {
            Some(e) => exponent(x as nat) == Some(e as nat) && x == pow2(e as nat),
            None => exponent(x as nat) is None,
        },
{
    if x == 0 {
        proof {
            assert forall|e: nat| pow2(e) != 0 by {
                lemma_pow2_pos(e);
            }
        }
        return None;
    }
    let mut rest: usize = x;
    let mut k: usize = 0;
    proof {
        lemma2_to64();
    }
    while rest % 2 == 0
        invariant
            0 < rest,
            0 < x,
            k + rest <= x,
            rest * pow2(k as nat) == x,
        decreases rest,
    {
        proof {
            lemma_pow2_unfold((k + 1) as nat);
            let half = rest as int / 2;
            let p = pow2(k as nat) as int;
            assert(half * (2 * p) == (2 * half) * p) by (nonlinear_arith);
        }
        rest = rest / 2;
        k = k + 1;
    }
    if rest == 1 {
        proof {
            lemma_exponent_of_pow2(k as nat);
        }
        Some(k)
    } else {
        proof {
            assert forall|e: nat| pow2(e) != x by {
                if pow2(e) == x {
                    lemma_odd_factor(rest as nat, k as nat, e);
                }
            }
        }
        None
    }
}

} // verus!
