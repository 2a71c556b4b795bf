//! The arithmetic that the entries of a density matrix are computed with.
use vstd::arithmetic::power2::*;
use vstd::pervasive::arbitrary;
use vstd::prelude::*;

verus! {

/// A complex number type.
///
/// Every operation is a function of its arguments: the method `plus` returns
/// `plus_spec` of its operands, and so on. Nothing else is asked of it, so a
/// floating-point type, whose operations round, is a `Scalar`. What holds
/// only without rounding is asked for by [`ExactScalar`].
///
/// The specification functions have a default, so that a type outside the
/// verified code implements the executable methods alone. The default is some
/// fixed value, the same for all arguments, and no useful type meets the
/// contracts of the methods with it. So what is proved here holds of the types
/// that define the specification functions; one that keeps the defaults runs the
/// same code and is outside what is proved.
pub trait Scalar: Copy + Send + Sync {
    /// How far apart two values may be and still count as equal.
    type Tolerance;

    /// The number 0.
    closed spec fn zero_spec() -> Self {
        arbitrary()
    }

    /// The number 1.
    closed spec fn one_spec() -> Self {
        arbitrary()
    }

    /// The whole number `n`.
    closed spec fn natural_spec(n: nat) -> Self {
        arbitrary()
    }

    /// The sum of two numbers.
    closed spec fn plus_spec(self, other: Self) -> Self {
        arbitrary()
    }

    /// The product of two numbers.
    closed spec fn times_spec(self, other: Self) -> Self {
        arbitrary()
    }

    /// The quotient of two numbers.
    closed spec fn over_spec(self, other: Self) -> Self {
        arbitrary()
    }

    /// The number with the opposite sign.
    closed spec fn negated_spec(self) -> Self {
        arbitrary()
    }

    /// The complex conjugate.
    closed spec fn conj_spec(self) -> Self {
        arbitrary()
    }

    /// Whether two numbers are equal up to a tolerance.
    closed spec fn close_spec(self, other: Self, tol: Self::Tolerance) -> bool {
        arbitrary()
    }

    /// The number as it is written in text.
    closed spec fn text_spec(self) -> Seq<char> {
        arbitrary()
    }

    fn zero() -> (r: Self)
        ensures
            r == Self::zero_spec(),
    ;

    fn one() -> (r: Self)
        ensures
            r == Self::one_spec(),
    ;

    fn natural(n: usize) -> (r: Self)
        ensures
            r == Self::natural_spec(n as nat),
    ;

    fn plus(&self, other: &Self) -> (r: Self)
        ensures
            r == self.plus_spec(*other),
    ;

    fn times(&self, other: &Self) -> (r: Self)
        ensures
            r == self.times_spec(*other),
    ;

    fn over(&self, other: &Self) -> (r: Self)
        ensures
            r == self.over_spec(*other),
    ;

    fn negated(&self) -> (r: Self)
        ensures
            r == self.negated_spec(),
    ;

    fn conj(&self) -> (r: Self)
        ensures
            r == self.conj_spec(),
    ;

    fn close(&self, other: &Self, tol: &Self::Tolerance) -> (r: bool)
        ensures
            r == self.close_spec(*other, *tol),
    ;

    fn text(&self) -> (r: String)
        ensures
            r@ == self.text_spec(),
    ;
}

/// A scalar type without rounding: a field in which 2 is not zero, together
/// with a conjugation that respects sums and products.
pub trait ExactScalar: Scalar {
    proof fn plus_commutes(a: Self, b: Self)
        ensures
            a.plus_spec(b) == b.plus_spec(a),
    ;

    proof fn plus_associates(a: Self, b: Self, c: Self)
        ensures
            a.plus_spec(b).plus_spec(c) == a.plus_spec(b.plus_spec(c)),
    ;

    proof fn plus_zero(a: Self)
        ensures
            a.plus_spec(Self::zero_spec()) == a,
    ;

    proof fn plus_negated(a: Self)
        ensures
            a.plus_spec(a.negated_spec()) == Self::zero_spec(),
    ;

    proof fn times_commutes(a: Self, b: Self)
        ensures
            a.times_spec(b) == b.times_spec(a),
    ;

    proof fn times_associates(a: Self, b: Self, c: Self)
        ensures
            a.times_spec(b).times_spec(c) == a.times_spec(b.times_spec(c)),
    ;

    proof fn times_one(a: Self)
        ensures
            a.times_spec(Self::one_spec()) == a,
    ;

    proof fn times_distributes(a: Self, b: Self, c: Self)
        ensures
            a.times_spec(b.plus_spec(c)) == a.times_spec(b).plus_spec(a.times_spec(c)),
    ;

    proof fn over_undoes_times(a: Self, b: Self)
        requires
            b != Self::zero_spec(),
        ensures
            a.over_spec(b).times_spec(b) == a,
    ;

    proof fn conj_involutes(a: Self)
        ensures
            a.conj_spec().conj_spec() == a,
    ;

    proof fn conj_of_plus(a: Self, b: Self)
        ensures
            a.plus_spec(b).conj_spec() == a.conj_spec().plus_spec(b.conj_spec()),
    ;

    proof fn conj_of_times(a: Self, b: Self)
        ensures
            a.times_spec(b).conj_spec() == a.conj_spec().times_spec(b.conj_spec()),
    ;

    proof fn natural_one()
        ensures
            Self::natural_spec(1) == Self::one_spec(),
    ;

    proof fn natural_plus(m: nat, n: nat)
        ensures
            Self::natural_spec(m + n) == Self::natural_spec(m).plus_spec(Self::natural_spec(n)),
    ;

    proof fn two_is_not_zero()
        ensures
            Self::natural_spec(2) != Self::zero_spec(),
    ;
}

/// If `x + x` is `x`, then `x` is zero.
pub proof fn lemma_idempotent_sum<T: ExactScalar>(x: T)
    requires
        x.plus_spec(x) == x,
    ensures
        x == T::zero_spec(),
{
    T::plus_associates(x, x, x.negated_spec());
    T::plus_negated(x);
    T::plus_zero(x);
}

/// A product with zero is zero.
pub proof fn lemma_times_zero<T: ExactScalar>(a: T)
    ensures
        a.times_spec(T::zero_spec()) == T::zero_spec(),
        T::zero_spec().times_spec(a) == T::zero_spec(),
{
    T::plus_zero(T::zero_spec());
    T::times_distributes(a, T::zero_spec(), T::zero_spec());
    lemma_idempotent_sum(a.times_spec(T::zero_spec()));
    T::times_commutes(a, T::zero_spec());
}

/// One is neutral on both sides.
pub proof fn lemma_one_times<T: ExactScalar>(a: T)
    ensures
        T::one_spec().times_spec(a) == a,
        a.times_spec(T::one_spec()) == a,
{
    T::times_one(a);
    T::times_commutes(a, T::one_spec());
}

/// Zero is neutral on both sides.
pub proof fn lemma_zero_plus<T: ExactScalar>(a: T)
    ensures
        T::zero_spec().plus_spec(a) == a,
        a.plus_spec(T::zero_spec()) == a,
{
    T::plus_zero(a);
    T::plus_commutes(a, T::zero_spec());
}

/// Conjugation keeps zero and one.
pub proof fn lemma_conj_constants<T: ExactScalar>()
    ensures
        T::zero_spec().conj_spec() == T::zero_spec(),
        T::one_spec().conj_spec() == T::one_spec(),
{
    let z = T::zero_spec();
    T::plus_zero(z);
    T::conj_of_plus(z, z);
    lemma_idempotent_sum(z.conj_spec());
    let c = T::one_spec().conj_spec();
    T::conj_involutes(T::one_spec());
    T::times_one(c);
    T::conj_of_times(c, T::one_spec());
    lemma_one_times(c);
}

/// A product of numbers other than zero is not zero.
pub proof fn lemma_no_zero_divisors<T: ExactScalar>(a: T, b: T)
    requires
        a != T::zero_spec(),
        b != T::zero_spec(),
    ensures
        a.times_spec(b) != T::zero_spec(),
{
    if a.times_spec(b) == T::zero_spec() {
        let u = T::one_spec().over_spec(b);
        T::over_undoes_times(T::one_spec(), b);
        T::times_commutes(u, b);
        T::times_associates(a, b, u);
        T::times_one(a);
        lemma_times_zero(u);
    }
}

/// Two quotients with the same result after multiplication are the same.
pub proof fn lemma_quotient_unique<T: ExactScalar>(a: T, b: T, q: T)
    requires
        b != T::zero_spec(),
        q.times_spec(b) == a,
    ensures
        q == a.over_spec(b),
{
    let u = T::one_spec().over_spec(b);
    let p = a.over_spec(b);
    T::over_undoes_times(T::one_spec(), b);
    T::over_undoes_times(a, b);
    T::times_commutes(u, b);
    T::times_associates(q, b, u);
    T::times_associates(p, b, u);
    T::times_one(q);
    T::times_one(p);
}

/// A quotient is a product with the reciprocal.
pub proof fn lemma_over_is_times_reciprocal<T: ExactScalar>(a: T, b: T)
    requires
        b != T::zero_spec(),
    ensures
        a.over_spec(b) == a.times_spec(T::one_spec().over_spec(b)),
{
    let u = T::one_spec().over_spec(b);
    T::over_undoes_times(T::one_spec(), b);
    T::times_associates(a, u, b);
    T::times_one(a);
    lemma_quotient_unique(a, b, a.times_spec(u));
}

/// Zero as a whole number.
pub proof fn lemma_natural_zero<T: ExactScalar>()
    ensures
        T::natural_spec(0) == T::zero_spec(),
{
    T::natural_plus(0, 0);
    lemma_idempotent_sum(T::natural_spec(0));
}

/// The product of whole numbers is the product of the scalars.
pub proof fn lemma_natural_times<T: ExactScalar>(m: nat, n: nat)
    ensures
        T::natural_spec(m * n) == T::natural_spec(m).times_spec(T::natural_spec(n)),
    decreases n,
{
    let a = T::natural_spec(m);
    if n == 0 {
        lemma_natural_zero::<T>();
        lemma_times_zero(a);
        assert(m * n == 0) by (nonlinear_arith)
            requires
                n == 0,
        ;
    } else {
        let k = (n - 1) as nat;
        lemma_natural_times::<T>(m, k);
        assert(m * n == m * k + m) by (nonlinear_arith)
            requires
                n == k + 1,
        ;
        T::natural_plus(m * k, m);
        T::natural_plus(k, 1);
        T::natural_one();
        T::times_distributes(a, T::natural_spec(k), T::natural_spec(1));
        T::times_one(a);
    }
}

/// No power of two is zero.
pub proof fn lemma_pow2_is_not_zero<T: ExactScalar>(e: nat)
    ensures
        T::natural_spec(pow2(e)) != T::zero_spec(),
    decreases e,
{
    if e == 0 {
        lemma2_to64();
        T::natural_one();
        T::natural_plus(1, 1);
        T::two_is_not_zero();
        T::plus_zero(T::zero_spec());
    } else {
        lemma_pow2_is_not_zero::<T>((e - 1) as nat);
        lemma_pow2_unfold(e);
        lemma_natural_times::<T>(2, pow2((e - 1) as nat));
        T::two_is_not_zero();
        lemma_no_zero_divisors(T::natural_spec(2), T::natural_spec(pow2((e - 1) as nat)));
    }
}

/// The products of two sums of numbers in another order: `(a b)(c d)` is `(a c)(b d)`.
pub proof fn lemma_times_interchange<T: ExactScalar>(a: T, b: T, c: T, d: T)
    ensures
        a.times_spec(b).times_spec(c.times_spec(d)) == a.times_spec(c).times_spec(
            b.times_spec(d),
        ),
{
    T::times_associates(a, b, c.times_spec(d));
    T::times_associates(b, c, d);
    T::times_commutes(b, c);
    T::times_associates(c, b, d);
    T::times_associates(a, c, b.times_spec(d));
}

/// Sums in another order: `(a + b) + (c + d)` is `(a + c) + (b + d)`.
pub proof fn lemma_plus_interchange<T: ExactScalar>(a: T, b: T, c: T, d: T)
    ensures
        a.plus_spec(b).plus_spec(c.plus_spec(d)) == a.plus_spec(c).plus_spec(b.plus_spec(d)),
{
    T::plus_associates(a, b, c.plus_spec(d));
    T::plus_associates(b, c, d);
    T::plus_commutes(b, c);
    T::plus_associates(c, b, d);
    T::plus_associates(a, c, b.plus_spec(d));
}

/// The product of a negated number is the negated product.
pub proof fn lemma_negated_times<T: ExactScalar>(a: T, b: T)
    ensures
        a.negated_spec().times_spec(b) == a.times_spec(b).negated_spec(),
        b.times_spec(a.negated_spec()) == b.times_spec(a).negated_spec(),
{
    let n = a.negated_spec();
    T::times_commutes(a, b);
    T::times_commutes(n, b);
    T::plus_negated(a);
    T::times_distributes(b, a, n);
    lemma_times_zero(b);
    lemma_negated_unique(b.times_spec(a), b.times_spec(n));
}

/// A number whose sum with `a` is zero is the negated `a`.
pub proof fn lemma_negated_unique<T: ExactScalar>(a: T, x: T)
    requires
        a.plus_spec(x) == T::zero_spec(),
    ensures
        x == a.negated_spec(),
{
    let n = a.negated_spec();
    T::plus_negated(a);
    T::plus_commutes(n, a);
    T::plus_associates(n, a, x);
    lemma_zero_plus(x);
    lemma_zero_plus(n);
}

/// Negating twice gives the number back.
pub proof fn lemma_negated_twice<T: ExactScalar>(a: T)
    ensures
        a.negated_spec().negated_spec() == a,
{
    T::plus_negated(a);
    T::plus_commutes(a, a.negated_spec());
    lemma_negated_unique(a.negated_spec(), a);
}

/// Conjugation keeps minus one.
pub proof fn lemma_conj_negated<T: ExactScalar>(a: T)
    ensures
        a.negated_spec().conj_spec() == a.conj_spec().negated_spec(),
{
    T::plus_negated(a);
    T::conj_of_plus(a, a.negated_spec());
    lemma_conj_constants::<T>();
    lemma_negated_unique(a.conj_spec(), a.negated_spec().conj_spec());
}

} // verus!
