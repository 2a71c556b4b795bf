//! Exact arithmetic: the field with nine elements.
use crate::scalar::{ExactScalar, Scalar};
use vstd::prelude::*;
use vstd::string::*;

verus! {

/// A whole number modulo three.
#[derive(Debug, Copy, Clone, PartialEq, Eq, Structural)]
pub enum Trit {
    Zero,
    One,
    Two,
}

impl Trit {
    /// The number among 0, 1 and 2.
    pub open spec fn value(self) -> int {
        match self {
            Trit::Zero => 0,
            Trit::One => 1,
            Trit::Two => 2,
        }
    }

    /// The remainder of a number.
    pub open spec fn of(n: int) -> Self {
        if n % 3 == 0 {
            Trit::Zero
        } else if n % 3 == 1 {
            Trit::One
        } else {
            Trit::Two
        }
    }

    pub open spec fn plus_spec(self, other: Self) -> Self {
        Self::of(self.value() + other.value())
    }

    pub open spec fn times_spec(self, other: Self) -> Self {
        match self {
            Trit::Zero => Trit::Zero,
            Trit::One => other,
            Trit::Two => Self::of(2 * other.value()),
        }
    }

    pub open spec fn negated_spec(self) -> Self {
        Self::of(-self.value())
    }

    pub open spec fn text_spec(self) -> Seq<char> {
        match self {
            Trit::Zero => "0"@,
            Trit::One => "1"@,
            Trit::Two => "2"@,
        }
    }

    fn plus(&self, other: &Self) -> (r: Self)
        ensures
            r == self.plus_spec(*other),
    {
        match (self, other) {
            (Trit::Zero, _) => *other,
            (_, Trit::Zero) => *self,
            (Trit::One, Trit::One) => Trit::Two,
            (Trit::Two, Trit::Two) => Trit::One,
            _ => Trit::Zero,
        }
    }

    fn times(&self, other: &Self) -> (r: Self)
        ensures
            r == self.times_spec(*other),
    {
        match (self, other) {
            (Trit::Zero, _) => Trit::Zero,
            (_, Trit::Zero) => Trit::Zero,
            (Trit::One, _) => *other,
            (_, Trit::One) => *self,
            _ => Trit::One,
        }
    }

    fn negated(&self) -> (r: Self)
        ensures
            r == self.negated_spec(),
    {
        match self {
            Trit::Zero => Trit::Zero,
            Trit::One => Trit::Two,
            Trit::Two => Trit::One,
        }
    }

    fn text(&self) -> (r: &'static str)
        ensures
            r@ == self.text_spec(),
    {
        match self {
            Trit::Zero => "0",
            Trit::One => "1",
            Trit::Two => "2",
        }
    }
}

/// Products of three trits can be taken in either order.
proof fn lemma_trit_times(a: Trit, b: Trit, c: Trit)
    ensures
        a.times_spec(b).times_spec(c) == a.times_spec(b.times_spec(c)),
        a.times_spec(b) == b.times_spec(a),
{
}

/// Products of trits distribute over sums.
proof fn lemma_trit_distributes(a: Trit, b: Trit, c: Trit)
    ensures
        a.times_spec(b.plus_spec(c)) == a.times_spec(b).plus_spec(a.times_spec(c)),
        b.plus_spec(c).times_spec(a) == b.times_spec(a).plus_spec(c.times_spec(a)),
{
}

/// The sign of trits passes through sums and products.
proof fn lemma_trit_negated(a: Trit, b: Trit)
    ensures
        a.plus_spec(b).negated_spec() == a.negated_spec().plus_spec(b.negated_spec()),
        a.negated_spec().times_spec(b) == a.times_spec(b).negated_spec(),
        a.times_spec(b.negated_spec()) == a.times_spec(b).negated_spec(),
{
}

/// Sums of four trits in other orders.
proof fn lemma_trit_shuffle(w: Trit, x: Trit, y: Trit, z: Trit)
    ensures
        w.plus_spec(x).plus_spec(y.plus_spec(z)) == w.plus_spec(y).plus_spec(z.plus_spec(x)),
        w.plus_spec(x).plus_spec(y.plus_spec(z)) == w.plus_spec(y).plus_spec(x.plus_spec(z)),
{
}

/// A number `re + im i` with whole numbers modulo three. No whole number has
/// the square -1 modulo three, so these nine numbers are a field, and
/// conjugation is an automorphism of it.
#[derive(Debug, Copy, Clone, PartialEq, Eq, Structural)]
pub struct F9 {
    pub re: Trit,
    pub im: Trit,
}

impl F9 {
    /// The product of a number with its conjugate.
    pub open spec fn norm_spec(self) -> Trit {
        self.re.times_spec(self.re).plus_spec(self.im.times_spec(self.im))
    }
}

impl Scalar for F9 {
    type Tolerance = ();

    open spec fn zero_spec() -> Self {
        F9 { re: Trit::Zero, im: Trit::Zero }
    }

    open spec fn one_spec() -> Self {
        F9 { re: Trit::One, im: Trit::Zero }
    }

    open spec fn natural_spec(n: nat) -> Self {
        F9 { re: Trit::of(n as int), im: Trit::Zero }
    }

    open spec fn plus_spec(self, other: Self) -> Self {
        F9 { re: self.re.plus_spec(other.re), im: self.im.plus_spec(other.im) }
    }

    open spec fn times_spec(self, other: Self) -> Self {
        F9 {
            re: self.re.times_spec(other.re).plus_spec(
                self.im.times_spec(other.im).negated_spec(),
            ),
            im: self.re.times_spec(other.im).plus_spec(self.im.times_spec(other.re)),
        }
    }

    /// The norm of a divisor other than zero is 1 or -1, its own reciprocal.
    open spec fn over_spec(self, other: Self) -> Self {
        self.times_spec(other.conj_spec()).times_spec(
            F9 { re: other.norm_spec(), im: Trit::Zero },
        )
    }

    open spec fn negated_spec(self) -> Self {
        F9 { re: self.re.negated_spec(), im: self.im.negated_spec() }
    }

    open spec fn conj_spec(self) -> Self {
        F9 { re: self.re, im: self.im.negated_spec() }
    }

    open spec fn close_spec(self, other: Self, tol: ()) -> bool {
        self == other
    }

    open spec fn text_spec(self) -> Seq<char> {
        self.re.text_spec() + "+"@ + self.im.text_spec() + "i"@
    }

    fn zero() -> (r: Self) {
        F9 { re: Trit::Zero, im: Trit::Zero }
    }

    fn one() -> (r: Self) {
        F9 { re: Trit::One, im: Trit::Zero }
    }

    fn natural(n: usize) -> (r: Self) {
        let re: Trit = match n % 3 {
            0 => Trit::Zero,
            1 => Trit::One,
            _ => Trit::Two,
        };
        F9 { re, im: Trit::Zero }
    }

    fn plus(&self, other: &Self) -> (r: Self) {
        F9 { re: self.re.plus(&other.re), im: self.im.plus(&other.im) }
    }

    fn times(&self, other: &Self) -> (r: Self) {
        F9 {
            re: self.re.times(&other.re).plus(&self.im.times(&other.im).negated()),
            im: self.re.times(&other.im).plus(&self.im.times(&other.re)),
        }
    }

    fn over(&self, other: &Self) -> (r: Self) {
        let norm: Trit = other.re.times(&other.re).plus(&other.im.times(&other.im));
        self.times(&other.conj()).times(&F9 { re: norm, im: Trit::Zero })
    }

    fn negated(&self) -> (r: Self) {
        F9 { re: self.re.negated(), im: self.im.negated() }
    }

    fn conj(&self) -> (r: Self) {
        F9 { re: self.re, im: self.im.negated() }
    }

    fn close(&self, other: &Self, tol: &()) -> (r: bool) {
        self.re == other.re && self.im == other.im
    }

    fn text(&self) -> (r: String) {
        let mut out = self.re.text().to_owned();
        out.append("+");
        out.append(self.im.text());
        out.append("i");
        out
    }
}

impl ExactScalar for F9 {
    proof fn plus_commutes(a: Self, b: Self) {
    }

    proof fn plus_associates(a: Self, b: Self, c: Self) {
    }

    proof fn plus_zero(a: Self) {
    }

    proof fn plus_negated(a: Self) {
    }

    proof fn times_commutes(a: Self, b: Self) {
    }

    proof fn times_associates(a: Self, b: Self, c: Self) {
        let w = a.re.times_spec(b.re);
        let x = a.im.times_spec(b.im);
        let y = a.re.times_spec(b.im);
        let z = a.im.times_spec(b.re);
        lemma_trit_distributes(c.re, w, x.negated_spec());
        lemma_trit_distributes(c.im, y, z);
        lemma_trit_distributes(c.im, w, x.negated_spec());
        lemma_trit_distributes(c.re, y, z);
        lemma_trit_negated(x, c.re);
        lemma_trit_negated(x, c.im);
        lemma_trit_negated(y.times_spec(c.im), z.times_spec(c.im));
        lemma_trit_times(a.re, b.re, c.re);
        lemma_trit_times(a.re, b.re, c.im);
        lemma_trit_times(a.im, b.im, c.re);
        lemma_trit_times(a.im, b.im, c.im);
        lemma_trit_times(a.re, b.im, c.re);
        lemma_trit_times(a.re, b.im, c.im);
        lemma_trit_times(a.im, b.re, c.re);
        lemma_trit_times(a.im, b.re, c.im);
        let rr = b.re.times_spec(c.re);
        let ii = b.im.times_spec(c.im);
        let ri = b.re.times_spec(c.im);
        let ir = b.im.times_spec(c.re);
        lemma_trit_distributes(a.re, rr, ii.negated_spec());
        lemma_trit_distributes(a.im, rr, ii.negated_spec());
        lemma_trit_distributes(a.re, ri, ir);
        lemma_trit_distributes(a.im, ri, ir);
        lemma_trit_negated(a.re, ii);
        lemma_trit_negated(a.im, ii);
        lemma_trit_negated(a.im.times_spec(ri), a.im.times_spec(ir));
        lemma_trit_shuffle(
            w.times_spec(c.re),
            x.times_spec(c.re).negated_spec(),
            y.times_spec(c.im).negated_spec(),
            z.times_spec(c.im).negated_spec(),
        );
        lemma_trit_shuffle(
            w.times_spec(c.im),
            x.times_spec(c.im).negated_spec(),
            y.times_spec(c.re),
            z.times_spec(c.re),
        );
    }

    proof fn times_one(a: Self) {
    }

    proof fn times_distributes(a: Self, b: Self, c: Self) {
        lemma_trit_distributes(a.re, b.re, c.re);
        lemma_trit_distributes(a.im, b.im, c.im);
        lemma_trit_distributes(a.re, b.im, c.im);
        lemma_trit_distributes(a.im, b.re, c.re);
        lemma_trit_negated(a.im.times_spec(b.im), a.im.times_spec(c.im));
        lemma_trit_shuffle(
            a.re.times_spec(b.re),
            a.re.times_spec(c.re),
            a.im.times_spec(b.im).negated_spec(),
            a.im.times_spec(c.im).negated_spec(),
        );
        lemma_trit_shuffle(
            a.re.times_spec(b.im),
            a.re.times_spec(c.im),
            a.im.times_spec(b.re),
            a.im.times_spec(c.re),
        );
    }

    proof fn over_undoes_times(a: Self, b: Self) {
    }

    proof fn conj_involutes(a: Self) {
    }

    proof fn conj_of_plus(a: Self, b: Self) {
    }

    proof fn conj_of_times(a: Self, b: Self) {
    }

    proof fn natural_one() {
    }

    proof fn natural_plus(m: nat, n: nat) {
    }

    proof fn two_is_not_zero() {
    }
}

} // verus!
