//! The numbers that signals and weights are made of.
//!
//! An engine never looks inside a number: it only applies the operations of an
//! [`Arith`] to it. What an engine computes is therefore described as an [`Expr`],
//! the tree of operations that leads from the input samples and the weights of the
//! file to the result. Two computations with the same tree apply the same
//! operations to the same operands in the same order, so they agree bit for bit
//! under every arithmetic that is a function of its operands
//! ([`lemma_evaluates_once`]).

use vstd::prelude::*;
use crate::json::JsonNumber;

verus! {

/// The arithmetic that an engine runs on.
///
/// Nothing is promised of the results of these operations: an engine's contract
/// says which of them are applied to what.
pub trait Arith {
    /// A number.
    type Num: Copy;

    /// Silence.
    fn zero() -> Self::Num;

    /// The unit.
    fn one() -> Self::Num;

    /// The nearest number to one that a file holds.
    fn constant(n: JsonNumber) -> Self::Num;

    /// `a + b`.
    fn sum(a: Self::Num, b: Self::Num) -> Self::Num;

    /// `a - b`.
    fn difference(a: Self::Num, b: Self::Num) -> Self::Num;

    /// `a * b`.
    fn product(a: Self::Num, b: Self::Num) -> Self::Num;

    /// `a / b`.
    fn quotient(a: Self::Num, b: Self::Num) -> Self::Num;

    /// `-a`.
    fn negation(a: Self::Num) -> Self::Num;

    /// The exponential of `a`.
    fn exponential(a: Self::Num) -> Self::Num;

    /// The hyperbolic tangent of `a`.
    fn tangent(a: Self::Num) -> Self::Num;

    /// The larger of `a` and `b`.
    fn maximum(a: Self::Num, b: Self::Num) -> Self::Num;

    /// Whether `a > b`.
    fn exceeds(a: Self::Num, b: Self::Num) -> bool;
}

/// How a number came about.
pub enum Expr<N> {
    /// A number handed in from outside.
    Input(N),
    /// A number of the file.
    Constant(JsonNumber),
    Zero,
    One,
    Sum(Box<Expr<N>>, Box<Expr<N>>),
    Difference(Box<Expr<N>>, Box<Expr<N>>),
    Product(Box<Expr<N>>, Box<Expr<N>>),
    Quotient(Box<Expr<N>>, Box<Expr<N>>),
    Negation(Box<Expr<N>>),
    Exponential(Box<Expr<N>>),
    Tangent(Box<Expr<N>>),
    Maximum(Box<Expr<N>>, Box<Expr<N>>),
    /// The third operand where the first exceeds the second, else the fourth.
    Choice(Box<Expr<N>>, Box<Expr<N>>, Box<Expr<N>>, Box<Expr<N>>),
}

impl<N> Expr<N> {
    /// `self + other`.
    pub open spec fn plus(self, other: Self) -> Self {
        Expr::Sum(Box::new(self), Box::new(other))
    }

    /// `self - other`.
    pub open spec fn minus(self, other: Self) -> Self {
        Expr::Difference(Box::new(self), Box::new(other))
    }

    /// `self * other`.
    pub open spec fn times(self, other: Self) -> Self {
        Expr::Product(Box::new(self), Box::new(other))
    }

    /// `1 / (1 + exp(-self))`.
    pub open spec fn sigmoid(self) -> Self {
        Expr::Quotient(
            Box::new(Expr::One),
            Box::new(
                Expr::One.plus(Expr::Exponential(Box::new(Expr::Negation(Box::new(self))))),
            ),
        )
    }

    /// The hyperbolic tangent of `self`.
    pub open spec fn tanh(self) -> Self {
        Expr::Tangent(Box::new(self))
    }

    /// `max(self, 0)`.
    pub open spec fn relu(self) -> Self {
        Expr::Maximum(Box::new(self), Box::new(Expr::Zero))
    }

    /// `self` where it exceeds zero, else `slope * self`.
    pub open spec fn leaky(self, slope: Self) -> Self {
        Expr::Choice(
            Box::new(self),
            Box::new(Expr::Zero),
            Box::new(self),
            Box::new(slope.times(self)),
        )
    }
}

/// Whether `r` can be what the arithmetic `A` makes of `e`.
pub open spec fn evaluates<A: Arith>(e: Expr<A::Num>, r: A::Num) -> bool
    decreases e,
{
    match e {
        Expr::Input(x) => r == x,
        Expr::Constant(n) => call_ensures(A::constant, (n,), r),
        Expr::Zero => call_ensures(A::zero, (), r),
        Expr::One => call_ensures(A::one, (), r),
        Expr::Sum(a, b) => exists|x: A::Num, y: A::Num| #[trigger]
            call_ensures(A::sum, (x, y), r) && evaluates::<A>(*a, x) && evaluates::<A>(*b, y),
        Expr::Difference(a, b) => exists|x: A::Num, y: A::Num| #[trigger]
            call_ensures(A::difference, (x, y), r) && evaluates::<A>(*a, x) && evaluates::<A>(
                *b,
                y,
            ),
        Expr::Product(a, b) => exists|x: A::Num, y: A::Num| #[trigger]
            call_ensures(A::product, (x, y), r) && evaluates::<A>(*a, x) && evaluates::<A>(*b, y),
        Expr::Quotient(a, b) => exists|x: A::Num, y: A::Num| #[trigger]
            call_ensures(A::quotient, (x, y), r) && evaluates::<A>(*a, x) && evaluates::<A>(*b, y),
        Expr::Negation(a) => exists|x: A::Num| #[trigger]
            call_ensures(A::negation, (x,), r) && evaluates::<A>(*a, x),
        Expr::Exponential(a) => exists|x: A::Num| #[trigger]
            call_ensures(A::exponential, (x,), r) && evaluates::<A>(*a, x),
        Expr::Tangent(a) => exists|x: A::Num| #[trigger]
            call_ensures(A::tangent, (x,), r) && evaluates::<A>(*a, x),
        Expr::Maximum(a, b) => exists|x: A::Num, y: A::Num| #[trigger]
            call_ensures(A::maximum, (x, y), r) && evaluates::<A>(*a, x) && evaluates::<A>(*b, y),
        Expr::Choice(a, b, c, d) => exists|x: A::Num, y: A::Num, above: bool| #[trigger]
            call_ensures(A::exceeds, (x, y), above) && evaluates::<A>(*a, x) && evaluates::<A>(
                *b,
                y,
            ) && (if above {
                evaluates::<A>(*c, r)
            } else {
                evaluates::<A>(*d, r)
            }),
    }
}

/// Whether every operation of an arithmetic is a function of its operands.
pub open spec fn functional<A: Arith>() -> bool {
    &&& forall|r: A::Num, s: A::Num| #[trigger]
        call_ensures(A::zero, (), r) && #[trigger] call_ensures(A::zero, (), s) ==> r == s
    &&& forall|r: A::Num, s: A::Num| #[trigger]
        call_ensures(A::one, (), r) && #[trigger] call_ensures(A::one, (), s) ==> r == s
    &&& forall|n: JsonNumber, r: A::Num, s: A::Num| #[trigger]
        call_ensures(A::constant, (n,), r) && #[trigger] call_ensures(A::constant, (n,), s) ==> r
            == s
    &&& forall|x: A::Num, y: A::Num, r: A::Num, s: A::Num| #[trigger]
        call_ensures(A::sum, (x, y), r) && #[trigger] call_ensures(A::sum, (x, y), s) ==> r == s
    &&& forall|x: A::Num, y: A::Num, r: A::Num, s: A::Num| #[trigger]
        call_ensures(A::difference, (x, y), r) && #[trigger] call_ensures(
            A::difference,
            (x, y),
            s,
        ) ==> r == s
    &&& forall|x: A::Num, y: A::Num, r: A::Num, s: A::Num| #[trigger]
        call_ensures(A::product, (x, y), r) && #[trigger] call_ensures(A::product, (x, y), s) ==> r
            == s
    &&& forall|x: A::Num, y: A::Num, r: A::Num, s: A::Num| #[trigger]
        call_ensures(A::quotient, (x, y), r) && #[trigger] call_ensures(A::quotient, (x, y), s)
            ==> r == s
    &&& forall|x: A::Num, r: A::Num, s: A::Num| #[trigger]
        call_ensures(A::negation, (x,), r) && #[trigger] call_ensures(A::negation, (x,), s) ==> r
            == s
    &&& forall|x: A::Num, r: A::Num, s: A::Num| #[trigger]
        call_ensures(A::exponential, (x,), r) && #[trigger] call_ensures(A::exponential, (x,), s)
            ==> r == s
    &&& forall|x: A::Num, r: A::Num, s: A::Num| #[trigger]
        call_ensures(A::tangent, (x,), r) && #[trigger] call_ensures(A::tangent, (x,), s) ==> r == s
    &&& forall|x: A::Num, y: A::Num, r: A::Num, s: A::Num| #[trigger]
        call_ensures(A::maximum, (x, y), r) && #[trigger] call_ensures(A::maximum, (x, y), s) ==> r
            == s
    &&& forall|x: A::Num, y: A::Num, p: bool, q: bool| #[trigger]
        call_ensures(A::exceeds, (x, y), p) && #[trigger] call_ensures(A::exceeds, (x, y), q) ==> p
            == q
}

/// Under an arithmetic whose operations are functions, an expression evaluates to one
/// number only.
pub proof fn lemma_evaluates_once<A: Arith>(e: Expr<A::Num>, r: A::Num, s: A::Num)
    requires
        functional::<A>(),
        evaluates::<A>(e, r),
        evaluates::<A>(e, s),
    ensures
        r == s,
    decreases e,
{
    match e {
        Expr::Input(_) | Expr::Constant(_) | Expr::Zero | Expr::One => {},
        Expr::Sum(a, b) => {
            let (x, y) = choose|x: A::Num, y: A::Num| #[trigger]
                call_ensures(A::sum, (x, y), r) && evaluates::<A>(*a, x) && evaluates::<A>(*b, y);
            let (u, v) = choose|x: A::Num, y: A::Num| #[trigger]
                call_ensures(A::sum, (x, y), s) && evaluates::<A>(*a, x) && evaluates::<A>(*b, y);
            lemma_evaluates_once::<A>(*a, x, u);
            lemma_evaluates_once::<A>(*b, y, v);
        },
        Expr::Difference(a, b) => {
            let (x, y) = choose|x: A::Num, y: A::Num| #[trigger]
                call_ensures(A::difference, (x, y), r) && evaluates::<A>(*a, x) && evaluates::<A>(
                    *b,
                    y,
                );
            let (u, v) = choose|x: A::Num, y: A::Num| #[trigger]
                call_ensures(A::difference, (x, y), s) && evaluates::<A>(*a, x) && evaluates::<A>(
                    *b,
                    y,
                );
            lemma_evaluates_once::<A>(*a, x, u);
            lemma_evaluates_once::<A>(*b, y, v);
        },
        Expr::Product(a, b) => {
            let (x, y) = choose|x: A::Num, y: A::Num| #[trigger]
                call_ensures(A::product, (x, y), r) && evaluates::<A>(*a, x) && evaluates::<A>(
                    *b,
                    y,
                );
            let (u, v) = choose|x: A::Num, y: A::Num| #[trigger]
                call_ensures(A::product, (x, y), s) && evaluates::<A>(*a, x) && evaluates::<A>(
                    *b,
                    y,
                );
            lemma_evaluates_once::<A>(*a, x, u);
            lemma_evaluates_once::<A>(*b, y, v);
        },
        Expr::Quotient(a, b) => {
            let (x, y) = choose|x: A::Num, y: A::Num| #[trigger]
                call_ensures(A::quotient, (x, y), r) && evaluates::<A>(*a, x) && evaluates::<A>(
                    *b,
                    y,
                );
            let (u, v) = choose|x: A::Num, y: A::Num| #[trigger]
                call_ensures(A::quotient, (x, y), s) && evaluates::<A>(*a, x) && evaluates::<A>(
                    *b,
                    y,
                );
            lemma_evaluates_once::<A>(*a, x, u);
            lemma_evaluates_once::<A>(*b, y, v);
        },
        Expr::Negation(a) => {
            let x = choose|x: A::Num| #[trigger]
                call_ensures(A::negation, (x,), r) && evaluates::<A>(*a, x);
            let u = choose|x: A::Num| #[trigger]
                call_ensures(A::negation, (x,), s) && evaluates::<A>(*a, x);
            lemma_evaluates_once::<A>(*a, x, u);
        },
        Expr::Exponential(a) => {
            let x = choose|x: A::Num| #[trigger]
                call_ensures(A::exponential, (x,), r) && evaluates::<A>(*a, x);
            let u = choose|x: A::Num| #[trigger]
                call_ensures(A::exponential, (x,), s) && evaluates::<A>(*a, x);
            lemma_evaluates_once::<A>(*a, x, u);
        },
        Expr::Tangent(a) => {
            let x = choose|x: A::Num| #[trigger]
                call_ensures(A::tangent, (x,), r) && evaluates::<A>(*a, x);
            let u = choose|x: A::Num| #[trigger]
                call_ensures(A::tangent, (x,), s) && evaluates::<A>(*a, x);
            lemma_evaluates_once::<A>(*a, x, u);
        },
        Expr::Maximum(a, b) => {
            let (x, y) = choose|x: A::Num, y: A::Num| #[trigger]
                call_ensures(A::maximum, (x, y), r) && evaluates::<A>(*a, x) && evaluates::<A>(
                    *b,
                    y,
                );
            let (u, v) = choose|x: A::Num, y: A::Num| #[trigger]
                call_ensures(A::maximum, (x, y), s) && evaluates::<A>(*a, x) && evaluates::<A>(
                    *b,
                    y,
                );
            lemma_evaluates_once::<A>(*a, x, u);
            lemma_evaluates_once::<A>(*b, y, v);
        },
        Expr::Choice(a, b, c, d) => {
            let (x, y, p) = choose|x: A::Num, y: A::Num, p: bool| #[trigger]
                call_ensures(A::exceeds, (x, y), p) && evaluates::<A>(*a, x) && evaluates::<A>(
                    *b,
                    y,
                ) && (if p {
                    evaluates::<A>(*c, r)
                } else {
                    evaluates::<A>(*d, r)
                });
            let (u, v, q) = choose|x: A::Num, y: A::Num, q: bool| #[trigger]
                call_ensures(A::exceeds, (x, y), q) && evaluates::<A>(*a, x) && evaluates::<A>(
                    *b,
                    y,
                ) && (if q {
                    evaluates::<A>(*c, s)
                } else {
                    evaluates::<A>(*d, s)
                });
            lemma_evaluates_once::<A>(*a, x, u);
            lemma_evaluates_once::<A>(*b, y, v);
            if p {
                lemma_evaluates_once::<A>(*c, r, s);
            } else {
                lemma_evaluates_once::<A>(*d, r, s);
            }
        },
    }
}

/// A number together with how it came about.
pub struct Scalar<A: Arith> {
    raw: A::Num,
    expr: Ghost<Expr<A::Num>>,
}

impl<A: Arith> Clone for Scalar<A> {
    fn clone(&self) -> (r: Self)
        ensures
            r == *self,
    {
        *self
    }
}

impl<A: Arith> Copy for Scalar<A> {

}

impl<A: Arith> Scalar<A> {
    #[verifier::type_invariant]
    spec fn honest(self) -> bool {
        evaluates::<A>(self.expr@, self.raw)
    }

    /// How the number came about.
    pub closed spec fn view(self) -> Expr<A::Num> {
        self.expr@
    }

    /// A number handed in from outside.
    pub fn input(x: A::Num) -> (r: Self)
        ensures
            r@ == Expr::Input(x),
    {
        Scalar { raw: x, expr: Ghost(Expr::Input(x)) }
    }

    /// The number itself: one that its expression can evaluate to.
    pub fn output(self) -> (r: A::Num)
        ensures
            evaluates::<A>(self@, r),
    {
        proof {
            use_type_invariant(&self);
        }
        self.raw
    }

    /// A number of the file.
    pub fn constant(n: JsonNumber) -> (r: Self)
        ensures
            r@ == Expr::<A::Num>::Constant(n),
    {
        Scalar { raw: A::constant(n), expr: Ghost(Expr::Constant(n)) }
    }

    pub fn zero() -> (r: Self)
        ensures
            r@ == Expr::<A::Num>::Zero,
    {
        Scalar { raw: A::zero(), expr: Ghost(Expr::Zero) }
    }

    pub fn one() -> (r: Self)
        ensures
            r@ == Expr::<A::Num>::One,
    {
        Scalar { raw: A::one(), expr: Ghost(Expr::One) }
    }

    pub fn plus(self, other: Self) -> (r: Self)
        ensures
            r@ == self@.plus(other@),
    {
        proof {
            use_type_invariant(&self);
            use_type_invariant(&other);
        }
        Scalar { raw: A::sum(self.raw, other.raw), expr: Ghost(self.expr@.plus(other.expr@)) }
    }

    pub fn minus(self, other: Self) -> (r: Self)
        ensures
            r@ == self@.minus(other@),
    {
        proof {
            use_type_invariant(&self);
            use_type_invariant(&other);
        }
        Scalar {
            raw: A::difference(self.raw, other.raw),
            expr: Ghost(self.expr@.minus(other.expr@)),
        }
    }

    pub fn times(self, other: Self) -> (r: Self)
        ensures
            r@ == self@.times(other@),
    {
        proof {
            use_type_invariant(&self);
            use_type_invariant(&other);
        }
        Scalar { raw: A::product(self.raw, other.raw), expr: Ghost(self.expr@.times(other.expr@)) }
    }

    fn over(self, other: Self) -> (r: Self)
        ensures
            r@ == Expr::Quotient(Box::new(self@), Box::new(other@)),
    {
        proof {
            use_type_invariant(&self);
            use_type_invariant(&other);
        }
        Scalar {
            raw: A::quotient(self.raw, other.raw),
            expr: Ghost(Expr::Quotient(Box::new(self.expr@), Box::new(other.expr@))),
        }
    }

    fn negated(self) -> (r: Self)
        ensures
            r@ == Expr::Negation(Box::new(self@)),
    {
        proof {
            use_type_invariant(&self);
        }
        Scalar { raw: A::negation(self.raw), expr: Ghost(Expr::Negation(Box::new(self.expr@))) }
    }

    fn exp(self) -> (r: Self)
        ensures
            r@ == Expr::Exponential(Box::new(self@)),
    {
        proof {
            use_type_invariant(&self);
        }
        Scalar { raw: A::exponential(self.raw), expr: Ghost(Expr::Exponential(Box::new(self.expr@))) }
    }

    /// The logistic function, `1 / (1 + exp(-x))`.
    pub fn sigmoid(self) -> (r: Self)
        ensures
            r@ == self@.sigmoid(),
    {
        Scalar::one().over(Scalar::one().plus(self.negated().exp()))
    }

    pub fn tanh(self) -> (r: Self)
        ensures
            r@ == self@.tanh(),
    {
        proof {
            use_type_invariant(&self);
        }
        Scalar { raw: A::tangent(self.raw), expr: Ghost(self.expr@.tanh()) }
    }

    /// `max(x, 0)`.
    pub fn relu(self) -> (r: Self)
        ensures
            r@ == self@.relu(),
    {
        let zero = Scalar::<A>::zero();
        proof {
            use_type_invariant(&self);
            use_type_invariant(&zero);
        }
        Scalar { raw: A::maximum(self.raw, zero.raw), expr: Ghost(self.expr@.relu()) }
    }

    /// `x` where `x > 0`, else `slope * x`.
    pub fn leaky(self, slope: Self) -> (r: Self)
        ensures
            r@ == self@.leaky(slope@),
    {
        let zero = Scalar::<A>::zero();
        proof {
            use_type_invariant(&self);
            use_type_invariant(&zero);
        }
        if A::exceeds(self.raw, zero.raw) {
            Scalar { raw: self.raw, expr: Ghost(self.expr@.leaky(slope.expr@)) }
        } else {
            let scaled = slope.times(self);
            proof {
                use_type_invariant(&scaled);
            }
            Scalar { raw: scaled.raw, expr: Ghost(self.expr@.leaky(slope.expr@)) }
        }
    }

    /// Whether the number exceeds `other`: the verdict of the arithmetic on some
    /// values of the two expressions.
    pub fn exceeds(self, other: Self) -> (r: bool)
        ensures
            comparison::<A>(self@, other@, r),
    {
        proof {
            use_type_invariant(&self);
            use_type_invariant(&other);
        }
        A::exceeds(self.raw, other.raw)
    }
}

/// Whether `verdict` can be what the arithmetic `A` answers to `a > b`.
pub open spec fn comparison<A: Arith>(a: Expr<A::Num>, b: Expr<A::Num>, verdict: bool) -> bool {
    exists|x: A::Num, y: A::Num| #[trigger]
        call_ensures(A::exceeds, (x, y), verdict) && evaluates::<A>(a, x) && evaluates::<A>(b, y)
}

/// The expressions of a run of numbers.
pub open spec fn exprs<A: Arith>(s: Seq<Scalar<A>>) -> Seq<Expr<A::Num>> {
    Seq::new(s.len(), |i: int| s[i]@)
}

} // verus!
