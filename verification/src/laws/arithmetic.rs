//! What an expression is worth: what the operation that it names makes of what its
//! operands are worth. And how whole numbers are written.

use vstd::prelude::*;
use crate::arith::{evaluates, functional, lemma_evaluates_once, Arith, Expr};
use crate::json::JsonNumber;
use crate::text::{decimal, digit};

verus! {

/// A number that comes in is worth itself, a number of the file what the arithmetic makes
/// of it, and silence and the unit what it has for them.
pub proof fn lemma_worth_of_numbers<A: Arith>(x: A::Num, n: JsonNumber, r: A::Num)
    ensures
        evaluates::<A>(Expr::Input(x), r) == (r == x),
        evaluates::<A>(Expr::Constant(n), r) == call_ensures(A::constant, (n,), r),
        evaluates::<A>(Expr::Zero, r) == call_ensures(A::zero, (), r),
        evaluates::<A>(Expr::One, r) == call_ensures(A::one, (), r),
{
}

/// Under an arithmetic whose operations are functions, an expression of two operands is
/// worth what its operation makes of what they are worth, the left one first.
pub proof fn lemma_worth_of_pairs<A: Arith>(
    a: Expr<A::Num>,
    b: Expr<A::Num>,
    x: A::Num,
    y: A::Num,
    r: A::Num,
)
    requires
        functional::<A>(),
        evaluates::<A>(a, x),
        evaluates::<A>(b, y),
    ensures
        evaluates::<A>(Expr::Sum(Box::new(a), Box::new(b)), r) == call_ensures(A::sum, (x, y), r),
        evaluates::<A>(Expr::Difference(Box::new(a), Box::new(b)), r) == call_ensures(A::difference, (x, y), r),
        evaluates::<A>(Expr::Product(Box::new(a), Box::new(b)), r) == call_ensures(A::product, (x, y), r),
        evaluates::<A>(Expr::Quotient(Box::new(a), Box::new(b)), r) == call_ensures(A::quotient, (x, y), r),
        evaluates::<A>(Expr::Maximum(Box::new(a), Box::new(b)), r) == call_ensures(A::maximum, (x, y), r),
{
    if evaluates::<A>(Expr::Sum(Box::new(a), Box::new(b)), r) {
        let (p, q) = choose|p: A::Num, q: A::Num| #[trigger]
            call_ensures(A::sum, (p, q), r) && evaluates::<A>(a, p) && evaluates::<A>(b, q);
        lemma_evaluates_once::<A>(a, p, x);
        lemma_evaluates_once::<A>(b, q, y);
    }
    if evaluates::<A>(Expr::Difference(Box::new(a), Box::new(b)), r) {
        let (p, q) = choose|p: A::Num, q: A::Num| #[trigger]
            call_ensures(A::difference, (p, q), r) && evaluates::<A>(a, p) && evaluates::<A>(b, q);
        lemma_evaluates_once::<A>(a, p, x);
        lemma_evaluates_once::<A>(b, q, y);
    }
    if evaluates::<A>(Expr::Product(Box::new(a), Box::new(b)), r) {
        let (p, q) = choose|p: A::Num, q: A::Num| #[trigger]
            call_ensures(A::product, (p, q), r) && evaluates::<A>(a, p) && evaluates::<A>(b, q);
        lemma_evaluates_once::<A>(a, p, x);
        lemma_evaluates_once::<A>(b, q, y);
    }
    if evaluates::<A>(Expr::Quotient(Box::new(a), Box::new(b)), r) {
        let (p, q) = choose|p: A::Num, q: A::Num| #[trigger]
            call_ensures(A::quotient, (p, q), r) && evaluates::<A>(a, p) && evaluates::<A>(b, q);
        lemma_evaluates_once::<A>(a, p, x);
        lemma_evaluates_once::<A>(b, q, y);
    }
    if evaluates::<A>(Expr::Maximum(Box::new(a), Box::new(b)), r) {
        let (p, q) = choose|p: A::Num, q: A::Num| #[trigger]
            call_ensures(A::maximum, (p, q), r) && evaluates::<A>(a, p) && evaluates::<A>(b, q);
        lemma_evaluates_once::<A>(a, p, x);
        lemma_evaluates_once::<A>(b, q, y);
    }
}

/// Under an arithmetic whose operations are functions, an expression of one operand is
/// worth what its operation makes of what that is worth.
pub proof fn lemma_worth_of_singles<A: Arith>(a: Expr<A::Num>, x: A::Num, r: A::Num)
    requires
        functional::<A>(),
        evaluates::<A>(a, x),
    ensures
        evaluates::<A>(Expr::Negation(Box::new(a)), r) == call_ensures(A::negation, (x,), r),
        evaluates::<A>(Expr::Exponential(Box::new(a)), r) == call_ensures(A::exponential, (x,), r),
        evaluates::<A>(Expr::Tangent(Box::new(a)), r) == call_ensures(A::tangent, (x,), r),
{
    if evaluates::<A>(Expr::Negation(Box::new(a)), r) {
        let p = choose|p: A::Num| #[trigger]
            call_ensures(A::negation, (p,), r) && evaluates::<A>(a, p);
        lemma_evaluates_once::<A>(a, p, x);
    }
    if evaluates::<A>(Expr::Exponential(Box::new(a)), r) {
        let p = choose|p: A::Num| #[trigger]
            call_ensures(A::exponential, (p,), r) && evaluates::<A>(a, p);
        lemma_evaluates_once::<A>(a, p, x);
    }
    if evaluates::<A>(Expr::Tangent(Box::new(a)), r) {
        let p = choose|p: A::Num| #[trigger]
            call_ensures(A::tangent, (p,), r) && evaluates::<A>(a, p);
        lemma_evaluates_once::<A>(a, p, x);
    }
}

/// Under an arithmetic whose operations are functions, a choice is worth what its third
/// operand is where the first exceeds the second, and what its fourth is where it does
/// not.
pub proof fn lemma_worth_of_choices<A: Arith>(
    a: Expr<A::Num>,
    b: Expr<A::Num>,
    c: Expr<A::Num>,
    d: Expr<A::Num>,
    x: A::Num,
    y: A::Num,
    above: bool,
    r: A::Num,
)
    requires
        functional::<A>(),
        evaluates::<A>(a, x),
        evaluates::<A>(b, y),
        call_ensures(A::exceeds, (x, y), above),
    ensures
        evaluates::<A>(
            Expr::Choice(Box::new(a), Box::new(b), Box::new(c), Box::new(d)),
            r,
        ) == if above {
            evaluates::<A>(c, r)
        } else {
            evaluates::<A>(d, r)
        },
{
    if evaluates::<A>(Expr::Choice(Box::new(a), Box::new(b), Box::new(c), Box::new(d)), r) {
        let (p, q, v) = choose|p: A::Num, q: A::Num, v: bool| #[trigger]
            call_ensures(A::exceeds, (p, q), v) && evaluates::<A>(a, p) && evaluates::<A>(b, q)
                && (if v {
                evaluates::<A>(c, r)
            } else {
                evaluates::<A>(d, r)
            });
        lemma_evaluates_once::<A>(a, p, x);
        lemma_evaluates_once::<A>(b, q, y);
    }
}

/// The number that a run of digits writes, the first the most significant.
pub open spec fn written(s: Seq<char>) -> int
    decreases s.len(),
{
    if s.len() == 0 {
        0
    } else {
        10 * written(s.drop_last()) + (s.last() as int - '0' as int)
    }
}

/// A number in words of a complaint is written in digits, without leading zeros, and reads
/// as that number.
pub proof fn lemma_numbers_in_words(n: nat)
    ensures
        written(decimal(n)) == n,
        forall|i: int|
            0 <= i < decimal(n).len() ==> '0' as int <= #[trigger] decimal(n)[i] as int <= '9' as int,
        decimal(n).len() > 0,
        decimal(n).len() > 1 ==> decimal(n)[0] != '0',
    decreases n,
{
    let s = decimal(n);
    if n < 10 {
        lemma_digit(n);
        assert(s.drop_last() =~= Seq::<char>::empty());
        assert(written(s.drop_last()) == 0);
        assert(s.last() == digit(n));
    } else {
        let front = decimal(n / 10);
        lemma_numbers_in_words(n / 10);
        lemma_digit(n % 10);
        assert(s.drop_last() =~= front);
        assert(s.last() == digit(n % 10));
        assert(written(s) == 10 * written(front) + n % 10);
        assert(s[0] == front[0]);
        if n / 10 < 10 {
            lemma_digit(n / 10);
            assert(front[0] == digit(n / 10));
        } else {
            lemma_numbers_in_words(n / 10 / 10);
            assert(front.len() > 1);
        }
    }
}

proof fn lemma_digit(n: nat)
    requires
        n < 10,
    ensures
        digit(n) as int == '0' as int + n,
{
}

} // verus!
