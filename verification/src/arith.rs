//! Elementary floating-point arithmetic.
//!
//! Numbers are binary32 patterns. Comparing, clamping and changing the sign are
//! exact work on the pattern. What rounds is an [`Arith`]: a handful of
//! operations, each a function of its arguments alone, handed in by the caller
//! as a [`FloatMath`].
use vstd::prelude::*;

verus! {

/// An operation on two numbers.
#[derive(Clone, Copy, Debug, PartialEq, Eq, Structural)]
pub enum BinaryOp {
    /// The sum.
    Add,
    /// The difference.
    Sub,
    /// The product.
    Mul,
    /// The quotient.
    Div,
    /// The first number to the power of the second.
    Pow,
    /// The remainder of a division, never negative.
    RemEuclid,
    /// The angle of the point whose height is the first number and whose width is
    /// the second.
    Atan2,
}

/// An operation on one number.
#[derive(Clone, Copy, Debug, PartialEq, Eq, Structural)]
pub enum UnaryOp {
    /// The square root.
    Sqrt,
    /// The nearest whole number, halves away from zero.
    Round,
}

/// A way to make a number an integer.
#[derive(Clone, Copy, Debug, PartialEq, Eq, Structural)]
pub enum WholeOp {
    /// The largest integer that is not larger.
    Floor,
    /// The smallest integer that is not smaller.
    Ceil,
}

/// Arithmetic on numbers.
pub trait Arith {
    /// The operations are defined everywhere and have one result.
    spec fn wf(&self) -> bool;

    /// What [`Arith::binary`] returns.
    spec fn of_two(&self, op: BinaryOp, a: u32, b: u32) -> u32;

    /// What [`Arith::unary`] returns.
    spec fn of_one(&self, op: UnaryOp, a: u32) -> u32;

    /// What [`Arith::whole`] returns.
    spec fn to_whole(&self, op: WholeOp, a: u32) -> i32;

    /// What [`Arith::mean`] returns.
    spec fn mean_of(&self, numbers: Seq<u32>) -> u32;

    /// The result of an operation on two numbers.
    fn binary(&self, op: BinaryOp, a: u32, b: u32) -> (r: u32)
        requires
            self.wf(),
        ensures
            r == self.of_two(op, a, b),
    ;

    /// The result of an operation on one number.
    fn unary(&self, op: UnaryOp, a: u32) -> (r: u32)
        requires
            self.wf(),
        ensures
            r == self.of_one(op, a),
    ;

    /// A number made an integer; one that is out of range becomes the nearest end.
    fn whole(&self, op: WholeOp, a: u32) -> (r: i32)
        requires
            self.wf(),
        ensures
            r == self.to_whole(op, a),
    ;

    /// The mean of at least one number, summed in double precision.
    fn mean(&self, numbers: &Vec<u32>) -> (r: u32)
        requires
            self.wf(),
        ensures
            r == self.mean_of(numbers@),
    ;
}

/// An arithmetic made of functions.
pub struct FloatMath<B, U, W, A> {
    /// The operations on two numbers.
    pub binary: B,
    /// The operations on one number.
    pub unary: U,
    /// The ways to make a number an integer.
    pub whole: W,
    /// The mean.
    pub mean: A,
}

/// The function may return `r` for the numbers `s`.
pub open spec fn averages<A: Fn(&Vec<u32>) -> u32>(f: A, s: Seq<u32>, r: u32) -> bool {
    exists|v: &Vec<u32>| #[trigger] f.ensures((v,), r) && v@ == s
}

impl<
    B: Fn(BinaryOp, u32, u32) -> u32,
    U: Fn(UnaryOp, u32) -> u32,
    W: Fn(WholeOp, u32) -> i32,
    A: Fn(&Vec<u32>) -> u32,
> Arith for FloatMath<B, U, W, A> {
    open spec fn wf(&self) -> bool {
        &&& forall|op: BinaryOp, a: u32, b: u32| #[trigger] self.binary.requires((op, a, b))
        &&& forall|op: BinaryOp, a: u32, b: u32, r: u32| #[trigger]
            self.binary.ensures((op, a, b), r) ==> r == self.of_two(op, a, b)
        &&& forall|op: UnaryOp, a: u32| #[trigger] self.unary.requires((op, a))
        &&& forall|op: UnaryOp, a: u32, r: u32| #[trigger]
            self.unary.ensures((op, a), r) ==> r == self.of_one(op, a)
        &&& forall|op: WholeOp, a: u32| #[trigger] self.whole.requires((op, a))
        &&& forall|op: WholeOp, a: u32, r: i32| #[trigger]
            self.whole.ensures((op, a), r) ==> r == self.to_whole(op, a)
        &&& forall|v: &Vec<u32>| #[trigger] self.mean.requires((v,))
        &&& forall|v: &Vec<u32>, r: u32| #[trigger]
            self.mean.ensures((v,), r) ==> r == self.mean_of(v@)
    }

    open spec fn of_two(&self, op: BinaryOp, a: u32, b: u32) -> u32 {
        choose|r: u32| self.binary.ensures((op, a, b), r)
    }

    open spec fn of_one(&self, op: UnaryOp, a: u32) -> u32 {
        choose|r: u32| self.unary.ensures((op, a), r)
    }

    open spec fn to_whole(&self, op: WholeOp, a: u32) -> i32 {
        choose|r: i32| self.whole.ensures((op, a), r)
    }

    open spec fn mean_of(&self, numbers: Seq<u32>) -> u32 {
        choose|r: u32| averages(self.mean, numbers, r)
    }

    fn binary(&self, op: BinaryOp, a: u32, b: u32) -> (r: u32) {
        (self.binary)(op, a, b)
    }

    fn unary(&self, op: UnaryOp, a: u32) -> (r: u32) {
        (self.unary)(op, a)
    }

    fn whole(&self, op: WholeOp, a: u32) -> (r: i32) {
        (self.whole)(op, a)
    }

    fn mean(&self, numbers: &Vec<u32>) -> (r: u32) {
        (self.mean)(numbers)
    }
}

/// The sum of two numbers.
pub open spec fn sum<M: Arith>(m: &M, a: u32, b: u32) -> u32 {
    m.of_two(BinaryOp::Add, a, b)
}

/// The sum of two numbers.
pub fn plus<M: Arith>(m: &M, a: u32, b: u32) -> (r: u32)
    requires
        m.wf(),
    ensures
        r == sum(m, a, b),
{
    m.binary(BinaryOp::Add, a, b)
}

/// The difference of two numbers.
pub open spec fn difference<M: Arith>(m: &M, a: u32, b: u32) -> u32 {
    m.of_two(BinaryOp::Sub, a, b)
}

/// The difference of two numbers.
pub fn minus<M: Arith>(m: &M, a: u32, b: u32) -> (r: u32)
    requires
        m.wf(),
    ensures
        r == difference(m, a, b),
{
    m.binary(BinaryOp::Sub, a, b)
}

/// The product of two numbers.
pub open spec fn product<M: Arith>(m: &M, a: u32, b: u32) -> u32 {
    m.of_two(BinaryOp::Mul, a, b)
}

/// The product of two numbers.
pub fn times<M: Arith>(m: &M, a: u32, b: u32) -> (r: u32)
    requires
        m.wf(),
    ensures
        r == product(m, a, b),
{
    m.binary(BinaryOp::Mul, a, b)
}

/// The quotient of two numbers.
pub open spec fn quotient<M: Arith>(m: &M, a: u32, b: u32) -> u32 {
    m.of_two(BinaryOp::Div, a, b)
}

/// The quotient of two numbers.
pub fn over<M: Arith>(m: &M, a: u32, b: u32) -> (r: u32)
    requires
        m.wf(),
    ensures
        r == quotient(m, a, b),
{
    m.binary(BinaryOp::Div, a, b)
}

/// `a` to the power `b`.
pub open spec fn power<M: Arith>(m: &M, a: u32, b: u32) -> u32 {
    m.of_two(BinaryOp::Pow, a, b)
}

/// `a` to the power `b`.
pub fn raise<M: Arith>(m: &M, a: u32, b: u32) -> (r: u32)
    requires
        m.wf(),
    ensures
        r == power(m, a, b),
{
    m.binary(BinaryOp::Pow, a, b)
}

/// The remainder of `a` by `b`, never negative.
pub open spec fn remainder<M: Arith>(m: &M, a: u32, b: u32) -> u32 {
    m.of_two(BinaryOp::RemEuclid, a, b)
}

/// The remainder of `a` by `b`, never negative.
pub fn modulo<M: Arith>(m: &M, a: u32, b: u32) -> (r: u32)
    requires
        m.wf(),
    ensures
        r == remainder(m, a, b),
{
    m.binary(BinaryOp::RemEuclid, a, b)
}

/// The angle of the point with height `a` and width `b`.
pub open spec fn angle<M: Arith>(m: &M, a: u32, b: u32) -> u32 {
    m.of_two(BinaryOp::Atan2, a, b)
}

/// The angle of the point with height `a` and width `b`.
pub fn direction<M: Arith>(m: &M, a: u32, b: u32) -> (r: u32)
    requires
        m.wf(),
    ensures
        r == angle(m, a, b),
{
    m.binary(BinaryOp::Atan2, a, b)
}

/// The square root of a number.
pub open spec fn root<M: Arith>(m: &M, a: u32) -> u32 {
    m.of_one(UnaryOp::Sqrt, a)
}

/// The square root of a number.
pub fn sqrt<M: Arith>(m: &M, a: u32) -> (r: u32)
    requires
        m.wf(),
    ensures
        r == root(m, a),
{
    m.unary(UnaryOp::Sqrt, a)
}

/// The whole number nearest to a number.
pub open spec fn rounded<M: Arith>(m: &M, a: u32) -> u32 {
    m.of_one(UnaryOp::Round, a)
}

/// The whole number nearest to a number.
pub fn round<M: Arith>(m: &M, a: u32) -> (r: u32)
    requires
        m.wf(),
    ensures
        r == rounded(m, a),
{
    m.unary(UnaryOp::Round, a)
}

/// The largest integer that is not larger than a number.
pub open spec fn whole_below<M: Arith>(m: &M, a: u32) -> i32 {
    m.to_whole(WholeOp::Floor, a)
}

/// The largest integer that is not larger than a number.
pub fn floor<M: Arith>(m: &M, a: u32) -> (r: i32)
    requires
        m.wf(),
    ensures
        r == whole_below(m, a),
{
    m.whole(WholeOp::Floor, a)
}

/// The smallest integer that is not smaller than a number.
pub open spec fn whole_above<M: Arith>(m: &M, a: u32) -> i32 {
    m.to_whole(WholeOp::Ceil, a)
}

/// The smallest integer that is not smaller than a number.
pub fn ceil<M: Arith>(m: &M, a: u32) -> (r: i32)
    requires
        m.wf(),
    ensures
        r == whole_above(m, a),
{
    m.whole(WholeOp::Ceil, a)
}

} // verus!
