//! Formulas over floating-point tensors, written down as data.
//!
//! The library decides *what* is to be computed; a numeric backend evaluates the formula. Shared
//! subformulas are shared through `Rc`, so a backend can evaluate each of them once.

use std::rc::Rc;
use vstd::prelude::*;

verus! {

/// The decimal constant `digits / 10^places`.
#[derive(Clone, Copy, Debug, PartialEq, Eq, Structural)]
pub struct Decimal {
    pub digits: i64,
    pub places: u32,
}

/// An angle in tenths of a degree; negative for a turn the other way.
#[derive(Clone, Copy, Debug, PartialEq, Eq, Structural)]
pub struct Angle {
    pub tenths: i32,
}

/// The two halves of the autoencoder.
#[derive(Clone, Copy, Debug, PartialEq, Eq, Structural)]
pub enum Block {
    Encoder,
    Decoder,
}

/// The place of a layer within its block.
#[derive(Clone, Copy, Debug, PartialEq, Eq, Structural)]
pub enum Position {
    First,
    Second,
    Third,
}

/// A dense layer: its block, its place within the block and its widths.
#[derive(Clone, Copy, Debug, PartialEq, Eq, Structural)]
pub struct Linear {
    pub block: Block,
    pub position: Position,
    pub inputs: usize,
    pub outputs: usize,
}

/// Functions applied to every entry of a tensor.
#[derive(Clone, Copy, Debug, PartialEq, Eq, Structural)]
pub enum Unary {
    Neg,
    Relu,
    Sqr,
    Sqrt,
    Abs,
    Exp,
    Log,
    Recip,
    Cos,
    Sin,
}

/// Operations on pairs of entries.
#[derive(Clone, Copy, Debug, PartialEq, Eq, Structural)]
pub enum Binary {
    Add,
    Sub,
    Mul,
    Div,
}

/// A formula. Tensors have rank zero (a scalar), one or two (rows by columns).
#[derive(Debug, PartialEq, Eq)]
pub enum Expr {
    /// The tensor that the caller puts into the given slot.
    Input(usize),
    /// The trainable angle parameter, a vector with one entry.
    Phi,
    /// A constant scalar.
    Const(Decimal),
    /// A whole number as a scalar.
    Count(usize),
    /// An angle as a scalar, in radians.
    Radians(Angle),
    /// The weight matrix of a layer, `outputs` by `inputs`.
    Weight(Linear),
    /// A layer applied to every row.
    Layer(Linear, Rc<Expr>),
    /// A function applied to every entry.
    Apply(Unary, Rc<Expr>),
    /// Every entry times a constant.
    Scale(Rc<Expr>, Decimal),
    /// Every entry plus a constant.
    Shift(Rc<Expr>, Decimal),
    /// Entry by entry, on two tensors of one shape.
    Combine(Binary, Rc<Expr>, Rc<Expr>),
    /// Entry by entry, after repeating a scalar or an axis of length one.
    Broadcast(Binary, Rc<Expr>, Rc<Expr>),
    /// The matrix product.
    MatMul(Rc<Expr>, Rc<Expr>),
    /// The matrix transpose.
    Transpose(Rc<Expr>),
    /// The columns `start .. start + len`.
    Columns { arg: Rc<Expr>, start: usize, len: usize },
    /// Two matrices side by side.
    Beside(Rc<Expr>, Rc<Expr>),
    /// The sum of every row, as a column.
    RowSums(Rc<Expr>),
    /// The sum of all entries, a scalar.
    SumAll(Rc<Expr>),
    /// The mean of all entries, a scalar.
    MeanAll(Rc<Expr>),
    /// A tensor with one entry, as a scalar.
    ToScalar(Rc<Expr>),
}

/// A point of the plane whose coordinates are formulas.
#[derive(Debug, PartialEq, Eq)]
pub struct Point {
    pub x: Rc<Expr>,
    pub y: Rc<Expr>,
}

impl Point {
    /// Another handle on the same two formulas.
    pub fn share(&self) -> (copy: Point)
        ensures
            copy == *self,
    {
        Point { x: self.x.clone(), y: self.y.clone() }
    }
}

/// The decimal constant `digits / 10^places`.
pub open spec fn decimal(digits: int, places: nat) -> Decimal {
    Decimal { digits: digits as i64, places: places as u32 }
}

/// A constant scalar.
pub open spec fn constant(digits: int, places: nat) -> Expr {
    Expr::Const(decimal(digits, places))
}

/// A function applied to every entry.
pub open spec fn apply(f: Unary, arg: Expr) -> Expr {
    Expr::Apply(f, Rc::new(arg))
}

/// The sum, entry by entry.
pub open spec fn plus(a: Expr, b: Expr) -> Expr {
    Expr::Combine(Binary::Add, Rc::new(a), Rc::new(b))
}

/// The difference, entry by entry.
pub open spec fn minus(a: Expr, b: Expr) -> Expr {
    Expr::Combine(Binary::Sub, Rc::new(a), Rc::new(b))
}

/// The product, entry by entry.
pub open spec fn times(a: Expr, b: Expr) -> Expr {
    Expr::Combine(Binary::Mul, Rc::new(a), Rc::new(b))
}

/// The quotient, entry by entry.
pub open spec fn over(a: Expr, b: Expr) -> Expr {
    Expr::Combine(Binary::Div, Rc::new(a), Rc::new(b))
}

/// Two tensors combined after broadcasting.
pub open spec fn broadcast(op: Binary, a: Expr, b: Expr) -> Expr {
    Expr::Broadcast(op, Rc::new(a), Rc::new(b))
}

/// Every entry times `digits / 10^places`.
pub open spec fn scale(a: Expr, digits: int, places: nat) -> Expr {
    Expr::Scale(Rc::new(a), decimal(digits, places))
}

/// Every entry plus `digits / 10^places`.
pub open spec fn shift(a: Expr, digits: int, places: nat) -> Expr {
    Expr::Shift(Rc::new(a), decimal(digits, places))
}

/// The constant `digits / 10^places`.
pub(crate) fn make_constant(digits: i64, places: u32) -> (e: Rc<Expr>)
    ensures
        *e == constant(digits as int, places as nat),
{
    Rc::new(Expr::Const(Decimal { digits, places }))
}

/// `f` applied to every entry of `arg`.
pub(crate) fn make_apply(f: Unary, arg: &Rc<Expr>) -> (e: Rc<Expr>)
    ensures
        *e == apply(f, **arg),
{
    Rc::new(Expr::Apply(f, arg.clone()))
}

/// `a` and `b` combined entry by entry.
pub(crate) fn make_combine(op: Binary, a: &Rc<Expr>, b: &Rc<Expr>) -> (e: Rc<Expr>)
    ensures
        *e == Expr::Combine(op, *a, *b),
{
    Rc::new(Expr::Combine(op, a.clone(), b.clone()))
}

/// `a` and `b` combined entry by entry after broadcasting.
pub(crate) fn make_broadcast(op: Binary, a: &Rc<Expr>, b: &Rc<Expr>) -> (e: Rc<Expr>)
    ensures
        *e == broadcast(op, **a, **b),
{
    Rc::new(Expr::Broadcast(op, a.clone(), b.clone()))
}

/// Every entry of `a` times the constant `digits / 10^places`.
pub(crate) fn make_scale(a: &Rc<Expr>, digits: i64, places: u32) -> (e: Rc<Expr>)
    ensures
        *e == scale(**a, digits as int, places as nat),
{
    Rc::new(Expr::Scale(a.clone(), Decimal { digits, places }))
}

/// Every entry of `a` plus the constant `digits / 10^places`.
pub(crate) fn make_shift(a: &Rc<Expr>, digits: i64, places: u32) -> (e: Rc<Expr>)
    ensures
        *e == shift(**a, digits as int, places as nat),
{
    Rc::new(Expr::Shift(a.clone(), Decimal { digits, places }))
}

} // verus!
