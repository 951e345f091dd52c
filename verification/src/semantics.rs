//! What a formula means in exact arithmetic: a grid of real numbers.

use crate::expr::{Angle, Binary, Decimal, Expr, Linear, Unary};
use std::rc::Rc;
use vstd::prelude::*;

verus! {

/// The transcendental functions and the constant pi.
pub struct Functions {
    pub exp: spec_fn(real) -> real,
    pub ln: spec_fn(real) -> real,
    pub sqrt: spec_fn(real) -> real,
    pub cos: spec_fn(real) -> real,
    pub sin: spec_fn(real) -> real,
    pub pi: real,
}

impl Functions {
    /// `exp` turns this sum into a product.
    pub open spec fn exp_of_sum(self, a: real, b: real) -> bool {
        (self.exp)(a + b) == (self.exp)(a) * (self.exp)(b)
    }

    /// `ln` turns this product, where its factors are positive, into a sum.
    pub open spec fn ln_of_product(self, a: real, b: real) -> bool {
        a > 0real && b > 0real ==> (self.ln)(a * b) == (self.ln)(a) + (self.ln)(b)
    }

    /// The cosine and the sine of this sum follow from those of its parts.
    pub open spec fn turn_of_sum(self, a: real, b: real) -> bool {
        &&& (self.cos)(a + b) == (self.cos)(a) * (self.cos)(b) - (self.sin)(a) * (self.sin)(b)
        &&& (self.sin)(a + b) == (self.sin)(a) * (self.cos)(b) + (self.cos)(a) * (self.sin)(b)
    }

    /// `exp` is positive and increasing and turns sums into products.
    pub open spec fn exp_laws(self) -> bool {
        &&& forall|a: real| #[trigger] (self.exp)(a) > 0real
        &&& forall|a: real, b: real|
            #![trigger (self.exp)(a), (self.exp)(b)]
            a < b ==> (self.exp)(a) < (self.exp)(b)
        &&& (self.exp)(0real) == 1real
        &&& forall|a: real, b: real| #[trigger] self.exp_of_sum(a, b)
    }

    /// `exp` lies above its tangent at 0: its base is the natural one.
    pub open spec fn natural_base(self) -> bool {
        forall|a: real| #[trigger] (self.exp)(a) >= 1real + a
    }

    /// `ln` and `exp` undo each other; `ln` turns products of positive numbers into sums and is
    /// not negative from 1 on.
    pub open spec fn ln_laws(self) -> bool {
        &&& forall|a: real| #[trigger] (self.ln)((self.exp)(a)) == a
        &&& forall|a: real| a > 0real ==> (self.exp)(#[trigger] (self.ln)(a)) == a
        &&& forall|a: real| a >= 1real ==> #[trigger] (self.ln)(a) >= 0real
        &&& forall|a: real, b: real| #[trigger] self.ln_of_product(a, b)
    }

    /// `sqrt` gives the non-negative root.
    pub open spec fn sqrt_laws(self) -> bool {
        forall|a: real|
            a >= 0real ==> #[trigger] (self.sqrt)(a) >= 0real && (self.sqrt)(a) * (self.sqrt)(a)
                == a
    }

    /// `cos` and `sin` start at 1 and 0 and obey the addition formulas.
    pub open spec fn addition_laws(self) -> bool {
        &&& (self.cos)(0real) == 1real
        &&& (self.sin)(0real) == 0real
        &&& forall|a: real, b: real| #[trigger] self.turn_of_sum(a, b)
    }

    /// `pi / 2` is a quarter turn, from the first axis to the second one.
    pub open spec fn quarter_laws(self) -> bool {
        &&& self.pi > 0real
        &&& (self.cos)(self.pi / 2real) == 0real
        &&& (self.sin)(self.pi / 2real) == 1real
    }

    /// `cos` and `sin` are the coordinates of a point of the unit circle.
    pub open spec fn circle_laws(self) -> bool {
        forall|a: real|
            #![trigger (self.cos)(a)]
            #![trigger (self.sin)(a)]
            (self.cos)(a) * (self.cos)(a) + (self.sin)(a) * (self.sin)(a) == 1real
    }
}

/// A matrix of real numbers; a scalar is a grid with one entry.
pub struct Grid {
    pub rows: nat,
    pub cols: nat,
    pub at: spec_fn(int, int) -> real,
}

/// What a formula is evaluated in: the functions, the inputs and the parameters.
pub struct World {
    pub functions: Functions,
    pub inputs: spec_fn(usize) -> Grid,
    pub phi: real,
    pub weight: spec_fn(Linear, int, int) -> real,
    pub bias: spec_fn(Linear, int) -> real,
}

/// A grid with one entry.
pub open spec fn scalar(r: real) -> Grid {
    Grid { rows: 1, cols: 1, at: |i: int, j: int| r }
}

/// `10^k`.
pub open spec fn power_of_ten(k: nat) -> real
    decreases k,
{
    if k == 0 {
        1real
    } else {
        10real * power_of_ten((k - 1) as nat)
    }
}

/// The number that a decimal constant stands for.
pub open spec fn decimal_value(d: Decimal) -> real {
    (d.digits as real) / power_of_ten(d.places as nat)
}

/// An angle in radians.
pub open spec fn radians(a: Angle, pi: real) -> real {
    (a.tenths as real) * (pi / 1800real)
}

/// `f(0) + ... + f(n - 1)`.
pub open spec fn total(n: nat, f: spec_fn(int) -> real) -> real
    decreases n,
{
    if n == 0 {
        0real
    } else {
        total((n - 1) as nat, f) + f(n - 1)
    }
}

/// The sum of all entries of a grid.
pub open spec fn grand_total(g: Grid) -> real {
    total(g.rows, |i: int| total(g.cols, |j: int| (g.at)(i, j)))
}

/// The absolute value.
pub open spec fn absolute(a: real) -> real {
    if a < 0real {
        -a
    } else {
        a
    }
}

/// The number itself where it is positive, else zero.
pub open spec fn positive_part(a: real) -> real {
    if a < 0real {
        0real
    } else {
        a
    }
}

/// A function applied to one entry.
pub open spec fn unary(f: Unary, functions: Functions, a: real) -> real {
    match f {
        Unary::Neg => -a,
        Unary::Relu => positive_part(a),
        Unary::Sqr => a * a,
        Unary::Sqrt => (functions.sqrt)(a),
        Unary::Abs => absolute(a),
        Unary::Exp => (functions.exp)(a),
        Unary::Log => (functions.ln)(a),
        Unary::Recip => 1real / a,
        Unary::Cos => (functions.cos)(a),
        Unary::Sin => (functions.sin)(a),
    }
}

/// An operation on a pair of entries.
pub open spec fn binary(op: Binary, a: real, b: real) -> real {
    match op {
        Binary::Add => a + b,
        Binary::Sub => a - b,
        Binary::Mul => a * b,
        Binary::Div => a / b,
    }
}

/// Every entry of a grid changed by `f`.
pub open spec fn mapped(g: Grid, f: spec_fn(real) -> real) -> Grid {
    Grid { rows: g.rows, cols: g.cols, at: |i: int, j: int| f((g.at)(i, j)) }
}

/// An entry of a grid that is repeated along an axis of length one.
pub open spec fn repeated(g: Grid, i: int, j: int) -> real {
    (g.at)(
        if g.rows == 1 {
            0
        } else {
            i
        },
        if g.cols == 1 {
            0
        } else {
            j
        },
    )
}

/// The length of an axis after broadcasting.
pub open spec fn extent(a: nat, b: nat) -> nat {
    if a == 1 {
        b
    } else {
        a
    }
}

/// The value of a formula in exact arithmetic.
pub open spec fn value(e: Expr, w: World) -> Grid
    decreases e,
{
    match e {
        Expr::Input(slot) => (w.inputs)(slot),
        Expr::Phi => scalar(w.phi),
        Expr::Const(d) => scalar(decimal_value(d)),
        Expr::Count(n) => scalar(n as real),
        Expr::Radians(a) => scalar(radians(a, w.functions.pi)),
        Expr::Weight(l) => Grid {
            rows: l.outputs as nat,
            cols: l.inputs as nat,
            at: |i: int, j: int| (w.weight)(l, i, j),
        },
        Expr::Layer(l, arg) => {
            let g = value(*arg, w);
            Grid {
                rows: g.rows,
                cols: l.outputs as nat,
                at: |i: int, j: int|
                    total(l.inputs as nat, |k: int| (g.at)(i, k) * (w.weight)(l, j, k)) + (w.bias)(
                        l,
                        j,
                    ),
            }
        },
        Expr::Apply(f, arg) => mapped(value(*arg, w), |a: real| unary(f, w.functions, a)),
        Expr::Scale(arg, d) => mapped(value(*arg, w), |a: real| a * decimal_value(d)),
        Expr::Shift(arg, d) => mapped(value(*arg, w), |a: real| a + decimal_value(d)),
        Expr::Combine(op, a, b) => {
            let x = value(*a, w);
            let y = value(*b, w);
            Grid {
                rows: x.rows,
                cols: x.cols,
                at: |i: int, j: int| binary(op, (x.at)(i, j), (y.at)(i, j)),
            }
        },
        Expr::Broadcast(op, a, b) => {
            let x = value(*a, w);
            let y = value(*b, w);
            Grid {
                rows: extent(x.rows, y.rows),
                cols: extent(x.cols, y.cols),
                at: |i: int, j: int| binary(op, repeated(x, i, j), repeated(y, i, j)),
            }
        },
        Expr::MatMul(a, b) => {
            let x = value(*a, w);
            let y = value(*b, w);
            Grid {
                rows: x.rows,
                cols: y.cols,
                at: |i: int, j: int| total(x.cols, |k: int| (x.at)(i, k) * (y.at)(k, j)),
            }
        },
        Expr::Transpose(arg) => {
            let g = value(*arg, w);
            Grid { rows: g.cols, cols: g.rows, at: |i: int, j: int| (g.at)(j, i) }
        },
        Expr::Columns { arg, start, len } => {
            let g = value(*arg, w);
            Grid { rows: g.rows, cols: len as nat, at: |i: int, j: int| (g.at)(i, start + j) }
        },
        Expr::Beside(a, b) => {
            let x = value(*a, w);
            let y = value(*b, w);
            Grid {
                rows: x.rows,
                cols: x.cols + y.cols,
                at: |i: int, j: int|
                    if j < x.cols {
                        (x.at)(i, j)
                    } else {
                        (y.at)(i, j - x.cols)
                    },
            }
        },
        Expr::RowSums(arg) => {
            let g = value(*arg, w);
            Grid {
                rows: g.rows,
                cols: 1,
                at: |i: int, j: int| total(g.cols, |k: int| (g.at)(i, k)),
            }
        },
        Expr::SumAll(arg) => scalar(grand_total(value(*arg, w))),
        Expr::MeanAll(arg) => {
            let g = value(*arg, w);
            scalar(grand_total(g) / ((g.rows * g.cols) as real))
        },
        Expr::ToScalar(arg) => scalar((value(*arg, w).at)(0, 0)),
    }
}

/// The entry of a formula's value in row `i` and column `j`.
pub open spec fn entry(e: Expr, w: World, i: int, j: int) -> real {
    (value(e, w).at)(i, j)
}

/// The number that a scalar formula stands for.
pub open spec fn number(e: Expr, w: World) -> real {
    entry(e, w, 0, 0)
}

/// What each function does to an entry.
pub proof fn lemma_function_meanings(arg: Expr, w: World, i: int, j: int)
    ensures
        ({
            let a = entry(arg, w, i, j);
            let of = |f: Unary| entry(Expr::Apply(f, Rc::new(arg)), w, i, j);
            &&& of(Unary::Neg) == 0real - a
            &&& of(Unary::Relu) == (if a > 0real {
                a
            } else {
                0real
            })
            &&& of(Unary::Sqr) == a * a
            &&& of(Unary::Sqrt) == (w.functions.sqrt)(a)
            &&& of(Unary::Abs) == (if a > 0real {
                a
            } else {
                0real - a
            })
            &&& of(Unary::Exp) == (w.functions.exp)(a)
            &&& of(Unary::Log) == (w.functions.ln)(a)
            &&& of(Unary::Recip) == 1real / a
            &&& of(Unary::Cos) == (w.functions.cos)(a)
            &&& of(Unary::Sin) == (w.functions.sin)(a)
        }),
{
}

/// What each operation makes of two entries.
pub proof fn lemma_operation_meanings(x: Expr, y: Expr, w: World, i: int, j: int)
    ensures
        ({
            let (a, b) = (entry(x, w, i, j), entry(y, w, i, j));
            let of = |op: Binary| entry(Expr::Combine(op, Rc::new(x), Rc::new(y)), w, i, j);
            &&& of(Binary::Add) == a + b
            &&& of(Binary::Sub) == a - b
            &&& of(Binary::Mul) == a * b
            &&& of(Binary::Div) == a / b
        }),
{
}

pub broadcast proof fn lemma_entry_apply(f: Unary, arg: Rc<Expr>, w: World, i: int, j: int)
    ensures
        #[trigger] entry(Expr::Apply(f, arg), w, i, j) == unary(
            f,
            w.functions,
            entry(*arg, w, i, j),
        ),
{
}

pub broadcast proof fn lemma_entry_combine(
    op: Binary,
    a: Rc<Expr>,
    b: Rc<Expr>,
    w: World,
    i: int,
    j: int,
)
    ensures
        #[trigger] entry(Expr::Combine(op, a, b), w, i, j) == binary(
            op,
            entry(*a, w, i, j),
            entry(*b, w, i, j),
        ),
{
}

pub broadcast proof fn lemma_entry_scale(arg: Rc<Expr>, d: Decimal, w: World, i: int, j: int)
    ensures
        #[trigger] entry(Expr::Scale(arg, d), w, i, j) == entry(*arg, w, i, j) * decimal_value(d),
{
}

pub broadcast proof fn lemma_entry_shift(arg: Rc<Expr>, d: Decimal, w: World, i: int, j: int)
    ensures
        #[trigger] entry(Expr::Shift(arg, d), w, i, j) == entry(*arg, w, i, j) + decimal_value(d),
{
}

pub broadcast proof fn lemma_entry_broadcast(
    op: Binary,
    a: Rc<Expr>,
    b: Rc<Expr>,
    w: World,
    i: int,
    j: int,
)
    ensures
        #[trigger] entry(Expr::Broadcast(op, a, b), w, i, j) == binary(
            op,
            repeated(value(*a, w), i, j),
            repeated(value(*b, w), i, j),
        ),
{
}

pub broadcast proof fn lemma_number_broadcast(op: Binary, a: Rc<Expr>, b: Rc<Expr>, w: World)
    ensures
        #[trigger] number(Expr::Broadcast(op, a, b), w) == binary(
            op,
            number(*a, w),
            number(*b, w),
        ),
{
}

/// How the entries of compound formulas follow from those of their parts.
pub broadcast group group_entries {
    lemma_entry_apply,
    lemma_entry_combine,
    lemma_entry_scale,
    lemma_entry_shift,
    lemma_entry_broadcast,
    lemma_number_broadcast,
}

} // verus!
