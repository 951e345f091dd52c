//! The autoencoder whose latent space is a circle.

use crate::expr::{
    apply, broadcast, make_apply, make_broadcast, make_combine, make_scale, make_shift, minus, plus,
    scale, shift, Angle, Binary, Block, Decimal, Expr, Linear, Position, Unary,
};
use std::rc::Rc;
use vstd::prelude::*;

verus! {

/// Three dense layers that take the 64 digits of a word to a point of the unit circle.
#[derive(Debug, PartialEq, Eq)]
pub struct Encoder {
    pub linear1: Linear,
    pub linear2: Linear,
    pub linear3: Linear,
}

/// Three dense layers that take a point of the plane to the logits of 64 digits.
#[derive(Debug, PartialEq, Eq)]
pub struct Decoder {
    pub linear1: Linear,
    pub linear2: Linear,
    pub linear3: Linear,
}

/// A trainable vector: its name, its length and the value that all its entries start from.
#[derive(Debug, PartialEq, Eq)]
pub struct Parameter {
    pub name: &'static str,
    pub len: usize,
    pub initial: Decimal,
}

/// The autoencoder together with the parameter that fixes the turn of one Collatz step.
#[derive(Debug, PartialEq, Eq)]
pub struct CollatzHackerModel {
    pub encoder: Encoder,
    pub decoder: Decoder,
    pub phi: Parameter,
}

/// A layer of the given widths.
pub open spec fn layer(block: Block, position: Position, inputs: nat, outputs: nat) -> Linear {
    Linear { block, position, inputs: inputs as usize, outputs: outputs as usize }
}

/// The layers 64 to 128 to 128 to 2.
pub open spec fn encoder_layers() -> Encoder {
    Encoder {
        linear1: layer(Block::Encoder, Position::First, 64, 128),
        linear2: layer(Block::Encoder, Position::Second, 128, 128),
        linear3: layer(Block::Encoder, Position::Third, 128, 2),
    }
}

/// The layers 2 to 128 to 128 to 64.
pub open spec fn decoder_layers() -> Decoder {
    Decoder {
        linear1: layer(Block::Decoder, Position::First, 2, 128),
        linear2: layer(Block::Decoder, Position::Second, 128, 128),
        linear3: layer(Block::Decoder, Position::Third, 128, 64),
    }
}

/// Three layers with rectifiers between them.
pub open spec fn stacked(l1: Linear, l2: Linear, l3: Linear, x: Expr) -> Expr {
    let h1 = apply(Unary::Relu, Expr::Layer(l1, Rc::new(x)));
    let h2 = apply(Unary::Relu, Expr::Layer(l2, Rc::new(h1)));
    Expr::Layer(l3, Rc::new(h2))
}

/// Every row divided by its length plus `10^-8`.
pub open spec fn unit_rows(h: Expr) -> Expr {
    let norm = apply(Unary::Sqrt, Expr::RowSums(Rc::new(apply(Unary::Sqr, h))));
    broadcast(Binary::Div, h, shift(norm, 1, 8))
}

/// The layers of the encoder, and its rows brought to unit length.
pub open spec fn encoder_formula(e: Encoder, x: Expr) -> Expr {
    unit_rows(stacked(e.linear1, e.linear2, e.linear3, x))
}

/// The layers of the decoder.
pub open spec fn decoder_formula(d: Decoder, z: Expr) -> Expr {
    stacked(d.linear1, d.linear2, d.linear3, z)
}

/// `1 / (exp(-x) + 1)`.
pub open spec fn sigmoid(x: Expr) -> Expr {
    apply(Unary::Recip, shift(apply(Unary::Exp, scale(x, -1, 0)), 1, 0))
}

/// The angle of the turn: the sigmoid of the parameter, stretched from 15 to 345 degrees.
pub open spec fn theta_formula() -> Expr {
    let lowest = Expr::Radians(Angle { tenths: 150 });
    let highest = Expr::Radians(Angle { tenths: 3450 });
    let turned = sigmoid(Expr::ToScalar(Rc::new(Expr::Phi)));
    broadcast(Binary::Add, lowest, broadcast(Binary::Mul, turned, minus(highest, lowest)))
}

/// One column of a matrix.
pub open spec fn column(z: Expr, index: nat) -> Expr {
    Expr::Columns { arg: Rc::new(z), start: index as usize, len: 1 }
}

/// Every row turned clockwise by an angle.
pub open spec fn rotated_rows(z: Expr, theta: Expr) -> Expr {
    let x = column(z, 0);
    let y = column(z, 1);
    let cos_t = apply(Unary::Cos, theta);
    let sin_t = apply(Unary::Sin, theta);
    let pred_x = plus(broadcast(Binary::Mul, x, cos_t), broadcast(Binary::Mul, y, sin_t));
    let pred_y = plus(
        scale(broadcast(Binary::Mul, x, sin_t), -1, 0),
        broadcast(Binary::Mul, y, cos_t),
    );
    Expr::Beside(Rc::new(pred_x), Rc::new(pred_y))
}

/// The product of the three weight matrices of the encoder.
pub open spec fn effective_formula(e: Encoder) -> Expr {
    let w3_w2 = Expr::MatMul(
        Rc::new(Expr::Weight(e.linear3)),
        Rc::new(Expr::Weight(e.linear2)),
    );
    Expr::MatMul(Rc::new(w3_w2), Rc::new(Expr::Weight(e.linear1)))
}

/// Applies three layers with rectifiers between them.
fn stack(l1: Linear, l2: Linear, l3: Linear, x: &Rc<Expr>) -> (y: Rc<Expr>)
    ensures
        *y == stacked(l1, l2, l3, **x),
{
    let h1 = make_apply(Unary::Relu, &Rc::new(Expr::Layer(l1, x.clone())));
    let h2 = make_apply(Unary::Relu, &Rc::new(Expr::Layer(l2, h1)));
    Rc::new(Expr::Layer(l3, h2))
}

impl Block {
    /// The name scope of the parameters of a block.
    pub fn name(&self) -> (name: &'static str)
        ensures
            name@ == (match *self {
                Block::Encoder => "encoder"@,
                Block::Decoder => "decoder"@,
            }),
    {
        match *self {
            Block::Encoder => "encoder",
            Block::Decoder => "decoder",
        }
    }
}

impl Position {
    /// The name scope of the parameters of a layer within its block.
    pub fn name(&self) -> (name: &'static str)
        ensures
            name@ == (match *self {
                Position::First => "linear1"@,
                Position::Second => "linear2"@,
                Position::Third => "linear3"@,
            }),
    {
        match *self {
            Position::First => "linear1",
            Position::Second => "linear2",
            Position::Third => "linear3",
        }
    }
}

impl Encoder {
    /// The layers 64 to 128 to 128 to 2.
    pub fn new() -> (encoder: Encoder)
        ensures
            encoder == encoder_layers(),
            encoder.linear1 == (Linear {
                block: Block::Encoder,
                position: Position::First,
                inputs: 64,
                outputs: 128,
            }),
            encoder.linear2 == (Linear {
                block: Block::Encoder,
                position: Position::Second,
                inputs: 128,
                outputs: 128,
            }),
            encoder.linear3 == (Linear {
                block: Block::Encoder,
                position: Position::Third,
                inputs: 128,
                outputs: 2,
            }),
    {
        let block = Block::Encoder;
        Encoder {
            linear1: Linear { block, position: Position::First, inputs: 64, outputs: 128 },
            linear2: Linear { block, position: Position::Second, inputs: 128, outputs: 128 },
            linear3: Linear { block, position: Position::Third, inputs: 128, outputs: 2 },
        }
    }

    /// The latent points of a batch of digit rows.
    pub fn forward(&self, x: &Rc<Expr>) -> (z: Rc<Expr>)
        ensures
            *z == encoder_formula(*self, **x),
    {
        let h = stack(self.linear1, self.linear2, self.linear3, x);
        let sums = Rc::new(Expr::RowSums(make_apply(Unary::Sqr, &h)));
        let norm = make_apply(Unary::Sqrt, &sums);
        make_broadcast(Binary::Div, &h, &make_shift(&norm, 1, 8))
    }
}

impl Decoder {
    /// The layers 2 to 128 to 128 to 64.
    pub fn new() -> (decoder: Decoder)
        ensures
            decoder == decoder_layers(),
            decoder.linear1 == (Linear {
                block: Block::Decoder,
                position: Position::First,
                inputs: 2,
                outputs: 128,
            }),
            decoder.linear2 == (Linear {
                block: Block::Decoder,
                position: Position::Second,
                inputs: 128,
                outputs: 128,
            }),
            decoder.linear3 == (Linear {
                block: Block::Decoder,
                position: Position::Third,
                inputs: 128,
                outputs: 64,
            }),
    {
        let block = Block::Decoder;
        Decoder {
            linear1: Linear { block, position: Position::First, inputs: 2, outputs: 128 },
            linear2: Linear { block, position: Position::Second, inputs: 128, outputs: 128 },
            linear3: Linear { block, position: Position::Third, inputs: 128, outputs: 64 },
        }
    }

    /// The digit logits of a batch of latent points.
    pub fn forward(&self, z: &Rc<Expr>) -> (logits: Rc<Expr>)
        ensures
            *logits == decoder_formula(*self, **z),
    {
        stack(self.linear1, self.linear2, self.linear3, z)
    }
}

impl CollatzHackerModel {
    /// The untrained model; the angle parameter starts in the middle of its range.
    pub fn new() -> (model: CollatzHackerModel)
        ensures
            model.encoder == encoder_layers(),
            model.decoder == decoder_layers(),
            model.phi.name@ == "phi"@,
            model.phi.len == 1,
            model.phi.initial == (Decimal { digits: 0, places: 0 }),
    {
        CollatzHackerModel {
            encoder: Encoder::new(),
            decoder: Decoder::new(),
            phi: Parameter { name: "phi", len: 1, initial: Decimal { digits: 0, places: 0 } },
        }
    }

    /// The angle of the turn, kept between 15 and 345 degrees.
    pub fn get_theta(&self) -> (theta: Rc<Expr>)
        ensures
            *theta == theta_formula(),
    {
        let lowest = Rc::new(Expr::Radians(Angle { tenths: 150 }));
        let highest = Rc::new(Expr::Radians(Angle { tenths: 3450 }));
        let phi = Rc::new(Expr::ToScalar(Rc::new(Expr::Phi)));
        let grown = make_apply(Unary::Exp, &make_scale(&phi, -1, 0));
        let turned = make_apply(Unary::Recip, &make_shift(&grown, 1, 0));
        let range = make_combine(Binary::Sub, &highest, &lowest);
        let stretched = make_broadcast(Binary::Mul, &turned, &range);
        make_broadcast(Binary::Add, &lowest, &stretched)
    }

    /// Turns every row of `z` clockwise by the current angle.
    pub fn rotate(&self, z: &Rc<Expr>) -> (turned: Rc<Expr>)
        ensures
            *turned == rotated_rows(**z, theta_formula()),
    {
        let x = Rc::new(Expr::Columns { arg: z.clone(), start: 0, len: 1 });
        let y = Rc::new(Expr::Columns { arg: z.clone(), start: 1, len: 1 });
        let theta = self.get_theta();
        let cos_t = make_apply(Unary::Cos, &theta);
        let sin_t = make_apply(Unary::Sin, &theta);
        let x_cos = make_broadcast(Binary::Mul, &x, &cos_t);
        let y_sin = make_broadcast(Binary::Mul, &y, &sin_t);
        let x_sin = make_broadcast(Binary::Mul, &x, &sin_t);
        let y_cos = make_broadcast(Binary::Mul, &y, &cos_t);
        let pred_x = make_combine(Binary::Add, &x_cos, &y_sin);
        let pred_y = make_combine(Binary::Add, &make_scale(&x_sin, -1, 0), &y_cos);
        Rc::new(Expr::Beside(pred_x, pred_y))
    }

    /// Encodes both ends of a batch of transitions, decodes them again and predicts the second end
    /// by a turn of the first. Returns the two reconstructions, the prediction, the encoded second
    /// end and the encoded first end.
    pub fn forward(&self, x_t: &Rc<Expr>, x_next: &Rc<Expr>) -> (out: (
        Rc<Expr>,
        Rc<Expr>,
        Rc<Expr>,
        Rc<Expr>,
        Rc<Expr>,
    ))
        ensures
            *out.0 == decoder_formula(self.decoder, encoder_formula(self.encoder, **x_t)),
            *out.1 == decoder_formula(self.decoder, encoder_formula(self.encoder, **x_next)),
            *out.2 == rotated_rows(encoder_formula(self.encoder, **x_t), theta_formula()),
            *out.3 == encoder_formula(self.encoder, **x_next),
            *out.4 == encoder_formula(self.encoder, **x_t),
    {
        let z_t = self.encoder.forward(x_t);
        let z_next = self.encoder.forward(x_next);
        let x_t_recon = self.decoder.forward(&z_t);
        let x_next_recon = self.decoder.forward(&z_next);
        let z_t_pred = self.rotate(&z_t);
        (x_t_recon, x_next_recon, z_t_pred, z_next, z_t)
    }

    /// The encoder with its rectifiers and biases left out: one matrix from digits to coordinates.
    pub fn effective_weights(&self) -> (weights: Rc<Expr>)
        ensures
            *weights == effective_formula(self.encoder),
    {
        let w1 = Rc::new(Expr::Weight(self.encoder.linear1));
        let w2 = Rc::new(Expr::Weight(self.encoder.linear2));
        let w3 = Rc::new(Expr::Weight(self.encoder.linear3));
        Rc::new(Expr::MatMul(Rc::new(Expr::MatMul(w3, w2)), w1))
    }
}

} // verus!
