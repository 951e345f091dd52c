use candle_core::{DType, Device, Tensor};
use candle_nn::{Module, VarBuilder, VarMap};
use collatz_probe::expr::{Angle, Binary, Block, Decimal, Expr, Linear, Position, Unary};
use collatz_probe::loss::{
    binary_cross_entropy_with_logits, compute_loss, mse_loss, repulsion_loss,
};
use collatz_probe::network::{CollatzHackerModel, Decoder, Encoder};
use std::rc::Rc;

struct Setting {
    layers: Vec<(Linear, candle_nn::Linear)>,
    phi: Tensor,
    inputs: Vec<Tensor>,
}

fn number(d: Decimal) -> f64 {
    d.digits as f64 / 10f64.powi(d.places as i32)
}

fn setting(phi: f32, inputs: Vec<Tensor>) -> Setting {
    let varmap = VarMap::new();
    let vs = VarBuilder::from_varmap(&varmap, DType::F32, &Device::Cpu);
    let (e, d) = (Encoder::new(), Decoder::new());
    let mut layers = Vec::new();
    for l in [e.linear1, e.linear2, e.linear3, d.linear1, d.linear2, d.linear3] {
        let scope = vs.pp(l.block.name()).pp(l.position.name());
        layers.push((l, candle_nn::linear(l.inputs, l.outputs, scope).unwrap()));
    }
    Setting { layers, phi: Tensor::new(&[phi], &Device::Cpu).unwrap(), inputs }
}

fn layer<'a>(s: &'a Setting, wanted: &Linear) -> &'a candle_nn::Linear {
    &s.layers.iter().find(|entry| &entry.0 == wanted).unwrap().1
}

fn eval(e: &Expr, s: &Setting) -> Tensor {
    let cpu = Device::Cpu;
    match e {
        Expr::Input(slot) => s.inputs[*slot].clone(),
        Expr::Phi => s.phi.clone(),
        Expr::Const(d) => Tensor::new(number(*d) as f32, &cpu).unwrap(),
        Expr::Count(n) => Tensor::new(*n as f32, &cpu).unwrap(),
        Expr::Radians(a) => Tensor::new((a.tenths as f32 / 10.0).to_radians(), &cpu).unwrap(),
        Expr::Weight(l) => layer(s, l).weight().clone(),
        Expr::Layer(l, x) => layer(s, l).forward(&eval(x, s)).unwrap(),
        Expr::Apply(f, x) => {
            let x = eval(x, s);
            match f {
                Unary::Neg => x.neg().unwrap(),
                Unary::Relu => x.relu().unwrap(),
                Unary::Sqr => x.sqr().unwrap(),
                Unary::Sqrt => x.sqrt().unwrap(),
                Unary::Abs => x.abs().unwrap(),
                Unary::Exp => x.exp().unwrap(),
                Unary::Log => x.log().unwrap(),
                Unary::Recip => x.recip().unwrap(),
                Unary::Cos => x.cos().unwrap(),
                Unary::Sin => x.sin().unwrap(),
            }
        }
        Expr::Scale(x, d) => (eval(x, s) * number(*d)).unwrap(),
        Expr::Shift(x, d) => (eval(x, s) + number(*d)).unwrap(),
        Expr::Combine(op, a, b) => {
            let (a, b) = (eval(a, s), eval(b, s));
            match op {
                Binary::Add => a.add(&b).unwrap(),
                Binary::Sub => a.sub(&b).unwrap(),
                Binary::Mul => a.mul(&b).unwrap(),
                Binary::Div => a.div(&b).unwrap(),
            }
        }
        Expr::Broadcast(op, a, b) => {
            let (a, b) = (eval(a, s), eval(b, s));
            match op {
                Binary::Add => a.broadcast_add(&b).unwrap(),
                Binary::Sub => a.broadcast_sub(&b).unwrap(),
                Binary::Mul => a.broadcast_mul(&b).unwrap(),
                Binary::Div => a.broadcast_div(&b).unwrap(),
            }
        }
        Expr::MatMul(a, b) => eval(a, s).matmul(&eval(b, s)).unwrap(),
        Expr::Transpose(x) => eval(x, s).transpose(0, 1).unwrap(),
        Expr::Columns { arg, start, len } => eval(arg, s).narrow(1, *start, *len).unwrap(),
        Expr::Beside(a, b) => Tensor::cat(&[eval(a, s), eval(b, s)], 1).unwrap(),
        Expr::RowSums(x) => eval(x, s).sum_keepdim(1).unwrap(),
        Expr::SumAll(x) => eval(x, s).sum_all().unwrap(),
        Expr::MeanAll(x) => eval(x, s).mean_all().unwrap(),
        Expr::ToScalar(x) => eval(x, s).reshape(()).unwrap(),
    }
}

fn scalar(e: &Expr, s: &Setting) -> f32 {
    eval(e, s).to_vec0::<f32>().unwrap()
}

fn matrix(rows: &[[f32; 2]]) -> Tensor {
    let flat: Vec<f32> = rows.concat();
    Tensor::from_vec(flat, (rows.len(), 2), &Device::Cpu).unwrap()
}

fn digit_rows(words: &[u64]) -> Tensor {
    let mut flat = Vec::new();
    for w in words {
        for d in collatz_probe::bits::to_binary_vec(*w, 64) {
            flat.push(d as f32);
        }
    }
    Tensor::from_vec(flat, (words.len(), 64), &Device::Cpu).unwrap()
}

fn close(a: f32, b: f32) -> bool {
    (a - b).abs() < 1e-5
}

fn input(slot: usize) -> Rc<Expr> {
    Rc::new(Expr::Input(slot))
}

#[test]
fn layer_widths_and_names() {
    let e = Encoder::new();
    let d = Decoder::new();
    let widths: Vec<(usize, usize)> = [e.linear1, e.linear2, e.linear3]
        .iter()
        .chain([d.linear1, d.linear2, d.linear3].iter())
        .map(|l| (l.inputs, l.outputs))
        .collect();
    assert_eq!(
        widths,
        vec![(64, 128), (128, 128), (128, 2), (2, 128), (128, 128), (128, 64)]
    );
    assert_eq!(e.linear2.block, Block::Encoder);
    assert_eq!(d.linear3.position, Position::Third);
    assert_eq!(Block::Encoder.name(), "encoder");
    assert_eq!(Block::Decoder.name(), "decoder");
    assert_eq!(Position::First.name(), "linear1");
    assert_eq!(Position::Second.name(), "linear2");
    assert_eq!(Position::Third.name(), "linear3");
}

#[test]
fn angle_parameter() {
    let model = CollatzHackerModel::new();
    assert_eq!(model.phi.name, "phi");
    assert_eq!(model.phi.len, 1);
    assert_eq!(model.phi.initial, Decimal { digits: 0, places: 0 });
    assert_eq!(model.encoder, Encoder::new());
    assert_eq!(model.decoder, Decoder::new());
}

#[test]
fn theta_starts_in_the_middle() {
    let model = CollatzHackerModel::new();
    let theta = scalar(&model.get_theta(), &setting(0.0, vec![]));
    assert!(close(theta, 180.0f32.to_radians()));
}

#[test]
fn theta_follows_the_sigmoid() {
    let model = CollatzHackerModel::new();
    for phi in [-3.0f32, -0.7, 0.4, 2.5] {
        let theta = scalar(&model.get_theta(), &setting(phi, vec![]));
        let expected = 15.0 + 330.0 / (1.0 + (-phi).exp());
        assert!(close(theta, expected.to_radians()));
        assert!(theta > 15.0f32.to_radians() && theta < 345.0f32.to_radians());
    }
}

#[test]
fn theta_grows_with_its_parameter() {
    let theta = CollatzHackerModel::new().get_theta();
    let values: Vec<f32> = [-4.0f32, -1.5, -0.1, 0.0, 0.1, 1.5, 4.0]
        .iter()
        .map(|phi| scalar(&theta, &setting(*phi, vec![])))
        .collect();
    assert!(values.windows(2).all(|pair| pair[0] < pair[1]));
}

#[test]
fn opposite_parameters_make_up_a_full_turn() {
    let theta = CollatzHackerModel::new().get_theta();
    for phi in [0.0f32, 0.3, 1.0, 2.5, 6.0] {
        let there = scalar(&theta, &setting(phi, vec![]));
        let back = scalar(&theta, &setting(-phi, vec![]));
        assert!(close(there + back, 360.0f32.to_radians()));
    }
}

#[test]
fn theta_approaches_the_ends_of_its_range() {
    let theta = CollatzHackerModel::new().get_theta();
    for phi in [0.0f32, 0.5, 2.0, 7.0, 30.0] {
        let reach = 330.0f32.to_radians() / (1.0 + phi);
        let low = scalar(&theta, &setting(-phi, vec![])) - 15.0f32.to_radians();
        let high = 345.0f32.to_radians() - scalar(&theta, &setting(phi, vec![]));
        assert!(low > -1e-5 && low <= reach);
        assert!(high > -1e-5 && high <= reach);
    }
}

#[test]
fn a_quarter_turn_of_a_batch_runs_clockwise() {
    let model = CollatzHackerModel::new();
    // This parameter gives an angle of 90 degrees.
    let phi = (75.0f32 / 255.0).ln();
    let s = setting(phi, vec![matrix(&[[1.0, 0.0], [0.0, 1.0], [3.0, -2.0]])]);
    assert!(close(scalar(&model.get_theta(), &s), 90.0f32.to_radians()));
    let turned = eval(&model.rotate(&input(0)), &s).to_vec2::<f32>().unwrap();
    for (row, expected) in turned.iter().zip([[0.0f32, -1.0], [1.0, 0.0], [-2.0, -3.0]]) {
        assert!(close(row[0], expected[0]) && close(row[1], expected[1]));
    }
}

#[test]
fn rotation_keeps_inner_products() {
    let model = CollatzHackerModel::new();
    let s = setting(-0.8, vec![matrix(&[[1.0, 2.0], [0.5, -0.8]])]);
    let turned = eval(&model.rotate(&input(0)), &s).to_vec2::<f32>().unwrap();
    let inner = turned[0][0] * turned[1][0] + turned[0][1] * turned[1][1];
    assert!(close(inner, 0.5 - 1.6));
}

#[test]
fn rows_of_a_batch_do_not_touch_each_other() {
    let model = CollatzHackerModel::new();
    let mut s = setting(0.4, vec![digit_rows(&[12, 27, 1000])]);
    let latent = model.encoder.forward(&input(0));
    let in_batch = eval(&latent, &s).to_vec2::<f32>().unwrap();
    let logits_in_batch =
        eval(&model.decoder.forward(&latent), &s).to_vec2::<f32>().unwrap();
    s.inputs = vec![digit_rows(&[27])];
    let alone = eval(&latent, &s).to_vec2::<f32>().unwrap();
    let logits_alone = eval(&model.decoder.forward(&latent), &s).to_vec2::<f32>().unwrap();
    assert!(close(in_batch[1][0], alone[0][0]) && close(in_batch[1][1], alone[0][1]));
    for k in 0..64 {
        assert!(close(logits_in_batch[1][k], logits_alone[0][k]));
    }
}

#[test]
fn rotation_turns_and_keeps_length() {
    let model = CollatzHackerModel::new();
    let s = setting(0.3, vec![matrix(&[[1.0, 0.0], [0.6, -0.8], [-2.0, 0.5]])]);
    let theta = scalar(&model.get_theta(), &s);
    let turned = eval(&model.rotate(&input(0)), &s).to_vec2::<f32>().unwrap();
    let points = s.inputs[0].to_vec2::<f32>().unwrap();
    for i in 0..3 {
        let (x, y) = (points[i][0], points[i][1]);
        assert!(close(turned[i][0], x * theta.cos() + y * theta.sin()));
        assert!(close(turned[i][1], -x * theta.sin() + y * theta.cos()));
        let before = x * x + y * y;
        let after = turned[i][0] * turned[i][0] + turned[i][1] * turned[i][1];
        assert!(close(before, after));
    }
}

#[test]
fn encoder_maps_words_near_the_unit_circle() {
    let model = CollatzHackerModel::new();
    let s = setting(0.0, vec![digit_rows(&[27, 12, 1000, 7])]);
    let z = eval(&model.encoder.forward(&input(0)), &s);
    assert_eq!(z.dims(), &[4, 2]);
    for row in z.to_vec2::<f32>().unwrap() {
        assert!(close(row[0] * row[0] + row[1] * row[1], 1.0));
    }
}

#[test]
fn encoder_computes_what_its_layers_compute() {
    let model = CollatzHackerModel::new();
    let s = setting(0.0, vec![digit_rows(&[27, 12, 8521])]);
    let e = &model.encoder;
    let h = layer(&s, &e.linear1).forward(&s.inputs[0]).unwrap().relu().unwrap();
    let h = layer(&s, &e.linear2).forward(&h).unwrap().relu().unwrap();
    let h = layer(&s, &e.linear3).forward(&h).unwrap().to_vec2::<f32>().unwrap();
    let z = eval(&e.forward(&input(0)), &s).to_vec2::<f32>().unwrap();
    for i in 0..3 {
        let norm = (h[i][0] * h[i][0] + h[i][1] * h[i][1]).sqrt() + 1e-8;
        assert!(close(z[i][0], h[i][0] / norm));
        assert!(close(z[i][1], h[i][1] / norm));
    }
}

#[test]
fn decoder_gives_rows_of_logits() {
    let model = CollatzHackerModel::new();
    let s = setting(0.0, vec![matrix(&[[1.0, 0.0], [0.0, 1.0], [0.6, 0.8]])]);
    let logits = eval(&model.decoder.forward(&input(0)), &s);
    assert_eq!(logits.dims(), &[3, 64]);
    let d = &model.decoder;
    let h = layer(&s, &d.linear1).forward(&s.inputs[0]).unwrap().relu().unwrap();
    let h = layer(&s, &d.linear2).forward(&h).unwrap().relu().unwrap();
    let h = layer(&s, &d.linear3).forward(&h).unwrap();
    assert_eq!(logits.to_vec2::<f32>().unwrap(), h.to_vec2::<f32>().unwrap());
}

#[test]
fn forward_pass() {
    let model = CollatzHackerModel::new();
    let (x_t, x_next) = (input(0), input(1));
    let (recon_t, recon_next, pred, z_next, z_t) = model.forward(&x_t, &x_next);
    assert_eq!(z_t, model.encoder.forward(&x_t));
    assert_eq!(z_next, model.encoder.forward(&x_next));
    assert_eq!(recon_t, model.decoder.forward(&z_t));
    assert_eq!(recon_next, model.decoder.forward(&z_next));
    assert_eq!(pred, model.rotate(&z_t));
    assert_ne!(recon_t, recon_next);
}

#[test]
fn effective_weights_have_one_row_per_coordinate() {
    let model = CollatzHackerModel::new();
    let s = setting(0.0, vec![]);
    let weights = eval(&model.effective_weights(), &s);
    assert_eq!(weights.dims(), &[2, 64]);
    let e = &model.encoder;
    let w1 = layer(&s, &e.linear1).weight();
    let w2 = layer(&s, &e.linear2).weight();
    let w3 = layer(&s, &e.linear3).weight();
    let expected = w3.matmul(w2).unwrap().matmul(w1).unwrap();
    assert_eq!(weights.to_vec2::<f32>().unwrap(), expected.to_vec2::<f32>().unwrap());
}

#[test]
fn stable_entropy_is_the_cross_entropy() {
    let logits = [[0.0f32, 2.0], [-3.0, 0.25], [5.0, -0.5]];
    let targets = [[1.0f32, 0.0], [1.0, 1.0], [0.0, 0.0]];
    let s = setting(0.0, vec![matrix(&logits), matrix(&targets)]);
    let loss = scalar(&binary_cross_entropy_with_logits(&input(0), &input(1)), &s);
    let mut sum = 0.0;
    for i in 0..3 {
        for j in 0..2 {
            let p = 1.0 / (1.0 + (-logits[i][j]).exp());
            let t = targets[i][j];
            sum -= t * p.ln() + (1.0 - t) * (1.0 - p).ln();
        }
    }
    assert!(close(loss, sum / 6.0));
}

#[test]
fn entropy_of_single_entries() {
    // At the logit 0 both digits cost the logarithm of 2.
    for target in [0.0f32, 1.0] {
        let s = setting(0.0, vec![matrix(&[[0.0, 0.0]]), matrix(&[[target, target]])]);
        let loss = scalar(&binary_cross_entropy_with_logits(&input(0), &input(1)), &s);
        assert!(close(loss, 2.0f32.ln()));
    }
}

#[test]
fn entropy_is_not_negative() {
    let logits = [[-9.0f32, 7.5], [0.0, 3.0], [-0.5, 12.0]];
    let targets = [[0.0f32, 1.0], [0.5, 0.25], [0.0, 1.0]];
    for i in 0..3 {
        let s = setting(0.0, vec![matrix(&[logits[i]]), matrix(&[targets[i]])]);
        let loss = scalar(&binary_cross_entropy_with_logits(&input(0), &input(1)), &s);
        assert!(loss >= 0.0);
    }
}

#[test]
fn entropy_keeps_under_a_flip() {
    let logits = matrix(&[[0.0, 2.0], [-3.0, 0.25], [5.0, -0.5]]);
    let targets = matrix(&[[1.0, 0.0], [1.0, 1.0], [0.0, 0.5]]);
    let flipped_logits = logits.neg().unwrap();
    let flipped_targets = (targets.neg().unwrap() + 1.0).unwrap();
    let s = setting(0.0, vec![logits, targets, flipped_logits, flipped_targets]);
    let loss = scalar(&binary_cross_entropy_with_logits(&input(0), &input(1)), &s);
    let flipped = scalar(&binary_cross_entropy_with_logits(&input(2), &input(3)), &s);
    assert!(close(loss, flipped));
    assert!(loss > 0.1);
}

#[test]
fn entropy_of_huge_logits_stays_finite() {
    let s = setting(0.0, vec![
        matrix(&[[1000.0, -1000.0]]),
        matrix(&[[1.0, 0.0]]),
        matrix(&[[0.0, 1.0]]),
    ]);
    let right = scalar(&binary_cross_entropy_with_logits(&input(0), &input(1)), &s);
    let wrong = scalar(&binary_cross_entropy_with_logits(&input(0), &input(2)), &s);
    assert_eq!(right, 0.0);
    assert_eq!(wrong, 1000.0);
}

#[test]
fn reconstruction_of_digits_is_not_negative() {
    let model = CollatzHackerModel::new();
    let s = setting(0.2, vec![digit_rows(&[27, 12, 0]), digit_rows(&[82, 6, u64::MAX])]);
    let weight = Decimal { digits: 1, places: 0 };
    let (_, recon, _, _) = compute_loss(&model, &input(0), &input(1), 3, weight, weight);
    assert!(scalar(&recon, &s) >= 0.0);
}

#[test]
fn mean_squared_difference() {
    let pred = matrix(&[[1.0, 2.0], [3.0, 4.0]]);
    let target = matrix(&[[1.0, 0.0], [0.0, 5.0]]);
    let s = setting(0.0, vec![pred, target]);
    assert!(close(scalar(&mse_loss(&input(0), &input(1)), &s), (4.0 + 9.0 + 1.0) / 4.0));
    assert_eq!(scalar(&mse_loss(&input(0), &input(0)), &s), 0.0);
}

#[test]
fn repulsion_of_unit_rows() {
    let rows = [[1.0f32, 0.0], [0.6, 0.8], [-0.8, 0.6]];
    let s = setting(0.0, vec![matrix(&rows)]);
    let loss = scalar(&repulsion_loss(&input(0), 3), &s);
    let mut sum = 0.0;
    for i in 0..3 {
        for j in 0..3 {
            if i != j {
                let inner = rows[i][0] * rows[j][0] + rows[i][1] * rows[j][1];
                sum += inner * inner;
            }
        }
    }
    assert!(close(loss, sum / 6.0));
}

#[test]
fn repulsion_of_orthogonal_and_of_parallel_rows() {
    let orthogonal = setting(0.0, vec![matrix(&[[0.6, 0.8], [-0.8, 0.6]])]);
    assert!(close(scalar(&repulsion_loss(&input(0), 2), &orthogonal), 0.0));
    let parallel = setting(0.0, vec![matrix(&[[0.6, 0.8], [0.6, 0.8], [-0.6, -0.8]])]);
    assert!(close(scalar(&repulsion_loss(&input(0), 3), &parallel), 1.0));
}

#[test]
fn repulsion_of_latent_points_stays_in_range() {
    let model = CollatzHackerModel::new();
    let s = setting(0.0, vec![digit_rows(&[27, 12, 8, 1])]);
    let loss = scalar(&repulsion_loss(&model.encoder.forward(&input(0)), 4), &s);
    assert!(loss > -1.0 / 3.0 - 1e-5 && loss < 1.0 + 1e-5);
}

#[test]
fn dynamics_loss_lies_below_two() {
    let model = CollatzHackerModel::new();
    let one = Decimal { digits: 1, places: 0 };
    for phi in [-5.0f32, -0.3, 0.0, 0.9, 5.0] {
        let s = setting(phi, vec![digit_rows(&[27, 12, 8]), digit_rows(&[82, 6, 4])]);
        let (_, _, dynamic, _) = compute_loss(&model, &input(0), &input(1), 3, one, one);
        let loss = scalar(&dynamic, &s);
        assert!(loss >= 0.0 && loss < 2.0);
    }
}

#[test]
fn batches_of_different_sizes_do_not_fit() {
    let model = CollatzHackerModel::new();
    let s = setting(0.0, vec![digit_rows(&[27, 12, 8]), digit_rows(&[82, 6])]);
    let (_, _, pred, z_next, _) = model.forward(&input(0), &input(1));
    let one = Decimal { digits: 1, places: 0 };
    let (_, _, dynamic, _) = compute_loss(&model, &input(0), &input(1), 3, one, one);
    assert_eq!(dynamic, mse_loss(&pred, &z_next));
    assert!(eval(&pred, &s).sub(&eval(&z_next, &s)).is_err());
}

#[test]
fn repulsion_of_rows_of_any_length() {
    let rows = [[0.5f32, 0.0], [0.3, 0.4], [-1.6, 1.2]];
    let s = setting(0.0, vec![matrix(&rows)]);
    let loss = scalar(&repulsion_loss(&input(0), 3), &s);
    let mut off_diagonal = 0.0;
    let mut diagonal = 0.0;
    for i in 0..3 {
        for j in 0..3 {
            let inner = rows[i][0] * rows[j][0] + rows[i][1] * rows[j][1];
            if i == j {
                diagonal += inner * inner;
            } else {
                off_diagonal += inner * inner;
            }
        }
    }
    assert!(close(loss, (off_diagonal + diagonal - 3.0) / 6.0));
}

#[test]
fn repulsion_of_the_origin_is_negative() {
    let s = setting(0.0, vec![matrix(&[[0.0, 0.0], [0.0, 0.0]])]);
    assert_eq!(scalar(&repulsion_loss(&input(0), 2), &s), -1.0);
}

#[test]
fn no_repulsion_without_pairs() {
    let zero = Expr::Const(Decimal { digits: 0, places: 0 });
    assert_eq!(*repulsion_loss(&input(0), 0), zero);
    assert_eq!(*repulsion_loss(&input(0), 1), zero);
}

#[test]
fn total_loss_is_the_weighted_sum() {
    let model = CollatzHackerModel::new();
    let (x_t, x_next) = (input(0), input(1));
    let alpha = Decimal { digits: 25, places: 2 };
    let beta = Decimal { digits: 2, places: 0 };
    let s = setting(0.7, vec![digit_rows(&[27, 12, 8]), digit_rows(&[82, 6, 4])]);
    let (total, recon, dynamic, rep) = compute_loss(&model, &x_t, &x_next, 3, alpha, beta);
    for part in [&total, &recon, &dynamic, &rep] {
        assert_eq!(eval(part, &s).dims().len(), 0);
    }
    let (recon_t, recon_next, pred, z_next, z_t) = model.forward(&x_t, &x_next);
    let entropy_t = scalar(&binary_cross_entropy_with_logits(&recon_t, &x_t), &s);
    let entropy_next = scalar(&binary_cross_entropy_with_logits(&recon_next, &x_next), &s);
    assert!(close(scalar(&recon, &s), (entropy_t + entropy_next) / 2.0));
    assert_eq!(dynamic, mse_loss(&pred, &z_next));
    assert_eq!(rep, repulsion_loss(&z_t, 3));
    let expected =
        scalar(&recon, &s) + 0.25 * scalar(&dynamic, &s) + 2.0 * scalar(&rep, &s);
    assert!(close(scalar(&total, &s), expected));
}

#[test]
fn formula_of_the_angle() {
    let lowest = Rc::new(Expr::Radians(Angle { tenths: 150 }));
    let highest = Rc::new(Expr::Radians(Angle { tenths: 3450 }));
    let phi = Rc::new(Expr::ToScalar(Rc::new(Expr::Phi)));
    let negated = Rc::new(Expr::Scale(phi, Decimal { digits: -1, places: 0 }));
    let grown = Rc::new(Expr::Apply(Unary::Exp, negated));
    let shifted = Rc::new(Expr::Shift(grown, Decimal { digits: 1, places: 0 }));
    let sigmoid = Rc::new(Expr::Apply(Unary::Recip, shifted));
    let range = Rc::new(Expr::Combine(Binary::Sub, highest, lowest.clone()));
    let stretched = Rc::new(Expr::Broadcast(Binary::Mul, sigmoid, range));
    let expected = Expr::Broadcast(Binary::Add, lowest, stretched);
    assert_eq!(*CollatzHackerModel::new().get_theta(), expected);
}

#[test]
fn effective_weights_compose_the_layers() {
    let model = CollatzHackerModel::new();
    let s = setting(0.0, vec![digit_rows(&[27, 1000])]);
    let e = &model.encoder;
    let mut y = s.inputs[0].transpose(0, 1).unwrap();
    for l in [e.linear1, e.linear2, e.linear3] {
        y = layer(&s, &l).weight().matmul(&y).unwrap();
    }
    let effective = eval(&model.effective_weights(), &s);
    let direct = effective.matmul(&s.inputs[0].transpose(0, 1).unwrap()).unwrap();
    let (y, direct) = (y.to_vec2::<f32>().unwrap(), direct.to_vec2::<f32>().unwrap());
    for i in 0..2 {
        for j in 0..2 {
            assert!(close(y[i][j], direct[i][j]));
        }
    }
}
