//! How large and how small the parts of the loss can be, and what a turn does to them.

use crate::expr::Expr;
use crate::loss::{dynamic_formula, mse_formula, repulsion_formula};
use crate::model_laws::{
    diagonal_total, inner_product, lemma_latent_inside, lemma_latent_rows,
    lemma_mse_is_mean_square, lemma_predicted_inside, lemma_repulsion_is_mean,
    lemma_repulsion_of_latent_points, lemma_rotated_entries, lemma_theta_is_scalar, off_diagonal,
    off_diagonal_total, row_square,
};
use crate::network::{
    encoder_formula, encoder_layers, rotated_rows, theta_formula, CollatzHackerModel,
};
use crate::reals::{
    lemma_associate, lemma_cancel, lemma_commute, lemma_distribute, lemma_divide, lemma_negate,
    lemma_nonnegative_product, lemma_positive_product, lemma_quotient_order, lemma_quotient_sign,
    lemma_square_of_sum, lemma_square_order, lemma_square_sign, lemma_turn_keeps_inner,
};
use crate::semantics::{entry, number, total, value, World};
use crate::totals::{
    lemma_double_total_vanishes, lemma_total_added, lemma_total_apart, lemma_total_below,
    lemma_total_congruent, lemma_total_nonnegative, lemma_total_of_ones, lemma_total_of_zeros,
    lemma_total_scaled, lemma_total_vanishes,
};
use vstd::prelude::*;

verus! {

/// The turn of a batch keeps the inner product of every pair of rows.
pub proof fn lemma_rotation_keeps_inner_products(z: Expr, theta: Expr, w: World, i: int, j: int)
    requires
        value(z, w).cols == 2,
        0 <= i < value(z, w).rows,
        0 <= j < value(z, w).rows,
        value(theta, w).rows == 1,
        value(theta, w).cols == 1,
        w.functions.circle_laws(),
    ensures
        inner_product(rotated_rows(z, theta), w, i, j) == inner_product(z, w, i, j),
{
    lemma_rotated_entries(z, theta, w, i);
    lemma_rotated_entries(z, theta, w, j);
    reveal_with_fuel(total, 3);
    lemma_turn_keeps_inner(
        entry(z, w, i, 0),
        entry(z, w, i, 1),
        entry(z, w, j, 0),
        entry(z, w, j, 1),
        (w.functions.cos)(number(theta, w)),
        (w.functions.sin)(number(theta, w)),
    );
}

/// The squares of the sums and of the differences of two rows, added up.
proof fn lemma_sums_and_differences(z: Expr, w: World, i: int, j: int)
    ensures
        ({
            let cols = value(z, w).cols;
            let inner = inner_product(z, w, i, j);
            let squares = row_square(z, w, i) + row_square(z, w, j);
            let plus = |k: int|
                (entry(z, w, i, k) + entry(z, w, j, k)) * (entry(z, w, i, k) + entry(z, w, j, k));
            let minus = |k: int|
                (entry(z, w, i, k) - entry(z, w, j, k)) * (entry(z, w, i, k) - entry(z, w, j, k));
            &&& total(cols, plus) == squares + 2real * inner
            &&& total(cols, minus) == squares - 2real * inner
            &&& forall|k: int| #[trigger] plus(k) >= 0real
            &&& forall|k: int| #[trigger] minus(k) >= 0real
        }),
{
    let cols = value(z, w).cols;
    let plus = |k: int|
        (entry(z, w, i, k) + entry(z, w, j, k)) * (entry(z, w, i, k) + entry(z, w, j, k));
    let minus = |k: int|
        (entry(z, w, i, k) - entry(z, w, j, k)) * (entry(z, w, i, k) - entry(z, w, j, k));
    let first = |k: int| entry(z, w, i, k) * entry(z, w, i, k);
    let second = |k: int| entry(z, w, j, k) * entry(z, w, j, k);
    let both = |k: int| first(k) + second(k);
    let mixed = |k: int| entry(z, w, i, k) * entry(z, w, j, k);
    let twice = |k: int| mixed(k) * 2real;
    assert forall|k: int| #[trigger] plus(k) >= 0real && plus(k) == both(k) + twice(k) by {
        lemma_square_sign(entry(z, w, i, k) + entry(z, w, j, k));
        lemma_square_of_sum(entry(z, w, i, k), entry(z, w, j, k));
    }
    assert forall|k: int| #[trigger] minus(k) >= 0real && both(k) == minus(k) + twice(k) by {
        lemma_square_sign(entry(z, w, i, k) - entry(z, w, j, k));
        lemma_square_of_sum(entry(z, w, i, k), entry(z, w, j, k));
    }
    assert forall|k: int| 0 <= k < cols implies #[trigger] both(k) == minus(k) + twice(k) by {
        assert(minus(k) >= 0real);
    }
    lemma_total_added(cols, first, second, both);
    lemma_total_scaled(cols, mixed, 2real, twice);
    lemma_total_added(cols, both, twice, plus);
    lemma_total_added(cols, minus, twice, both);
}

/// Rows that are no longer than 1 have inner products between -1 and 1.
pub proof fn lemma_inner_product_bounded(z: Expr, w: World, i: int, j: int)
    requires
        row_square(z, w, i) <= 1real,
        row_square(z, w, j) <= 1real,
    ensures
        -1real <= inner_product(z, w, i, j) <= 1real,
        0real <= inner_product(z, w, i, j) * inner_product(z, w, i, j) <= 1real,
{
    let cols = value(z, w).cols;
    let inner = inner_product(z, w, i, j);
    let plus = |k: int|
        (entry(z, w, i, k) + entry(z, w, j, k)) * (entry(z, w, i, k) + entry(z, w, j, k));
    let minus = |k: int|
        (entry(z, w, i, k) - entry(z, w, j, k)) * (entry(z, w, i, k) - entry(z, w, j, k));
    lemma_sums_and_differences(z, w, i, j);
    lemma_total_nonnegative(cols, plus);
    lemma_total_nonnegative(cols, minus);
    lemma_square_sign(inner);
    lemma_nonnegative_product(1real - inner, 1real + inner);
    lemma_distribute(1real + inner, 1real, inner);
    lemma_distribute(inner, 1real, inner);
    assert(1real * (1real + inner) == 1real + inner);
    assert(inner * 1real == inner);
}

/// Two rows of unit length have the inner product 1 just where they are equal, and -1 just where
/// they are opposite.
pub proof fn lemma_inner_product_extremes(z: Expr, w: World, i: int, j: int)
    requires
        row_square(z, w, i) == 1real,
        row_square(z, w, j) == 1real,
    ensures
        inner_product(z, w, i, j) == 1real <==> forall|k: int|
            0 <= k < value(z, w).cols ==> #[trigger] entry(z, w, i, k) == entry(z, w, j, k),
        inner_product(z, w, i, j) == -1real <==> forall|k: int|
            0 <= k < value(z, w).cols ==> #[trigger] entry(z, w, i, k) == -entry(z, w, j, k),
{
    let cols = value(z, w).cols;
    let inner = inner_product(z, w, i, j);
    let plus = |k: int|
        (entry(z, w, i, k) + entry(z, w, j, k)) * (entry(z, w, i, k) + entry(z, w, j, k));
    let minus = |k: int|
        (entry(z, w, i, k) - entry(z, w, j, k)) * (entry(z, w, i, k) - entry(z, w, j, k));
    lemma_sums_and_differences(z, w, i, j);
    assert(0real * 0real == 0real);
    if inner == 1real {
        lemma_total_vanishes(cols, minus);
        assert forall|k: int| 0 <= k < cols implies #[trigger] entry(z, w, i, k) == entry(
            z,
            w,
            j,
            k,
        ) by {
            assert(minus(k) == 0real);
            lemma_square_sign(entry(z, w, i, k) - entry(z, w, j, k));
        }
    }
    if inner == -1real {
        lemma_total_vanishes(cols, plus);
        assert forall|k: int| 0 <= k < cols implies #[trigger] entry(z, w, i, k) == -entry(
            z,
            w,
            j,
            k,
        ) by {
            assert(plus(k) == 0real);
            lemma_square_sign(entry(z, w, i, k) + entry(z, w, j, k));
        }
    }
    if forall|k: int| 0 <= k < cols ==> #[trigger] entry(z, w, i, k) == entry(z, w, j, k) {
        assert forall|k: int| 0 <= k < cols implies #[trigger] minus(k) == 0real by {
            assert(entry(z, w, i, k) == entry(z, w, j, k));
        }
        lemma_total_of_zeros(cols, minus);
    }
    if forall|k: int| 0 <= k < cols ==> #[trigger] entry(z, w, i, k) == -entry(z, w, j, k) {
        assert forall|k: int| 0 <= k < cols implies #[trigger] plus(k) == 0real by {
            assert(entry(z, w, i, k) == -entry(z, w, j, k));
        }
        lemma_total_of_zeros(cols, plus);
    }
}

/// A product of counts as a real number.
proof fn lemma_count_product(a: nat, b: nat)
    ensures
        (a * b) as real == (a as real) * (b as real),
    decreases a,
{
    if a > 0 {
        let c = (a - 1) as nat;
        lemma_count_product(c, b);
        assert(a * b == c * b + b) by (nonlinear_arith)
            requires
                a == c + 1,
        ;
        lemma_distribute(b as real, c as real, 1real);
        assert(1real * (b as real) == b as real);
        assert(a as real == c as real + 1real);
    } else {
        assert(a * b == 0) by (nonlinear_arith)
            requires
                a == 0,
        ;
        assert(0real * (b as real) == 0real);
    }
}

/// What the squared inner product of two different rows lacks to 1.
spec fn slack(z: Expr, w: World, i: int, j: int) -> real {
    if i == j {
        0real
    } else {
        1real - inner_product(z, w, i, j) * inner_product(z, w, i, j)
    }
}

/// The squared inner products and what they lack to 1 add up to the number of ordered pairs.
proof fn lemma_slack_total(z: Expr, w: World, b: nat)
    requires
        b > 0,
    ensures
        off_diagonal_total(z, w, b) + total(b, |i: int| total(b, |j: int| slack(z, w, i, j))) == (b
            * (b - 1)) as real,
{
    let apart = |i: int| total(b, |j: int| off_diagonal(z, w, i, j));
    let lacking = |i: int| total(b, |j: int| slack(z, w, i, j));
    let ones = |i: int| 1real;
    let others = |i: int| 1real * ((b - 1) as real);
    assert forall|i: int| 0 <= i < b implies #[trigger] others(i) == apart(i) + lacking(i) by {
        let squares = |j: int| off_diagonal(z, w, i, j);
        let gaps = |j: int| slack(z, w, i, j);
        let rest = |j: int|
            if i == j {
                0real
            } else {
                1real
            };
        assert forall|j: int| 0 <= j < b implies #[trigger] rest(j) == squares(j) + gaps(j) by {}
        lemma_total_added(b, squares, gaps, rest);
        lemma_total_apart(b, ones, i, rest);
        lemma_total_of_ones(b, ones);
        assert(1real * ((b - 1) as real) == (b - 1) as real);
    }
    lemma_total_added(b, apart, lacking, others);
    lemma_total_scaled(b, ones, (b - 1) as real, others);
    lemma_total_of_ones(b, ones);
    lemma_count_product(b, (b - 1) as nat);
}

/// For rows that are no longer than 1 the squared inner products add up to no more than the number
/// of ordered pairs, and reach it just where every pair has the inner product 1 or -1; they vanish
/// just where all pairs are orthogonal.
proof fn lemma_off_diagonal_range(z: Expr, w: World, b: nat)
    requires
        b > 0,
        forall|i: int| 0 <= i < b ==> #[trigger] row_square(z, w, i) <= 1real,
    ensures
        0real <= off_diagonal_total(z, w, b) <= (b * (b - 1)) as real,
        off_diagonal_total(z, w, b) == 0real <==> forall|i: int, j: int|
            0 <= i < b && 0 <= j < b && i != j ==> #[trigger] inner_product(z, w, i, j) == 0real,
        off_diagonal_total(z, w, b) == (b * (b - 1)) as real <==> forall|i: int, j: int|
            0 <= i < b && 0 <= j < b && i != j ==> #[trigger] inner_product(z, w, i, j) == 1real
                || inner_product(z, w, i, j) == -1real,
{
    let square = |i: int, j: int| off_diagonal(z, w, i, j);
    let gap = |i: int, j: int| slack(z, w, i, j);
    let squares = total(b, |i: int| total(b, |j: int| square(i, j)));
    let gaps = total(b, |i: int| total(b, |j: int| gap(i, j)));
    assert forall|i: int, j: int| 0 <= i < b && 0 <= j < b implies #[trigger] square(i, j) >= 0real
        && gap(i, j) >= 0real by {
        lemma_inner_product_bounded(z, w, i, j);
    }
    assert forall|i: int, j: int| 0 <= i < b && 0 <= j < b implies #[trigger] gap(i, j)
        >= 0real by {
        assert(square(i, j) >= 0real);
    }
    lemma_double_total_vanishes(b, b, square);
    lemma_double_total_vanishes(b, b, gap);
    lemma_slack_total(z, w, b);
    assert(squares == off_diagonal_total(z, w, b)) by {
        let made = |i: int| total(b, |j: int| square(i, j));
        let meant = |i: int| total(b, |j: int| off_diagonal(z, w, i, j));
        assert forall|i: int| 0 <= i < b implies #[trigger] made(i) == meant(i) by {
            lemma_total_congruent(b, |j: int| square(i, j), |j: int| off_diagonal(z, w, i, j));
        }
        lemma_total_congruent(b, made, meant);
    }
    assert(gaps == total(b, |i: int| total(b, |j: int| slack(z, w, i, j)))) by {
        let made = |i: int| total(b, |j: int| gap(i, j));
        let meant = |i: int| total(b, |j: int| slack(z, w, i, j));
        assert forall|i: int| 0 <= i < b implies #[trigger] made(i) == meant(i) by {
            lemma_total_congruent(b, |j: int| gap(i, j), |j: int| slack(z, w, i, j));
        }
        lemma_total_congruent(b, made, meant);
    }
    assert(0real * 0real == 0real && 1real * 1real == 1real && (-1real) * (-1real) == 1real);
    if squares == 0real {
        assert forall|i: int, j: int| 0 <= i < b && 0 <= j < b && i != j implies #[trigger]
            inner_product(z, w, i, j) == 0real by {
            assert(square(i, j) == 0real);
            lemma_square_sign(inner_product(z, w, i, j));
        }
    }
    if forall|i: int, j: int|
        0 <= i < b && 0 <= j < b && i != j ==> #[trigger] inner_product(z, w, i, j) == 0real {
        assert forall|i: int, j: int| 0 <= i < b && 0 <= j < b implies #[trigger] square(i, j)
            == 0real by {
            if i != j {
                assert(inner_product(z, w, i, j) == 0real);
            }
        }
    }
    if gaps == 0real {
        assert forall|i: int, j: int| 0 <= i < b && 0 <= j < b && i != j implies #[trigger]
            inner_product(z, w, i, j) == 1real || inner_product(z, w, i, j) == -1real by {
            assert(gap(i, j) == 0real);
            lemma_unit_square(inner_product(z, w, i, j));
        }
    }
    if forall|i: int, j: int|
        0 <= i < b && 0 <= j < b && i != j ==> #[trigger] inner_product(z, w, i, j) == 1real
            || inner_product(z, w, i, j) == -1real {
        assert forall|i: int, j: int| 0 <= i < b && 0 <= j < b implies #[trigger] gap(i, j)
            == 0real by {
            if i != j {
                assert(inner_product(z, w, i, j) == 1real || inner_product(z, w, i, j) == -1real);
            }
        }
    }
}

/// A number whose square is 1.
proof fn lemma_unit_square(a: real)
    requires
        a * a == 1real,
    ensures
        a == 1real || a == -1real,
{
    assert(1real * 1real == 1real && 0real * 0real == 0real);
    if a > 0real {
        lemma_square_order(a, 1real);
        lemma_square_order(1real, a);
    } else if a < 0real {
        lemma_negate(a, -a);
        lemma_negate(a, a);
        lemma_square_order(-a, 1real);
        lemma_square_order(1real, -a);
    }
}

/// The repulsion loss of rows of unit length lies between 0 and 1. It is 0 just where all pairs of
/// rows are orthogonal, and 1 just where every two rows are equal or opposite.
pub proof fn lemma_repulsion_range(z: Expr, w: World, batch_size: nat)
    requires
        value(z, w).rows == batch_size,
        2 <= batch_size,
        batch_size * (batch_size - 1) <= usize::MAX,
        forall|i: int| 0 <= i < batch_size ==> #[trigger] row_square(z, w, i) == 1real,
    ensures
        0real <= number(repulsion_formula(z, batch_size), w) <= 1real,
        number(repulsion_formula(z, batch_size), w) == 0real <==> forall|i: int, j: int|
            0 <= i < batch_size && 0 <= j < batch_size && i != j ==> #[trigger] inner_product(
                z,
                w,
                i,
                j,
            ) == 0real,
        number(repulsion_formula(z, batch_size), w) == 1real <==> forall|i: int, j: int|
            0 <= i < batch_size && 0 <= j < batch_size && i != j ==> #[trigger] inner_product(
                z,
                w,
                i,
                j,
            ) == 1real || inner_product(z, w, i, j) == -1real,
{
    let sum = off_diagonal_total(z, w, batch_size);
    let pairs = (batch_size * (batch_size - 1)) as real;
    let loss = number(repulsion_formula(z, batch_size), w);
    lemma_repulsion_is_mean(z, w, batch_size);
    assert forall|i: int| 0 <= i < batch_size implies #[trigger] row_square(z, w, i) <= 1real by {}
    lemma_off_diagonal_range(z, w, batch_size);
    assert(batch_size * (batch_size - 1) > 0) by (nonlinear_arith)
        requires
            2 <= batch_size,
    ;
    assert(pairs > 0real);
    lemma_quotient_sign(sum, pairs);
    lemma_quotient_order(sum, pairs, pairs);
    lemma_divide(sum, pairs);
    lemma_divide(pairs, pairs);
    assert(1real * pairs == pairs);
    lemma_cancel(pairs / pairs, 1real, pairs);
}

/// The repulsion loss of the model's own latent points is at most 1, and at least what a batch of
/// points at the centre would have: one over one less than the batch size, below zero.
pub proof fn lemma_latent_repulsion_range(x: Expr, w: World, batch_size: nat)
    requires
        value(x, w).rows == batch_size,
        2 <= batch_size,
        batch_size * (batch_size - 1) <= usize::MAX,
        w.functions.sqrt_laws(),
    ensures
        ({
            let z = encoder_formula(encoder_layers(), x);
            let loss = number(repulsion_formula(z, batch_size), w);
            -1real <= loss * ((batch_size - 1) as real) && loss <= 1real
        }),
{
    let z = encoder_formula(encoder_layers(), x);
    let loss = number(repulsion_formula(z, batch_size), w);
    let sum = off_diagonal_total(z, w, batch_size);
    let diagonal = diagonal_total(z, w, batch_size);
    let (b, c) = (batch_size as real, (batch_size - 1) as real);
    let pairs = (batch_size * (batch_size - 1)) as real;
    lemma_repulsion_of_latent_points(x, w, batch_size);
    assert forall|i: int| 0 <= i < batch_size implies #[trigger] row_square(z, w, i) <= 1real by {
        lemma_latent_inside(x, w, i);
    }
    lemma_off_diagonal_range(z, w, batch_size);
    assert(batch_size * (batch_size - 1) > 0) by (nonlinear_arith)
        requires
            2 <= batch_size,
    ;
    assert(pairs > 0real);
    lemma_divide(sum, pairs);
    lemma_divide(sum + diagonal - b, pairs);
    assert(1real * pairs == pairs);
    if loss > 1real {
        lemma_positive_product(loss - 1real, pairs);
        lemma_distribute(pairs, loss, 1real);
    }
    lemma_count_product(batch_size, (batch_size - 1) as nat);
    lemma_commute(b, c);
    lemma_associate(loss, c, b);
    assert((loss * c) * b >= -b);
    if loss * c < -1real {
        lemma_positive_product(-1real - loss * c, b);
        lemma_distribute(b, -1real, loss * c);
        assert((-1real) * b == -b);
    }
}

/// The mean squared difference is zero just where all entries agree.
pub proof fn lemma_mse_vanishes(pred: Expr, target: Expr, w: World)
    requires
        value(pred, w).rows > 0,
        value(pred, w).cols > 0,
    ensures
        number(mse_formula(pred, target), w) == 0real <==> forall|i: int, j: int|
            0 <= i < value(pred, w).rows && 0 <= j < value(pred, w).cols ==> #[trigger] entry(
                pred,
                w,
                i,
                j,
            ) == entry(target, w, i, j),
{
    let rows = value(pred, w).rows;
    let cols = value(pred, w).cols;
    let square = |i: int, j: int|
        (entry(pred, w, i, j) - entry(target, w, i, j)) * (entry(pred, w, i, j) - entry(
            target,
            w,
            i,
            j,
        ));
    let made = |i: int| total(cols, |j: int| square(i, j));
    let meant = |i: int|
        total(
            cols,
            |j: int|
                (entry(pred, w, i, j) - entry(target, w, i, j)) * (entry(pred, w, i, j) - entry(
                    target,
                    w,
                    i,
                    j,
                )),
        );
    lemma_mse_is_mean_square(pred, target, w);
    assert forall|i: int| 0 <= i < rows implies #[trigger] made(i) == meant(i) by {
        lemma_total_congruent(
            cols,
            |j: int| square(i, j),
            |j: int|
                (entry(pred, w, i, j) - entry(target, w, i, j)) * (entry(pred, w, i, j) - entry(
                    target,
                    w,
                    i,
                    j,
                )),
        );
    }
    lemma_total_congruent(rows, made, meant);
    assert forall|i: int, j: int| 0 <= i < rows && 0 <= j < cols implies #[trigger] square(i, j)
        >= 0real by {
        lemma_square_sign(entry(pred, w, i, j) - entry(target, w, i, j));
    }
    lemma_double_total_vanishes(rows, cols, square);
    assert(rows * cols > 0) by (nonlinear_arith)
        requires
            rows > 0,
            cols > 0,
    ;
    lemma_quotient_sign(total(rows, meant), (rows * cols) as real);
    assert(0real * 0real == 0real);
    if total(rows, made) == 0real {
        assert forall|i: int, j: int| 0 <= i < rows && 0 <= j < cols implies #[trigger] entry(
            pred,
            w,
            i,
            j,
        ) == entry(target, w, i, j) by {
            assert(square(i, j) == 0real);
            lemma_square_sign(entry(pred, w, i, j) - entry(target, w, i, j));
        }
    }
    if forall|i: int, j: int|
        0 <= i < rows && 0 <= j < cols ==> #[trigger] entry(pred, w, i, j) == entry(
            target,
            w,
            i,
            j,
        ) {
        assert forall|i: int, j: int| 0 <= i < rows && 0 <= j < cols implies #[trigger] square(i, j)
            == 0real by {
            assert(entry(pred, w, i, j) == entry(target, w, i, j));
        }
    }
}

/// The dynamics loss is not negative and lies below 2: prediction and target both lie inside the
/// unit circle, so that they are less than 2 apart.
pub proof fn lemma_dynamics_bounded(model: CollatzHackerModel, x_t: Expr, x_next: Expr, w: World)
    requires
        model.encoder == encoder_layers(),
        value(x_t, w).rows > 0,
        value(x_next, w).rows == value(x_t, w).rows,
        w.functions.sqrt_laws(),
        w.functions.circle_laws(),
    ensures
        0real <= number(dynamic_formula(model, x_t, x_next), w) < 2real,
{
    let z_t = encoder_formula(model.encoder, x_t);
    let z_next = encoder_formula(model.encoder, x_next);
    let pred = rotated_rows(z_t, theta_formula());
    let rows = value(x_t, w).rows;
    lemma_latent_rows(x_t, w);
    lemma_latent_rows(x_next, w);
    lemma_theta_is_scalar(w);
    lemma_rotated_entries(z_t, theta_formula(), w, 0);
    lemma_mse_is_mean_square(pred, z_next, w);
    let by_row = |i: int|
        total(
            2,
            |j: int|
                (entry(pred, w, i, j) - entry(z_next, w, i, j)) * (entry(pred, w, i, j) - entry(
                    z_next,
                    w,
                    i,
                    j,
                )),
        );
    assert forall|i: int| 0 <= i < rows implies #[trigger] by_row(i) < 4real by {
        let (a, b) = (entry(pred, w, i, 0), entry(pred, w, i, 1));
        let (c, d) = (entry(z_next, w, i, 0), entry(z_next, w, i, 1));
        reveal_with_fuel(total, 3);
        lemma_predicted_inside(x_t, w, i);
        lemma_latent_inside(x_next, w, i);
        assert(row_square(pred, w, i) == a * a + b * b);
        assert(row_square(z_next, w, i) == c * c + d * d);
        lemma_square_of_sum(a, c);
        lemma_square_of_sum(b, d);
        lemma_square_sign(a + c);
        lemma_square_sign(b + d);
        assert(by_row(i) == (a - c) * (a - c) + (b - d) * (b - d));
    }
    lemma_total_below(rows, by_row, 4real);
    let sum = total(rows, by_row);
    let loss = number(dynamic_formula(model, x_t, x_next), w);
    let count = (rows * 2) as real;
    assert(loss == sum / count);
    assert(count > 0real);
    lemma_divide(sum, count);
    assert(sum < 2real * count);
    if loss >= 2real {
        lemma_nonnegative_product(loss - 2real, count);
        lemma_distribute(count, loss, 2real);
    }
}

} // verus!
