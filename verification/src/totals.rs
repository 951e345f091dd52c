//! Facts about finite sums of real numbers.

use crate::reals::{lemma_associate, lemma_commute, lemma_distribute};
use crate::semantics::total;
use vstd::prelude::*;

verus! {

/// Equal terms have equal sums.
pub proof fn lemma_total_congruent(n: nat, f: spec_fn(int) -> real, g: spec_fn(int) -> real)
    requires
        forall|k: int| 0 <= k < n ==> #[trigger] f(k) == g(k),
    ensures
        total(n, f) == total(n, g),
    decreases n,
{
    if n > 0 {
        lemma_total_congruent((n - 1) as nat, f, g);
    }
}

/// The sum of sums.
pub proof fn lemma_total_added(
    n: nat,
    f: spec_fn(int) -> real,
    g: spec_fn(int) -> real,
    h: spec_fn(int) -> real,
)
    requires
        forall|k: int| 0 <= k < n ==> #[trigger] h(k) == f(k) + g(k),
    ensures
        total(n, h) == total(n, f) + total(n, g),
    decreases n,
{
    if n > 0 {
        lemma_total_added((n - 1) as nat, f, g, h);
    }
}

/// A common factor can be taken out of a sum.
pub proof fn lemma_total_scaled(
    n: nat,
    f: spec_fn(int) -> real,
    c: real,
    g: spec_fn(int) -> real,
)
    requires
        forall|k: int| 0 <= k < n ==> #[trigger] g(k) == f(k) * c,
    ensures
        total(n, g) == total(n, f) * c,
    decreases n,
{
    if n > 0 {
        lemma_total_scaled((n - 1) as nat, f, c, g);
        lemma_distribute(c, total((n - 1) as nat, f), f(n - 1));
    } else {
        assert(0real * c == 0real) by (nonlinear_arith);
    }
}

/// A sum of non-negative terms is not negative.
pub proof fn lemma_total_nonnegative(n: nat, f: spec_fn(int) -> real)
    requires
        forall|k: int| 0 <= k < n ==> #[trigger] f(k) >= 0real,
    ensures
        total(n, f) >= 0real,
    decreases n,
{
    if n > 0 {
        lemma_total_nonnegative((n - 1) as nat, f);
    }
}

/// A sum of non-negative terms is zero only where all of them are.
pub proof fn lemma_total_vanishes(n: nat, f: spec_fn(int) -> real)
    requires
        forall|k: int| 0 <= k < n ==> #[trigger] f(k) >= 0real,
        total(n, f) == 0real,
    ensures
        forall|k: int| 0 <= k < n ==> #[trigger] f(k) == 0real,
    decreases n,
{
    if n > 0 {
        lemma_total_nonnegative((n - 1) as nat, f);
        lemma_total_vanishes((n - 1) as nat, f);
    }
}

/// A double sum of non-negative terms is not negative, and zero just where all of them are.
pub proof fn lemma_double_total_vanishes(m: nat, n: nat, f: spec_fn(int, int) -> real)
    requires
        forall|i: int, j: int| 0 <= i < m && 0 <= j < n ==> #[trigger] f(i, j) >= 0real,
    ensures
        total(m, |i: int| total(n, |j: int| f(i, j))) >= 0real,
        total(m, |i: int| total(n, |j: int| f(i, j))) == 0real <==> forall|i: int, j: int|
            0 <= i < m && 0 <= j < n ==> #[trigger] f(i, j) == 0real,
{
    let by_row = |i: int| total(n, |j: int| f(i, j));
    assert forall|i: int| 0 <= i < m implies #[trigger] by_row(i) >= 0real by {
        let row = |j: int| f(i, j);
        assert forall|j: int| 0 <= j < n implies #[trigger] row(j) >= 0real by {}
        lemma_total_nonnegative(n, row);
    }
    lemma_total_nonnegative(m, by_row);
    if total(m, by_row) == 0real {
        lemma_total_vanishes(m, by_row);
        assert forall|i: int, j: int| 0 <= i < m && 0 <= j < n implies #[trigger] f(i, j)
            == 0real by {
            let row = |j: int| f(i, j);
            assert forall|j: int| 0 <= j < n implies #[trigger] row(j) >= 0real by {}
            assert(by_row(i) == total(n, row));
            lemma_total_vanishes(n, row);
            assert(row(j) == 0real);
        }
    }
    if forall|i: int, j: int| 0 <= i < m && 0 <= j < n ==> #[trigger] f(i, j) == 0real {
        assert forall|i: int| 0 <= i < m implies #[trigger] by_row(i) == 0real by {
            let row = |j: int| f(i, j);
            assert forall|j: int| 0 <= j < n implies #[trigger] row(j) == 0real by {}
            lemma_total_of_zeros(n, row);
        }
        lemma_total_of_zeros(m, by_row);
    }
}

/// A sum of terms below a bound lies below as many times the bound.
pub proof fn lemma_total_below(n: nat, f: spec_fn(int) -> real, c: real)
    requires
        n > 0,
        forall|k: int| 0 <= k < n ==> #[trigger] f(k) < c,
    ensures
        total(n, f) < (n as real) * c,
    decreases n,
{
    let m = (n - 1) as nat;
    lemma_distribute(c, m as real, 1real);
    assert(1real * c == c);
    assert(n as real == m as real + 1real);
    if m > 0 {
        lemma_total_below(m, f, c);
    } else {
        assert(total(m, f) == 0real);
        assert(0real * c == 0real) by (nonlinear_arith);
    }
}

/// A sum of ones counts its terms.
pub proof fn lemma_total_of_ones(n: nat, f: spec_fn(int) -> real)
    requires
        forall|k: int| 0 <= k < n ==> #[trigger] f(k) == 1real,
    ensures
        total(n, f) == n as real,
    decreases n,
{
    if n > 0 {
        lemma_total_of_ones((n - 1) as nat, f);
    }
}

/// One term set apart from a sum.
pub proof fn lemma_total_apart(
    n: nat,
    f: spec_fn(int) -> real,
    i: int,
    rest: spec_fn(int) -> real,
)
    requires
        0 <= i < n,
        forall|k: int| 0 <= k < n && k != i ==> #[trigger] rest(k) == f(k),
        rest(i) == 0real,
    ensures
        total(n, f) == total(n, rest) + f(i),
    decreases n,
{
    if i == n - 1 {
        lemma_total_congruent((n - 1) as nat, rest, f);
    } else {
        lemma_total_apart((n - 1) as nat, f, i, rest);
    }
}

/// A double sum can be taken in either order.
pub proof fn lemma_total_exchanged(m: nat, n: nat, f: spec_fn(int, int) -> real)
    ensures
        total(m, |i: int| total(n, |j: int| f(i, j))) == total(
            n,
            |j: int| total(m, |i: int| f(i, j)),
        ),
    decreases m,
{
    let by_column = |j: int| total(m, |i: int| f(i, j));
    if m == 0 {
        let zeros = |j: int| 0real;
        lemma_total_congruent(n, by_column, zeros);
        lemma_total_of_zeros(n, zeros);
    } else {
        let k = (m - 1) as nat;
        lemma_total_exchanged(k, n, f);
        let shorter = |j: int| total(k, |i: int| f(i, j));
        let last_row = |j: int| f(k as int, j);
        assert forall|j: int| 0 <= j < n implies #[trigger] by_column(j) == shorter(j) + last_row(
            j,
        ) by {
            let column = |i: int| f(i, j);
            assert(by_column(j) == total(m, column));
            assert(shorter(j) == total(k, column));
        }
        lemma_total_added(n, shorter, last_row, by_column);
        let by_row = |i: int| total(n, |j: int| f(i, j));
        assert(total(m, by_row) == total(k, by_row) + by_row(k as int));
        assert(by_row(k as int) == total(n, last_row));
    }
}

/// A sum of zeros is zero.
pub proof fn lemma_total_of_zeros(n: nat, f: spec_fn(int) -> real)
    requires
        forall|k: int| 0 <= k < n ==> #[trigger] f(k) == 0real,
    ensures
        total(n, f) == 0real,
    decreases n,
{
    if n > 0 {
        lemma_total_of_zeros((n - 1) as nat, f);
    }
}

/// A product of two matrices applied to a vector is the first matrix applied to the second one
/// applied to the vector.
pub proof fn lemma_product_applied(
    m: nat,
    n: nat,
    a: spec_fn(int) -> real,
    b: spec_fn(int, int) -> real,
    x: spec_fn(int) -> real,
)
    ensures
        total(n, |k: int| total(m, |j: int| a(j) * b(j, k)) * x(k)) == total(
            m,
            |j: int| a(j) * total(n, |k: int| b(j, k) * x(k)),
        ),
{
    let term = |j: int, k: int| a(j) * b(j, k) * x(k);
    let left = |k: int| total(m, |j: int| a(j) * b(j, k)) * x(k);
    let left_expanded = |k: int| total(m, |j: int| term(j, k));
    assert forall|k: int| 0 <= k < n implies #[trigger] left(k) == left_expanded(k) by {
        let plain = |j: int| a(j) * b(j, k);
        let scaled = |j: int| term(j, k);
        assert forall|j: int| 0 <= j < m implies #[trigger] scaled(j) == plain(j) * x(k) by {}
        lemma_total_scaled(m, plain, x(k), scaled);
    }
    lemma_total_congruent(n, left, left_expanded);
    let right = |j: int| a(j) * total(n, |k: int| b(j, k) * x(k));
    let right_expanded = |j: int| total(n, |k: int| term(j, k));
    assert forall|j: int| 0 <= j < m implies #[trigger] right(j) == right_expanded(j) by {
        let plain = |k: int| b(j, k) * x(k);
        let scaled = |k: int| term(j, k);
        assert forall|k: int| 0 <= k < n implies #[trigger] scaled(k) == plain(k) * a(j) by {
            lemma_associate(a(j), b(j, k), x(k));
            lemma_commute(a(j), b(j, k) * x(k));
        }
        lemma_total_scaled(n, plain, a(j), scaled);
        lemma_commute(a(j), total(n, plain));
    }
    lemma_total_congruent(m, right, right_expanded);
    lemma_total_exchanged(m, n, term);
}

} // verus!
