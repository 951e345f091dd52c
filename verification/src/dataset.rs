//! Training data: Collatz transitions as rows of binary digits.

use crate::bits::{lemma_word_round_trip, low_bits, to_binary_vec, word_of};
use crate::collatz::{
    collatz, lemma_orbit_is_exact, lemma_orbit_stays_positive, next_value, orbit, orbit_prefix,
    successor,
};
use crate::draws::{Drawn, Draws};
use crate::random::{draw_start, START_HIGH, START_LOW};
use vstd::arithmetic::power2::pow2;
use vstd::prelude::*;

verus! {

/// Transitions `(n_t, n_{t+1})`: the digits of the first ends, the digits of the second ends, the
/// number of transitions and the number of digits in each row. Rows are stored one after another.
#[derive(Debug, PartialEq, Eq)]
pub struct Dataset {
    pub x_t: Vec<u8>,
    pub x_next: Vec<u8>,
    pub rows: usize,
    pub num_bits: usize,
}

/// The digits of a sequence of words, one row after another.
pub open spec fn bit_rows(words: Seq<u64>, num_bits: nat) -> Seq<u8>
    decreases words.len(),
{
    if words.len() == 0 {
        Seq::empty()
    } else {
        bit_rows(words.drop_last(), num_bits) + low_bits(words.last() as nat, num_bits)
    }
}

/// The second ends of the first `len` transitions of an orbit.
pub open spec fn successors(start: u64, len: nat) -> Seq<u64> {
    Seq::new(len, |k: int| orbit(start, (k + 1) as nat))
}

/// The first ends of `steps` transitions from each start.
pub open spec fn first_ends(starts: Seq<u64>, steps: nat) -> Seq<u64>
    decreases starts.len(),
{
    if starts.len() == 0 {
        Seq::empty()
    } else {
        first_ends(starts.drop_last(), steps) + orbit_prefix(starts.last(), steps)
    }
}

/// The second ends of `steps` transitions from each start.
pub open spec fn second_ends(starts: Seq<u64>, steps: nat) -> Seq<u64>
    decreases starts.len(),
{
    if starts.len() == 0 {
        Seq::empty()
    } else {
        second_ends(starts.drop_last(), steps) + successors(starts.last(), steps)
    }
}

/// Whether every number is one that a training trajectory may start from.
pub open spec fn are_starts(starts: Seq<u64>) -> bool {
    forall|s: int| 0 <= s < starts.len() ==> START_LOW <= #[trigger] starts[s] < START_HIGH
}

/// The digits of two sequences of words are the digits of the parts, one after the other.
proof fn lemma_bit_rows_join(a: Seq<u64>, b: Seq<u64>, num_bits: nat)
    ensures
        bit_rows(a + b, num_bits) == bit_rows(a, num_bits) + bit_rows(b, num_bits),
    decreases b.len(),
{
    if b.len() == 0 {
        assert(a + b =~= a);
        assert(bit_rows(a, num_bits) + bit_rows(b, num_bits) =~= bit_rows(a, num_bits));
    } else {
        lemma_bit_rows_join(a, b.drop_last(), num_bits);
        assert((a + b).drop_last() =~= a + b.drop_last());
        assert((a + b).last() == b.last());
        assert(bit_rows(a + b, num_bits) =~= bit_rows(a, num_bits) + bit_rows(b, num_bits));
    }
}

/// Rows of digits are as long as their number times their width.
pub proof fn lemma_bit_rows_len(words: Seq<u64>, num_bits: nat)
    ensures
        bit_rows(words, num_bits).len() == words.len() * num_bits,
    decreases words.len(),
{
    if words.len() > 0 {
        lemma_bit_rows_len(words.drop_last(), num_bits);
        assert((words.len() - 1) * num_bits + num_bits == words.len() * num_bits)
            by (nonlinear_arith);
    } else {
        assert(0 * num_bits == 0);
    }
}

impl Dataset {
    /// The transitions that the rows spell out.
    pub open spec fn spells(self, firsts: Seq<u64>, seconds: Seq<u64>) -> bool {
        &&& self.x_t@ == bit_rows(firsts, self.num_bits as nat)
        &&& self.x_next@ == bit_rows(seconds, self.num_bits as nat)
        &&& self.rows == firsts.len()
        &&& self.rows == seconds.len()
    }

    /// A dataset without transitions, with room for `capacity` digits on each side.
    pub fn with_capacity(num_bits: usize, capacity: usize) -> (dataset: Dataset)
        requires
            capacity <= isize::MAX,
        ensures
            dataset.num_bits == num_bits,
            dataset.rows == 0,
            dataset.x_t.len() == 0,
            dataset.x_next.len() == 0,
            dataset.spells(Seq::empty(), Seq::empty()),
    {
        Dataset {
            x_t: Vec::with_capacity(capacity),
            x_next: Vec::with_capacity(capacity),
            rows: 0,
            num_bits,
        }
    }

    /// Appends the first `num_steps` transitions of the orbit of `start`.
    pub fn push_trajectory(&mut self, start: u64, num_steps: usize)
        requires
            num_steps > 0 ==> old(self).num_bits <= 64,
            old(self).rows + num_steps <= usize::MAX,
        ensures
            final(self).num_bits == old(self).num_bits,
            final(self).rows == old(self).rows + num_steps,
            final(self).x_t@ == old(self).x_t@ + bit_rows(
                orbit_prefix(start, num_steps as nat),
                old(self).num_bits as nat,
            ),
            final(self).x_next@ == old(self).x_next@ + bit_rows(
                successors(start, num_steps as nat),
                old(self).num_bits as nat,
            ),
    {
        let ghost width = self.num_bits as nat;
        let mut val: u64 = start;
        let mut step: usize = 0;
        proof {
            assert(orbit_prefix(start, 0) =~= Seq::empty());
            assert(successors(start, 0) =~= Seq::empty());
        }
        while step < num_steps
            invariant
                step <= num_steps,
                val == orbit(start, step as nat),
                width == old(self).num_bits,
                self.num_bits == width,
                num_steps > 0 ==> width <= 64,
                old(self).rows + num_steps <= usize::MAX,
                self.rows == old(self).rows + step,
                self.x_t@ == old(self).x_t@ + bit_rows(orbit_prefix(start, step as nat), width),
                self.x_next@ == old(self).x_next@ + bit_rows(
                    successors(start, step as nat),
                    width,
                ),
            decreases num_steps - step,
        {
            let next_val = next_value(val);
            let mut x_t_bin = to_binary_vec(val, self.num_bits);
            let mut x_next_bin = to_binary_vec(next_val, self.num_bits);
            self.x_t.append(&mut x_t_bin);
            self.x_next.append(&mut x_next_bin);
            self.rows = self.rows + 1;
            proof {
                let k = step as nat;
                assert(orbit_prefix(start, k + 1).drop_last() =~= orbit_prefix(start, k));
                assert(successors(start, k + 1).drop_last() =~= successors(start, k));
                assert(self.x_t@ =~= old(self).x_t@ + bit_rows(orbit_prefix(start, k + 1), width));
                assert(self.x_next@ =~= old(self).x_next@ + bit_rows(
                    successors(start, k + 1),
                    width,
                ));
            }
            val = next_val;
            step += 1;
        }
    }
}

/// The `count` numbers of a stream of draws from place `from` on.
pub open spec fn numbers_from(draws: Draws, from: nat, count: nat) -> Seq<u64> {
    Seq::new(count, |s: int| draws.numbers()[from + s].number)
}

/// Draws `num_samples` starts, one for each trajectory, and lists `num_steps` transitions from
/// each, in rows of `num_bits` digits. Either side has to fit into memory as a tensor with four
/// bytes for each digit.
pub fn draw_dataset(
    draws: &mut Draws,
    num_samples: usize,
    num_steps: usize,
    num_bits: usize,
) -> (dataset: Dataset)
    requires
        num_samples > 0 && num_steps > 0 ==> num_bits <= 64,
        num_samples * num_steps <= usize::MAX,
        num_samples * num_steps * num_bits <= isize::MAX / 4,
    ensures
        dataset.num_bits == num_bits,
        dataset.rows == num_samples * num_steps,
        final(draws).shuffles() == old(draws).shuffles(),
        final(draws).numbers().len() == old(draws).numbers().len() + num_samples,
        final(draws).numbers().take(old(draws).numbers().len() as int) == old(draws).numbers(),
        forall|s: int|
            old(draws).numbers().len() <= s < final(draws).numbers().len() ==> (
            #[trigger] final(draws).numbers()[s]).low == 2 && final(draws).numbers()[s].high
                == 0x1_0000_0000,
        ({
            let from = old(draws).numbers().len() as int;
            let starts = Seq::new(
                num_samples as nat,
                |s: int| final(draws).numbers()[from + s].number,
            );
            are_starts(starts) && dataset.spells(
                first_ends(starts, num_steps as nat),
                second_ends(starts, num_steps as nat),
            )
        }),
{
    let mut dataset = Dataset::with_capacity(num_bits, num_samples * num_steps * num_bits);
    let ghost mut starts: Seq<u64> = Seq::empty();
    let ghost steps = num_steps as nat;
    let ghost from = old(draws).numbers().len();
    let mut sample: usize = 0;
    proof {
        assert(draws.numbers().take(from as int) =~= old(draws).numbers());
        assert(numbers_from(*draws, from, 0) =~= starts);
    }
    while sample < num_samples
        invariant
            sample <= num_samples,
            steps == num_steps,
            num_samples > 0 && num_steps > 0 ==> num_bits <= 64,
            num_samples * num_steps <= usize::MAX,
            from == old(draws).numbers().len(),
            draws.shuffles() == old(draws).shuffles(),
            draws.numbers().len() == from + sample,
            draws.numbers().take(from as int) == old(draws).numbers(),
            forall|s: int|
                from <= s < draws.numbers().len() ==> (#[trigger] draws.numbers()[s]).low == 2
                    && draws.numbers()[s].high == 0x1_0000_0000,
            starts == numbers_from(*draws, from, sample as nat),
            are_starts(starts),
            dataset.num_bits == num_bits,
            dataset.rows == sample * num_steps,
            dataset.spells(first_ends(starts, steps), second_ends(starts, steps)),
        decreases num_samples - sample,
    {
        let ghost earlier = draws.numbers();
        let start = draw_start(draws);
        let ghost longer = starts.push(start);
        proof {
            assert(draws.numbers().take(from as int) =~= earlier.take(from as int));
            assert(numbers_from(*draws, from, (sample + 1) as nat) =~= longer);
            assert((sample + 1) * num_steps == sample * num_steps + num_steps) by (nonlinear_arith);
            assert((sample + 1) * num_steps <= num_samples * num_steps) by (nonlinear_arith)
                requires
                    sample + 1 <= num_samples,
            ;
            assert(longer.drop_last() =~= starts);
            lemma_bit_rows_join(
                first_ends(starts, steps),
                orbit_prefix(start, steps),
                num_bits as nat,
            );
            lemma_bit_rows_join(
                second_ends(starts, steps),
                successors(start, steps),
                num_bits as nat,
            );
        }
        dataset.push_trajectory(start, num_steps);
        proof {
            starts = longer;
        }
        sample += 1;
    }
    proof {
        let drawn = Seq::new(num_samples as nat, |s: int| draws.numbers()[from + s].number);
        assert(drawn =~= starts);
    }
    dataset
}

/// Draws `num_samples` starts and lists `num_steps` transitions from each, in rows of `num_bits`
/// digits. Either side has to fit into memory as a tensor with four bytes for each digit.
pub fn generate_dataset(num_samples: usize, num_steps: usize, num_bits: usize) -> (dataset: Dataset)
    requires
        num_samples > 0 && num_steps > 0 ==> num_bits <= 64,
        num_samples * num_steps <= usize::MAX,
        num_samples * num_steps * num_bits <= isize::MAX / 4,
    ensures
        dataset.num_bits == num_bits,
        dataset.rows == num_samples * num_steps,
        exists|starts: Seq<u64>|
            #![trigger first_ends(starts, num_steps as nat)]
            starts.len() == num_samples && are_starts(starts) && dataset.spells(
                first_ends(starts, num_steps as nat),
                second_ends(starts, num_steps as nat),
            ),
        exists|draws: Draws, starts: Seq<u64>|
            #![trigger draws.numbers(), first_ends(starts, num_steps as nat)]
            {
                &&& draws.numbers() == Seq::new(
                    num_samples as nat,
                    |s: int| Drawn { low: 2, high: 0x1_0000_0000, number: starts[s] },
                )
                &&& starts.len() == num_samples
                &&& dataset.spells(
                    first_ends(starts, num_steps as nat),
                    second_ends(starts, num_steps as nat),
                )
            },
{
    let mut draws = Draws::new();
    let dataset = draw_dataset(&mut draws, num_samples, num_steps, num_bits);
    proof {
        let starts = numbers_from(draws, 0, num_samples as nat);
        assert(dataset.spells(
            first_ends(starts, num_steps as nat),
            second_ends(starts, num_steps as nat),
        ));
        assert(draws.numbers() =~= Seq::new(
            num_samples as nat,
            |s: int| Drawn { low: 2, high: 0x1_0000_0000, number: starts[s] },
        ));
    }
    dataset
}

/// Row `r` holds the digits of word `r`.
pub proof fn lemma_row(words: Seq<u64>, num_bits: nat, r: int)
    requires
        0 <= r < words.len(),
    ensures
        0 <= r * num_bits <= (r + 1) * num_bits <= bit_rows(words, num_bits).len(),
        bit_rows(words, num_bits).subrange(r * num_bits, (r + 1) * num_bits) == low_bits(
            words[r] as nat,
            num_bits,
        ),
    decreases words.len(),
{
    let front = words.drop_last();
    lemma_bit_rows_len(words, num_bits);
    lemma_bit_rows_len(front, num_bits);
    assert(0 <= r * num_bits) by (nonlinear_arith)
        requires
            0 <= r,
    ;
    assert(r * num_bits + num_bits == (r + 1) * num_bits) by (nonlinear_arith);
    assert((r + 1) * num_bits <= words.len() * num_bits) by (nonlinear_arith)
        requires
            r + 1 <= words.len(),
    ;
    let row = bit_rows(words, num_bits).subrange(r * num_bits, (r + 1) * num_bits);
    if r < front.len() {
        lemma_row(front, num_bits, r);
        assert(row =~= bit_rows(front, num_bits).subrange(r * num_bits, (r + 1) * num_bits));
    } else {
        assert(row =~= low_bits(words.last() as nat, num_bits));
    }
}

/// With 64 digits to a row, the words can be read back from the rows.
pub proof fn lemma_row_reads_back(words: Seq<u64>, r: int)
    requires
        0 <= r < words.len(),
    ensures
        word_of(bit_rows(words, 64).subrange(r * 64, (r + 1) * 64)) == words[r],
{
    lemma_row(words, 64, r);
    lemma_word_round_trip(words[r]);
}

/// Transition `t` of trajectory `s` leads from the `t`-th to the next iterate of its start.
pub proof fn lemma_transition(starts: Seq<u64>, steps: nat, s: int, t: int)
    requires
        0 <= s < starts.len(),
        0 <= t < steps,
    ensures
        first_ends(starts, steps).len() == starts.len() * steps,
        second_ends(starts, steps).len() == starts.len() * steps,
        0 <= s * steps + t < starts.len() * steps,
        first_ends(starts, steps)[s * steps + t] == orbit(starts[s], t as nat),
        second_ends(starts, steps)[s * steps + t] == orbit(starts[s], (t + 1) as nat),
    decreases starts.len(),
{
    let front = starts.drop_last();
    lemma_ends_len(starts, steps);
    lemma_ends_len(front, steps);
    assert(0 <= s * steps) by (nonlinear_arith)
        requires
            0 <= s,
    ;
    assert(s * steps + steps == (s + 1) * steps) by (nonlinear_arith);
    assert((s + 1) * steps <= starts.len() * steps) by (nonlinear_arith)
        requires
            s + 1 <= starts.len(),
    ;
    if s < front.len() {
        lemma_transition(front, steps, s, t);
    }
}

/// Digit `j` of row `r` is digit `j` of word `r` in base two.
pub proof fn lemma_row_digit(words: Seq<u64>, num_bits: nat, r: int, j: int)
    requires
        0 <= r < words.len(),
        0 <= j < num_bits,
    ensures
        bit_rows(words, num_bits).len() == words.len() * num_bits,
        0 <= r * num_bits + j < words.len() * num_bits,
        bit_rows(words, num_bits)[r * num_bits + j] == (words[r] as nat / pow2(j as nat)) % 2,
{
    lemma_bit_rows_len(words, num_bits);
    lemma_row(words, num_bits, r);
    assert((r + 1) * num_bits == r * num_bits + num_bits) by (nonlinear_arith);
    let row = bit_rows(words, num_bits).subrange(r * num_bits, (r + 1) * num_bits);
    assert(row[j] == bit_rows(words, num_bits)[r * num_bits + j]);
}

/// The digits that a trajectory adds: row `t` holds the `t`-th iterate of its start on the one
/// side and the next iterate on the other, least significant digit first.
pub proof fn lemma_trajectory_digits(start: u64, steps: nat, num_bits: nat, t: int, j: int)
    requires
        0 <= t < steps,
        0 <= j < num_bits,
    ensures
        bit_rows(orbit_prefix(start, steps), num_bits).len() == steps * num_bits,
        bit_rows(successors(start, steps), num_bits).len() == steps * num_bits,
        0 <= t * num_bits + j < steps * num_bits,
        bit_rows(orbit_prefix(start, steps), num_bits)[t * num_bits + j] == (orbit(
            start,
            t as nat,
        ) as nat / pow2(j as nat)) % 2,
        bit_rows(successors(start, steps), num_bits)[t * num_bits + j] == (orbit(
            start,
            (t + 1) as nat,
        ) as nat / pow2(j as nat)) % 2,
{
    lemma_row_digit(orbit_prefix(start, steps), num_bits, t, j);
    lemma_row_digit(successors(start, steps), num_bits, t, j);
}

/// Every digit of a dataset: row `s * steps + t` holds the `t`-th iterate of start `s` on the one
/// side and the next iterate on the other, least significant digit first.
pub proof fn lemma_dataset_digits(
    dataset: Dataset,
    starts: Seq<u64>,
    steps: nat,
    s: int,
    t: int,
    j: int,
)
    requires
        dataset.spells(first_ends(starts, steps), second_ends(starts, steps)),
        0 <= s < starts.len(),
        0 <= t < steps,
        0 <= j < dataset.num_bits,
    ensures
        dataset.rows == starts.len() * steps,
        dataset.x_t.len() == dataset.rows * dataset.num_bits,
        dataset.x_next.len() == dataset.rows * dataset.num_bits,
        ({
            let at = (s * steps + t) * dataset.num_bits + j;
            &&& 0 <= at < dataset.rows * dataset.num_bits
            &&& dataset.x_t@[at] == (orbit(starts[s], t as nat) as nat / pow2(j as nat)) % 2
            &&& dataset.x_next@[at] == (orbit(starts[s], (t + 1) as nat) as nat / pow2(j as nat))
                % 2
        }),
{
    lemma_transition(starts, steps, s, t);
    lemma_row_digit(first_ends(starts, steps), dataset.num_bits as nat, s * steps + t, j);
    lemma_row_digit(second_ends(starts, steps), dataset.num_bits as nat, s * steps + t, j);
}

/// Every start contributes `steps` transitions.
proof fn lemma_ends_len(starts: Seq<u64>, steps: nat)
    ensures
        first_ends(starts, steps).len() == starts.len() * steps,
        second_ends(starts, steps).len() == starts.len() * steps,
    decreases starts.len(),
{
    if starts.len() > 0 {
        lemma_ends_len(starts.drop_last(), steps);
        assert((starts.len() - 1) * steps + steps == starts.len() * steps) by (nonlinear_arith);
    } else {
        assert(0 * steps == 0);
    }
}

/// The second end of a transition is the Collatz successor of its first end; within a trajectory
/// it is the first end of the transition that follows.
pub proof fn lemma_transitions_link(starts: Seq<u64>, steps: nat, s: int, t: int)
    requires
        0 <= s < starts.len(),
        0 <= t < steps,
    ensures
        second_ends(starts, steps)[s * steps + t] == successor(
            first_ends(starts, steps)[s * steps + t],
        ),
        t + 1 < steps ==> first_ends(starts, steps)[s * steps + t + 1] == second_ends(
            starts,
            steps,
        )[s * steps + t],
{
    lemma_transition(starts, steps, s, t);
    if t + 1 < steps {
        lemma_transition(starts, steps, s, t + 1);
    }
}

/// Trajectories of at most 62 transitions from admissible starts never overflow: each second end
/// is the true Collatz image of the first end, and neither end is zero.
pub proof fn lemma_transitions_are_exact(starts: Seq<u64>, steps: nat, s: int, t: int)
    requires
        are_starts(starts),
        0 <= s < starts.len(),
        0 <= t < steps <= 62,
    ensures
        first_ends(starts, steps)[s * steps + t] > 0,
        second_ends(starts, steps)[s * steps + t] > 0,
        second_ends(starts, steps)[s * steps + t] == collatz(
            first_ends(starts, steps)[s * steps + t] as nat,
        ),
{
    lemma_transition(starts, steps, s, t);
    lemma_orbit_is_exact(starts[s], t as nat);
    lemma_orbit_is_exact(starts[s], (t + 1) as nat);
    lemma_orbit_stays_positive(starts[s], t as nat);
    lemma_orbit_stays_positive(starts[s], (t + 1) as nat);
}

} // verus!
