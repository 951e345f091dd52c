//! The two random choices of a training run.
//!
//! The generator of a thread is seeded by the system when it is first used; the calls below panic
//! where the system has no randomness to give.

use crate::draws::{Drawn, Draws};
use rand::seq::SliceRandom;
use rand::Rng;
use vstd::prelude::*;

verus! {

/// The smallest number that a training trajectory starts from.
pub const START_LOW: u64 = 2;

/// The first number above the ones that a training trajectory starts from.
pub const START_HIGH: u64 = 4_294_967_296;

/// Calls `rand::Rng::gen_range` on the generator of the current thread. Claims only that the
/// number drawn lies in `low..high`, and that it is the next one in the stream of `draws`; which
/// one it is, chance decides. The call panics on an empty range.
#[verifier::external_body]
fn gen_range(low: u64, high: u64, draws: &mut Draws) -> (drawn: u64)
    requires
        low < high,
    ensures
        low <= drawn < high,
        final(draws).numbers() == old(draws).numbers().push(Drawn { low, high, number: drawn }),
        final(draws).shuffles() == old(draws).shuffles(),
{
    rand::thread_rng().gen_range(low..high)
}

/// Calls `rand::seq::SliceRandom::shuffle` with the generator of the current thread. Claims that
/// the same items stay, each as often as before, and that their order is the next one in the
/// stream of `draws`; which order it is, chance decides.
#[verifier::external_body]
pub(crate) fn shuffle(items: &mut Vec<usize>, draws: &mut Draws)
    ensures
        final(items)@.to_multiset() == old(items)@.to_multiset(),
        final(draws).shuffles() == old(draws).shuffles().push((old(items)@, final(items)@)),
        final(draws).numbers() == old(draws).numbers(),
{
    items.shuffle(&mut rand::thread_rng());
}

/// Draws the start of a training trajectory from `2..2^32`: neither 0 nor 1, and small enough not
/// to overflow within a trajectory.
pub fn draw_start(draws: &mut Draws) -> (start: u64)
    ensures
        START_LOW <= start < START_HIGH,
        2 <= start < 0x1_0000_0000,
        final(draws).numbers() == old(draws).numbers().push(
            (Drawn { low: 2, high: 0x1_0000_0000, number: start }),
        ),
        final(draws).shuffles() == old(draws).shuffles(),
{
    gen_range(START_LOW, START_HIGH, draws)
}

/// Draws one start of a training trajectory.
pub fn random_start() -> (start: u64)
    ensures
        START_LOW <= start < START_HIGH,
        2 <= start < 0x1_0000_0000,
        exists|draws: Draws| #[trigger]
            draws.numbers() == seq![(Drawn { low: 2, high: 0x1_0000_0000, number: start })],
{
    let mut draws = Draws::new();
    let start = draw_start(&mut draws);
    assert(draws.numbers() =~= seq![(Drawn { low: 2, high: 0x1_0000_0000, number: start })]);
    start
}

} // verus!
