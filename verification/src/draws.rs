//! A record of the random choices of a training run.

use vstd::prelude::*;

verus! {

/// A number drawn from `low..high`.
#[derive(Clone, Copy, Debug, PartialEq, Eq, Structural)]
pub struct Drawn {
    pub low: u64,
    pub high: u64,
    pub number: u64,
}

/// The stream of random choices up to now: the numbers drawn, and the lists shuffled. It holds
/// nothing at run time. Only a choice itself adds to it.
pub struct Draws {
    numbers: Ghost<Seq<Drawn>>,
    shuffles: Ghost<Seq<(Seq<usize>, Seq<usize>)>>,
}

impl Draws {
    /// The numbers drawn, the first one first.
    pub closed spec fn numbers(&self) -> Seq<Drawn> {
        self.numbers@
    }

    /// The lists shuffled, each as it was before and after.
    pub closed spec fn shuffles(&self) -> Seq<(Seq<usize>, Seq<usize>)> {
        self.shuffles@
    }

    /// The stream before the first choice.
    pub fn new() -> (draws: Draws)
        ensures
            draws.numbers() == Seq::<Drawn>::empty(),
            draws.shuffles() == Seq::<(Seq<usize>, Seq<usize>)>::empty(),
    {
        Draws { numbers: Ghost(Seq::empty()), shuffles: Ghost(Seq::empty()) }
    }
}

} // verus!
