//! The report on a training run: the orbits that it shows, and its page.

use crate::collatz::{lemma_orbit_steps, next_value, orbit};
use crate::text::{replace_all, replaced};
use vstd::prelude::*;

verus! {

/// One value of an orbit and its place in it.
#[derive(Debug, PartialEq, Eq)]
pub struct TrajectoryPoint {
    pub step: usize,
    pub val: u64,
}

/// The beginning of an orbit.
#[derive(Debug, PartialEq, Eq)]
pub struct Trajectory {
    pub start_val: u64,
    pub points: Vec<TrajectoryPoint>,
}

/// Whether a trajectory is the orbit of `start` from step 0 to `last_step`.
pub open spec fn is_trace(trajectory: Trajectory, start: u64, last_step: nat) -> bool {
    &&& trajectory.start_val == start
    &&& trajectory.points.len() == last_step + 1
    &&& forall|k: int|
        0 <= k <= last_step ==> (#[trigger] trajectory.points@[k]).step == k
            && trajectory.points@[k].val == orbit(start, k as nat)
}

/// A trace numbers its points from 0 and begins with its start. After an even value comes its
/// half; after an odd one three times the value and one, or 1 where that needs more than 64 bits.
pub proof fn lemma_trace_steps(trajectory: Trajectory, start: u64, last_step: nat, k: int)
    requires
        is_trace(trajectory, start, last_step),
        0 <= k <= last_step,
    ensures
        trajectory.start_val == start,
        trajectory.points.len() == last_step + 1,
        trajectory.points@[0].val == start,
        trajectory.points@[k].step == k,
        k < last_step ==> ({
            let (v, next) = (trajectory.points@[k].val, trajectory.points@[k + 1].val);
            let tripled = v + v + v + 1;
            &&& v % 2 == 0 ==> next + next == v
            &&& v % 2 == 1 && tripled <= u64::MAX ==> next == tripled
            &&& v % 2 == 1 && tripled > u64::MAX ==> next == 1
        }),
{
    lemma_orbit_steps(start, k as nat);
    assert(trajectory.points@[0].val == orbit(start, 0));
    assert(trajectory.points@[k].val == orbit(start, k as nat));
    if k < last_step {
        assert(trajectory.points@[k + 1].val == orbit(start, (k + 1) as nat));
    }
}

/// The orbit of `start` from step 0 to `last_step`.
pub fn trace(start: u64, last_step: usize) -> (trajectory: Trajectory)
    requires
        last_step < usize::MAX,
    ensures
        is_trace(trajectory, start, last_step as nat),
{
    let mut points: Vec<TrajectoryPoint> = Vec::new();
    let mut val: u64 = start;
    let mut step: usize = 0;
    while step <= last_step
        invariant
            step <= last_step + 1,
            last_step < usize::MAX,
            val == orbit(start, step as nat),
            points.len() == step,
            forall|k: int|
                0 <= k < step ==> (#[trigger] points@[k]).step == k && points@[k].val == orbit(
                    start,
                    k as nat,
                ),
        decreases last_step + 1 - step,
    {
        points.push(TrajectoryPoint { step, val });
        val = next_value(val);
        step += 1;
    }
    Trajectory { start_val: start, points }
}

/// The orbits that the report shows: 21 values each, from five starts.
pub fn test_trajectories() -> (trajectories: Vec<Trajectory>)
    ensures
        trajectories.len() == 5,
        is_trace(trajectories@[0], 27, 20),
        is_trace(trajectories@[1], 12, 20),
        is_trace(trajectories@[2], 1000, 20),
        is_trace(trajectories@[3], 7, 20),
        is_trace(trajectories@[4], 8521, 20),
{
    let mut trajectories: Vec<Trajectory> = Vec::new();
    trajectories.push(trace(27, 20));
    trajectories.push(trace(12, 20));
    trajectories.push(trace(1000, 20));
    trajectories.push(trace(7, 20));
    trajectories.push(trace(8521, 20));
    trajectories
}

/// The page of the report: the template with the data in the place of
/// `REPORT_DATA_PLACEHOLDER`.
pub fn fill_report(template: &str, serialized_data: &str) -> (html: String)
    ensures
        html@ == replaced(template@, "REPORT_DATA_PLACEHOLDER"@, serialized_data@),
{
    proof {
        reveal_strlit("REPORT_DATA_PLACEHOLDER");
    }
    replace_all(template, "REPORT_DATA_PLACEHOLDER", serialized_data)
}

} // verus!
