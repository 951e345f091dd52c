//! The Collatz map on 64-bit words and its orbits.

use vstd::arithmetic::power2::{lemma2_to64, lemma_pow2_strictly_increases, lemma_pow2_unfold, pow2};
use vstd::prelude::*;

verus! {

/// The Collatz map on the naturals: halve an even number, send an odd `n` to `3n + 1`.
pub open spec fn collatz(n: nat) -> nat {
    if n % 2 == 0 {
        n / 2
    } else {
        3 * n + 1
    }
}

/// The `k`-th iterate of the Collatz map.
pub open spec fn collatz_orbit(n: nat, k: nat) -> nat
    decreases k,
{
    if k == 0 {
        n
    } else {
        collatz(collatz_orbit(n, (k - 1) as nat))
    }
}

/// The Collatz map on words. A successor that needs more than 64 bits is replaced by 1.
pub open spec fn successor(val: u64) -> u64 {
    if collatz(val as nat) <= u64::MAX {
        collatz(val as nat) as u64
    } else {
        1
    }
}

/// The `k`-th iterate of [`successor`].
pub open spec fn orbit(start: u64, k: nat) -> u64
    decreases k,
{
    if k == 0 {
        start
    } else {
        successor(orbit(start, (k - 1) as nat))
    }
}

/// The first `len` values of an orbit, the start included.
pub open spec fn orbit_prefix(start: u64, len: nat) -> Seq<u64> {
    Seq::new(len, |k: int| orbit(start, k as nat))
}

/// One step of the Collatz map; an odd value whose successor overflows restarts at 1.
pub fn next_value(val: u64) -> (next: u64)
    ensures
        next == successor(val),
        val % 2 == 0 ==> next == val / 2,
        val % 2 == 1 && 3 * val + 1 <= u64::MAX ==> next == 3 * val + 1,
        val % 2 == 1 && 3 * val + 1 > u64::MAX ==> next == 1,
{
    if val % 2 == 0 {
        val / 2
    } else {
        match val.checked_mul(3) {
            Some(tripled) => match tripled.checked_add(1) {
                Some(next) => next,
                None => 1,
            },
            None => 1,
        }
    }
}

/// The Collatz map: twice the image of an even number is the number, the image of an odd one is
/// one more than three times the number. Iterates follow one another under the map.
pub proof fn lemma_collatz_map(n: nat, k: nat)
    ensures
        n % 2 == 0 ==> collatz(n) + collatz(n) == n,
        n % 2 == 1 ==> collatz(n) == n + n + n + 1,
        collatz_orbit(n, 0) == n,
        ({
            let (v, next) = (collatz_orbit(n, k), collatz_orbit(n, k + 1));
            &&& v % 2 == 0 ==> next + next == v
            &&& v % 2 == 1 ==> next == v + v + v + 1
        }),
{
}

/// An orbit begins with its start. After an even value comes its half; after an odd one three
/// times the value and one, or 1 where that needs more than 64 bits.
pub proof fn lemma_orbit_steps(start: u64, k: nat)
    ensures
        orbit(start, 0) == start,
        ({
            let (v, next) = (orbit(start, k), orbit(start, k + 1));
            let tripled = v + v + v + 1;
            &&& v % 2 == 0 ==> next + next == v
            &&& v % 2 == 1 && tripled <= u64::MAX ==> next == tripled
            &&& v % 2 == 1 && tripled > u64::MAX ==> next == 1
        }),
{
}

/// A positive word never steps to zero, so an orbit that starts positive stays positive.
pub proof fn lemma_orbit_stays_positive(start: u64, k: nat)
    requires
        start >= 1,
    ensures
        orbit(start, k) >= 1,
    decreases k,
{
    if k > 0 {
        lemma_orbit_stays_positive(start, (k - 1) as nat);
    }
}

/// An orbit can be resumed from any of its values.
pub proof fn lemma_orbit_resumes(start: u64, j: nat, k: nat)
    ensures
        orbit(orbit(start, j), k) == orbit(start, j + k),
    decreases k,
{
    if k > 0 {
        lemma_orbit_resumes(start, j, (k - 1) as nat);
    }
}

/// Bounds the `k`-th iterate of a 32-bit start. A value that an odd step has just produced is
/// even and gets one more bit of room; the halving that follows gives the bit back.
proof fn lemma_orbit_growth(start: nat, k: nat)
    requires
        1 <= start < pow2(32),
    ensures
        1 <= collatz_orbit(start, k),
        collatz_orbit(start, k) < pow2(32 + k / 2) || (collatz_orbit(start, k) % 2 == 0
            && collatz_orbit(start, k) < pow2(33 + (k + 1) / 2)),
    decreases k,
{
    if k > 0 {
        let j = (k - 1) as nat;
        let v = collatz_orbit(start, j);
        lemma_orbit_growth(start, j);
        lemma_pow2_unfold(33 + j / 2);
        lemma_pow2_unfold(34 + j / 2);
        lemma_pow2_unfold(33 + (j + 1) / 2);
        if v < pow2(32 + j / 2) {
            if v % 2 == 0 {
                lemma_power_order(32 + j / 2, 32 + k / 2);
            } else {
                assert((k + 1) / 2 == j / 2 + 1);
                assert(3 * v + 1 < pow2(34 + j / 2));
            }
        }
    }
}

/// Powers of two are ordered by their exponents.
proof fn lemma_power_order(a: nat, b: nat)
    requires
        a <= b,
    ensures
        pow2(a) <= pow2(b),
{
    if a < b {
        lemma_pow2_strictly_increases(a, b);
    }
}

/// From a start in `1..2^32` no overflow happens in the first 62 steps: the words are the
/// true Collatz iterates.
pub proof fn lemma_orbit_is_exact(start: u64, k: nat)
    requires
        1 <= start < 0x1_0000_0000,
        k <= 62,
    ensures
        orbit(start, k) == collatz_orbit(start as nat, k),
    decreases k,
{
    if k > 0 {
        lemma_orbit_is_exact(start, (k - 1) as nat);
        lemma2_to64();
        lemma_orbit_growth(start as nat, k);
        lemma_power_order(32 + k / 2, 64);
        lemma_power_order(33 + (k + 1) / 2, 64);
    }
}

/// The core loop `4 -> 2 -> 1`: whatever reaches 4 repeats with period three.
pub proof fn lemma_core_loop(k: nat)
    ensures
        orbit(4, 1) == 2,
        orbit(4, 2) == 1,
        orbit(4, k + 3) == orbit(4, k),
{
    reveal_with_fuel(orbit, 4);
    lemma_orbit_resumes(4, 3, k);
}

} // verus!
