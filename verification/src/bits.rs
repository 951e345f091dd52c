//! Binary digits of 64-bit words, runs of trailing digits, and powers of two.

use vstd::arithmetic::div_mod::{lemma_mod_breakdown, lemma_small_mod};
use vstd::arithmetic::power2::{lemma2_to64, lemma_pow2_pos, lemma_pow2_unfold, pow2};
use vstd::bits::lemma_u64_shr_is_div;
use vstd::prelude::*;
use vstd::std_specs::bits::{axiom_u64_trailing_zeros, u64_trailing_zeros};

verus! {

/// Digit `i` of `n` in base two, counted from the least significant one.
pub open spec fn bit(n: nat, i: nat) -> u8 {
    ((n / pow2(i)) % 2) as u8
}

/// The lowest `num_bits` digits of `n`, least significant first.
pub open spec fn low_bits(n: nat, num_bits: nat) -> Seq<u8> {
    Seq::new(num_bits, |i: int| bit(n, i as nat))
}

/// The number that a sequence of digits, least significant first, stands for.
pub open spec fn word_of(digits: Seq<u8>) -> nat
    decreases digits.len(),
{
    if digits.len() == 0 {
        0
    } else {
        word_of(digits.drop_last()) + pow2((digits.len() - 1) as nat) * (digits.last() as nat)
    }
}

/// How often 2 divides `n`; 0 for an odd number and for 0 itself.
pub open spec fn twos(n: nat) -> nat
    decreases n,
{
    if n > 0 && n % 2 == 0 {
        1 + twos(n / 2)
    } else {
        0
    }
}

/// Whether `n` is a power of two.
pub open spec fn is_power(n: nat) -> bool {
    exists|k: nat| n == #[trigger] pow2(k)
}

/// The lowest `num_bits` binary digits of `val`, least significant first, one byte each.
pub fn to_binary_vec(val: u64, num_bits: usize) -> (digits: Vec<u8>)
    requires
        num_bits <= 64,
    ensures
        digits@ == low_bits(val as nat, num_bits as nat),
        digits.len() == num_bits,
        forall|i: int|
            0 <= i < num_bits ==> #[trigger] digits@[i] == (val as nat / pow2(i as nat)) % 2,
{
    let mut digits: Vec<u8> = Vec::with_capacity(num_bits);
    let mut i: usize = 0;
    while i < num_bits
        invariant
            i <= num_bits <= 64,
            digits@ == low_bits(val as nat, i as nat),
        decreases num_bits - i,
    {
        let shifted: u64 = val >> (i as u64);
        let digit: u64 = shifted & 1;
        proof {
            lemma_u64_shr_is_div(val, i as u64);
            assert(digit == shifted % 2) by (bit_vector)
                requires
                    digit == shifted & 1,
            ;
        }
        digits.push(digit as u8);
        i += 1;
        assert(digits@ =~= low_bits(val as nat, i as nat));
    }
    digits
}

/// Reading the low digits back gives the number modulo the power of two they can hold.
pub proof fn lemma_digits_round_trip(n: nat, num_bits: nat)
    ensures
        word_of(low_bits(n, num_bits)) == n % pow2(num_bits),
    decreases num_bits,
{
    if num_bits == 0 {
        lemma2_to64();
    } else {
        let k = (num_bits - 1) as nat;
        lemma_digits_round_trip(n, k);
        assert(low_bits(n, num_bits).drop_last() =~= low_bits(n, k));
        lemma_pow2_pos(k);
        lemma_pow2_unfold(num_bits);
        assert(pow2(num_bits) == pow2(k) * 2);
        lemma_mod_breakdown(n as int, pow2(k) as int, 2);
    }
}

/// All 64 digits determine a word.
pub proof fn lemma_word_round_trip(val: u64)
    ensures
        word_of(low_bits(val as nat, 64)) == val,
{
    lemma_digits_round_trip(val as nat, 64);
    lemma2_to64();
    lemma_small_mod(val as nat, pow2(64));
}

/// A positive `n` is an odd multiple of `2^twos(n)`.
pub proof fn lemma_twos(n: nat)
    requires
        n > 0,
    ensures
        n % pow2(twos(n)) == 0,
        (n / pow2(twos(n))) % 2 == 1,
    decreases n,
{
    lemma2_to64();
    if n % 2 == 0 {
        let p = pow2(twos(n / 2));
        lemma_twos(n / 2);
        lemma_pow2_pos(twos(n / 2));
        lemma_pow2_unfold(twos(n));
        vstd::arithmetic::div_mod::lemma_div_denominator(n as int, 2, p as int);
        lemma_mod_breakdown(n as int, 2, p as int);
        assert(pow2(twos(n)) == 2 * p);
        assert(n / pow2(twos(n)) == (n / 2) / p);
    } else {
        assert(n / pow2(0) == n);
    }
}

/// How often 2 divides a positive number is settled by a power of two that divides it with an odd
/// quotient.
pub proof fn lemma_twos_unique(n: nat, k: nat)
    requires
        n > 0,
        n % pow2(k) == 0,
        (n / pow2(k)) % 2 == 1,
    ensures
        twos(n) == k,
    decreases k,
{
    lemma2_to64();
    if k == 0 {
        assert(n / 1 == n);
    } else {
        let p = pow2((k - 1) as nat);
        lemma_pow2_pos((k - 1) as nat);
        lemma_pow2_unfold(k);
        assert(pow2(k) == 2 * p);
        lemma_mod_breakdown(n as int, 2, p as int);
        assert(n % 2 == 0 && (n / 2) % p == 0) by (nonlinear_arith)
            requires
                0 == 2 * ((n / 2) % p) + n % 2,
                p > 0,
        ;
        vstd::arithmetic::div_mod::lemma_div_denominator(n as int, 2, p as int);
        lemma_twos_unique(n / 2, (k - 1) as nat);
    }
}

/// A number up to `2^bits` has at most `bits` factors of two.
pub proof fn lemma_twos_bound(n: nat, bits: nat)
    requires
        0 < n <= pow2(bits),
    ensures
        twos(n) <= bits,
    decreases n,
{
    lemma2_to64();
    if n % 2 == 0 {
        lemma_pow2_unfold(bits);
        lemma_twos_bound(n / 2, (bits - 1) as nat);
    }
}

/// Fewer than 64 factors of two fit into a positive word.
pub proof fn lemma_twos_of_word(n: u64)
    requires
        n > 0,
    ensures
        twos(n as nat) < 64,
        (n >> (twos(n as nat) as u64)) & 1 == 1,
        forall|j: u64| j < twos(n as nat) ==> #[trigger] (n >> j) & 1 == 0,
    decreases n,
{
    if n % 2 == 0 {
        let half = n / 2;
        lemma_twos_of_word(half);
        let t = twos(half as nat) as u64;
        assert(t < 63 && (n >> ((t + 1) as u64)) & 1 == 1) by (bit_vector)
            requires
                half == n / 2,
                t < 64,
                (half >> t) & 1 == 1,
        ;
        assert forall|j: u64| j < twos(n as nat) implies #[trigger] (n >> j) & 1 == 0 by {
            if j == 0 {
                assert((n >> 0) & 1 == 0) by (bit_vector)
                    requires
                        n % 2 == 0,
                ;
            } else {
                let i = (j - 1) as u64;
                assert((half >> i) & 1 == 0);
                assert((n >> j) & 1 == 0) by (bit_vector)
                    requires
                        half == n / 2,
                        0 < j < 64,
                        i == j - 1,
                        (half >> i) & 1 == 0,
                ;
            }
        }
    } else {
        assert((n >> 0) & 1 == 1) by (bit_vector)
            requires
                n % 2 == 1,
        ;
    }
}

/// Counts the zero digits below the lowest one digit.
pub fn count_trailing_zeros(num: u64) -> (zeros: u32)
    requires
        num > 0,
    ensures
        zeros == twos(num as nat),
        zeros < 64,
        num as nat % pow2(zeros as nat) == 0,
        (num as nat / pow2(zeros as nat)) % 2 == 1,
{
    let zeros = num.trailing_zeros();
    proof {
        axiom_u64_trailing_zeros(num);
        lemma_twos_of_word(num);
        let t = twos(num as nat) as u64;
        let z = u64_trailing_zeros(num) as u64;
        if t < z {
            assert((num >> t) & 1 == 0);
        } else if z < t {
            assert((num >> z) & 1 == 0);
        }
        lemma_twos(num as nat);
    }
    zeros
}

/// Halving keeps an even number a power of two, or not one.
proof fn lemma_half_power(n: nat)
    requires
        n > 0,
        n % 2 == 0,
    ensures
        is_power(n) == is_power(n / 2),
{
    lemma2_to64();
    if is_power(n) {
        let k = choose|k: nat| n == #[trigger] pow2(k);
        lemma_pow2_unfold(k);
        assert(n / 2 == pow2((k - 1) as nat));
    }
    if is_power(n / 2) {
        let k = choose|k: nat| n / 2 == #[trigger] pow2(k);
        lemma_pow2_unfold(k + 1);
        assert(n == pow2(k + 1));
    }
}

/// One is the only odd power of two.
proof fn lemma_odd_power(n: nat)
    requires
        n % 2 == 1,
    ensures
        is_power(n) == (n == 1),
{
    lemma2_to64();
    assert(pow2(0) == 1);
    if is_power(n) {
        let k = choose|k: nat| n == #[trigger] pow2(k);
        if k > 0 {
            lemma_pow2_unfold(k);
        }
    }
}

/// Whether `n` is a power of two.
pub fn is_power_of_two(n: u64) -> (power: bool)
    ensures
        power == is_power(n as nat),
        power <==> exists|k: nat| n == #[trigger] pow2(k),
{
    if n == 0 {
        proof {
            assert forall|k: nat| 0 != #[trigger] pow2(k) by {
                lemma_pow2_pos(k);
            }
        }
        return false;
    }
    let mut rest: u64 = n;
    while rest % 2 == 0
        invariant
            rest > 0,
            is_power(rest as nat) == is_power(n as nat),
        decreases rest,
    {
        proof {
            lemma_half_power(rest as nat);
        }
        rest = rest / 2;
    }
    proof {
        lemma_odd_power(rest as nat);
    }
    rest == 1
}

} // verus!
