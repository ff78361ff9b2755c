//! Printed lengths of integers, and random choice from a range.

use vstd::prelude::*;
use rand::Rng;
use std::ops::RangeInclusive;
use crate::constraint::{NoMatchFound, NoMatchKind};

verus! {

/// How many decimal digits the natural number `n` is written with.
pub open spec fn digit_count(n: nat) -> nat
    decreases n,
{
    if n < 10 {
        1
    } else {
        1 + digit_count(n / 10)
    }
}

/// How many characters the integer `x` is written with: its digits, and a
/// leading `-` when it is negative.
pub open spec fn printed_len(x: int) -> nat {
    if x < 0 {
        1 + digit_count((-x) as nat)
    } else {
        digit_count(x as nat)
    }
}

/// A number has one digit below 10, two below 100, three below 1000, four
/// below 10000, and more from there on.
pub proof fn lemma_digit_count_bounds(n: nat)
    ensures
        n < 10 <==> digit_count(n) == 1,
        10 <= n < 100 <==> digit_count(n) == 2,
        100 <= n < 1000 <==> digit_count(n) == 3,
        1000 <= n < 10000 <==> digit_count(n) == 4,
        10000 <= n ==> digit_count(n) >= 5,
        digit_count(n) >= 1,
{
    reveal_with_fuel(digit_count, 6);
}

/// An `i32` is written with one to eleven characters.
pub proof fn lemma_printed_len_i32(x: int)
    requires
        i32::MIN <= x <= i32::MAX,
    ensures
        1 <= printed_len(x) <= 11,
{
    reveal_with_fuel(digit_count, 11);
}

fn count_digits(m: u32) -> (r: u32)
    ensures
        r == digit_count(m as nat),
        1 <= r <= 10,
{
    proof {
        reveal_with_fuel(digit_count, 11);
    }
    if m >= 10000 {
        if m >= 10000000 {
            if m >= 100000000 {
                if m >= 1000000000 {
                    return 10;
                }
                return 9;
            }
            return 8;
        }
        if m >= 100000 {
            if m >= 1000000 {
                return 7;
            }
            return 6;
        }
        return 5;
    }
    if m >= 100 {
        if m >= 1000 {
            return 4;
        }
        return 3;
    }
    if m >= 10 {
        return 2;
    }
    1
}

/// The printed length of `x`, sign included.
pub fn num_digits(x: i32) -> (r: u32)
    ensures
        r == printed_len(x as int),
        1 <= r <= 11,
{
    if x < 0 {
        let m: i64 = -(x as i64);
        count_digits(m as u32) + 1
    } else {
        count_digits(x as u32)
    }
}

/// Draws an integer from `low..=high` with `rand`'s thread-local generator
/// (`Rng::gen_range` on an inclusive range). Which one comes is not said:
/// only that it lies in the range. An empty range makes `gen_range` panic
/// and is left out.
#[verifier::external_body]
fn sample_between(low: i64, high: i64) -> (r: i64)
    requires
        low <= high,
    ensures
        low <= r <= high,
{
    rand::thread_rng().gen_range(low..=high)
}

/// `RangeInclusive::start` gives the lower bound the range was made with.
pub assume_specification<Idx>[ RangeInclusive::<Idx>::start ](r: &RangeInclusive<Idx>) -> (s: &Idx)
    ensures
        *s == r@.start,
;

/// `RangeInclusive::end` gives the upper bound the range was made with.
pub assume_specification<Idx>[ RangeInclusive::<Idx>::end ](r: &RangeInclusive<Idx>) -> (e: &Idx)
    ensures
        *e == r@.end,
;

/// A random member of `low..=high`; the caller sees only that it is one.
pub fn random_between(low: i64, high: i64) -> (r: Option<i64>)
    ensures
        low > high <==> r is None,
        r matches Some(v) ==> low <= v <= high,
{
    if low > high {
        None
    } else {
        Some(sample_between(low, high))
    }
}

/// A random member of `range`, or the failure `EmptyRange` when its start
/// lies above its end.
pub fn range_rand_or_only(range: RangeInclusive<i32>) -> (r: Result<i32, NoMatchFound>)
    ensures
        range@.start > range@.end <==> r is Err,
        r matches Ok(v) ==> range@.start <= v <= range@.end,
        r matches Err(e) ==> e.kind == NoMatchKind::EmptyRange,
{
    let low: i32 = *range.start();
    let high: i32 = *range.end();
    match random_between(low as i64, high as i64) {
        Some(v) => Ok(v as i32),
        None => Err(NoMatchFound { kind: NoMatchKind::EmptyRange }),
    }
}

} // verus!
