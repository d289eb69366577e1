//! The synchronisation decision: whether a fresh reading is written to the
//! item, given the state the item records and the configured threshold.

use crate::binary32::{Binary32, Extended};
use crate::gap::{gap, lemma_gap_of_whole_numbers, truncated_gap};
use vstd::arithmetic::power2::{lemma2_to64, lemma_pow2_pos, pow2};
use vstd::prelude::*;

verus! {

/// What a cycle does with its reading.
#[derive(Clone, Copy, Debug, PartialEq, Eq, Structural)]
pub enum Outcome {
    /// Write the carried reading to the item.
    Publish(Binary32),
    /// Leave the item as it is.
    Skip,
}

/// The value that stands for the item's state: the one its text denotes, or
/// positive zero where the text denotes none.
pub open spec fn recorded_value(recorded: Option<Binary32>) -> Binary32 {
    match recorded {
        Some(current) => current,
        None => Binary32 { bits: 0 },
    }
}

/// Whether `measurement` is written over `current`: always over a zero, and
/// otherwise when their truncated distance reaches the threshold.
pub open spec fn publishes(measurement: Extended, current: Extended, threshold: u32) -> bool {
    current.is_zero() || gap(measurement, current) >= threshold
}

/// The outcome for a reading, the item's state and a threshold.
pub open spec fn decision(
    measurement: Binary32,
    recorded: Option<Binary32>,
    threshold: u32,
) -> Outcome {
    if publishes(measurement@, recorded_value(recorded)@, threshold) {
        Outcome::Publish(measurement)
    } else {
        Outcome::Skip
    }
}

/// Decides whether `measurement` is written to the item.
///
/// `recorded` is the value that the item's state text denotes, and `None`
/// where the text denotes no number; such a state counts as zero.
pub fn sync_decision(measurement: Binary32, recorded: Option<Binary32>, threshold: u32) -> (outcome:
    Outcome)
    ensures
        outcome == decision(measurement, recorded, threshold),
        outcome matches Outcome::Publish(value) ==> value == measurement,
{
    let current = match recorded {
        Some(current) => current,
        None => Binary32::zero(),
    };
    if current.is_zero() || truncated_gap(measurement, current) >= threshold {
        Outcome::Publish(measurement)
    } else {
        Outcome::Skip
    }
}

/// A reading that is closer than the threshold to a recorded state other
/// than zero is skipped.
pub proof fn lemma_small_change_skips(
    measurement: Binary32,
    recorded: Option<Binary32>,
    threshold: u32,
)
    requires
        !recorded_value(recorded)@.is_zero(),
        gap(measurement@, recorded_value(recorded)@) < threshold,
    ensures
        decision(measurement, recorded, threshold) == Outcome::Skip,
{
}

/// Over a recorded zero of either sign every reading is published, whatever
/// the threshold.
pub proof fn lemma_zero_state_publishes(
    measurement: Binary32,
    recorded: Option<Binary32>,
    threshold: u32,
)
    requires
        recorded_value(recorded)@.is_zero(),
    ensures
        decision(measurement, recorded, threshold) == Outcome::Publish(measurement),
{
}

/// Over a state that denotes no number every reading is published, whatever
/// the threshold.
pub proof fn lemma_missing_state_publishes(measurement: Binary32, threshold: u32)
    ensures
        recorded_value(None)@.is_zero(),
        decision(measurement, None, threshold) == Outcome::Publish(measurement),
{
    lemma2_to64();
    let zero = Binary32 { bits: 0 };
    assert(zero.significand() == 0);
    assert(zero.units() == 0);
}

/// A reading whose truncated distance from the recorded state reaches the
/// threshold is published.
pub proof fn lemma_large_change_publishes(
    measurement: Binary32,
    recorded: Option<Binary32>,
    threshold: u32,
)
    requires
        gap(measurement@, recorded_value(recorded)@) >= threshold,
    ensures
        decision(measurement, recorded, threshold) == Outcome::Publish(measurement),
{
}

/// The threshold is inclusive: a truncated distance equal to it publishes.
pub proof fn lemma_threshold_is_inclusive(
    measurement: Binary32,
    recorded: Option<Binary32>,
    threshold: u32,
)
    requires
        gap(measurement@, recorded_value(recorded)@) == threshold,
    ensures
        decision(measurement, recorded, threshold) == Outcome::Publish(measurement),
{
}

/// With a threshold of zero every reading is published.
pub proof fn lemma_zero_threshold_publishes(measurement: Binary32, recorded: Option<Binary32>)
    ensures
        decision(measurement, recorded, 0) == Outcome::Publish(measurement),
{
}

/// Lowering the threshold never turns a publish into a skip.
pub proof fn lemma_lower_threshold_publishes(
    measurement: Binary32,
    recorded: Option<Binary32>,
    threshold: u32,
    lower: u32,
)
    requires
        lower <= threshold,
        decision(measurement, recorded, threshold) == Outcome::Publish(measurement),
    ensures
        decision(measurement, recorded, lower) == Outcome::Publish(measurement),
{
}

/// The outcome depends on nothing but the three inputs: equal inputs give
/// equal outcomes.
pub proof fn lemma_decision_is_repeatable(
    first_measurement: Binary32,
    first_recorded: Option<Binary32>,
    first_threshold: u32,
    second_measurement: Binary32,
    second_recorded: Option<Binary32>,
    second_threshold: u32,
)
    requires
        first_measurement == second_measurement,
        first_recorded == second_recorded,
        first_threshold == second_threshold,
    ensures
        decision(first_measurement, first_recorded, first_threshold) == decision(
            second_measurement,
            second_recorded,
            second_threshold,
        ),
{
}

/// Between whole numbers that are less than 2^24 apart the decision is the
/// plain one: publish over a recorded zero, and otherwise when the numbers
/// differ by the threshold or more.
pub proof fn lemma_decision_on_whole_numbers(
    measurement: Binary32,
    current: Binary32,
    threshold: u32,
    m: nat,
    n: nat,
)
    requires
        measurement@ == Extended::whole(false, m),
        current@ == Extended::whole(false, n),
        m - n < 0x100_0000,
        n - m < 0x100_0000,
    ensures
        decision(measurement, Some(current), threshold) == if n == 0 || m - n >= threshold || n
            - m >= threshold {
            Outcome::Publish(measurement)
        } else {
            Outcome::Skip
        },
{
    lemma_gap_of_whole_numbers(false, m, false, n);
    lemma_pow2_pos(149);
    let one = pow2(149);
    assert(n * one == 0 <==> n == 0) by (nonlinear_arith)
        requires
            one > 0,
    ;
}

/// A published reading is the measurement itself.
pub proof fn lemma_published_value_is_measurement(
    measurement: Binary32,
    recorded: Option<Binary32>,
    threshold: u32,
)
    ensures
        decision(measurement, recorded, threshold) matches Outcome::Publish(value) ==> value
            == measurement,
{
}

} // verus!
