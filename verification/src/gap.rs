//! The truncated distance between two readings.
//!
//! The distance is what single-precision arithmetic makes of it: the
//! difference is taken and rounded to the format's precision, its sign is
//! dropped, and the whole part of the result is kept as a 32-bit integer that
//! saturates at its maximum and is zero where the difference is not a number.

use crate::binary32::{Binary32, Extended};
use crate::rounding::{
    lemma_nearest_absorbs,
    lemma_nearest_is_monotone,
    lemma_nearest_scaled,
    lemma_nearest_small,
    nearest,
    round_to_parts,
};
use vstd::arithmetic::div_mod::{
    lemma_basic_div,
    lemma_div_by_multiple,
    lemma_div_denominator,
    lemma_div_is_ordered,
};
use vstd::arithmetic::power2::{
    lemma2_to64,
    lemma2_to64_rest,
    lemma_pow2_adds,
    lemma_pow2_pos,
    lemma_pow2_strictly_increases,
    pow2,
};
use vstd::bits::{lemma_u64_shl_is_mul, lemma_u64_shr_is_div};
use vstd::prelude::*;

verus! {

/// The whole part of a magnitude given in units of 2^-149, saturated at the
/// largest 32-bit integer.
pub open spec fn truncated(units: nat) -> nat {
    let whole = units / pow2(149);
    if whole > u32::MAX {
        u32::MAX as nat
    } else {
        whole
    }
}

/// The exact distance between two magnitudes with their signs: their sum
/// where the signs differ, their difference where they agree.
pub open spec fn exact_distance(
    a_negative: bool,
    a_units: nat,
    b_negative: bool,
    b_units: nat,
) -> nat {
    if a_negative != b_negative {
        a_units + b_units
    } else if a_units >= b_units {
        (a_units - b_units) as nat
    } else {
        (b_units - a_units) as nat
    }
}

/// The truncated distance between `a` and `b`.
///
/// Between finite values it is the exact distance, rounded to the nearest
/// representable magnitude and then truncated; a distance that rounds beyond
/// the format's range saturates like any other that is too large. A
/// difference that is not a number (an operand is not one, or both are the
/// same infinity) gives 0; any other difference with an infinity gives the
/// largest 32-bit integer.
pub open spec fn gap(a: Extended, b: Extended) -> nat {
    match (a, b) {
        (
            Extended::Finite { negative: a_negative, units: a_units },
            Extended::Finite { negative: b_negative, units: b_units },
        ) => truncated(nearest(exact_distance(a_negative, a_units, b_negative, b_units))),
        (Extended::NotANumber, _) => 0,
        (_, Extended::NotANumber) => 0,
        (Extended::Infinite { negative: a_negative }, Extended::Infinite { negative: b_negative }) => {
            if a_negative == b_negative {
                0
            } else {
                u32::MAX as nat
            }
        },
        _ => u32::MAX as nat,
    }
}

/// The distance does not depend on the order of the two values.
pub proof fn lemma_gap_is_symmetric(a: Extended, b: Extended)
    ensures
        gap(a, b) == gap(b, a),
{
}

/// The distance never exceeds the largest 32-bit integer.
pub proof fn lemma_gap_is_bounded(a: Extended, b: Extended)
    ensures
        gap(a, b) <= u32::MAX,
{
}

/// Every value is at distance zero from itself.
pub proof fn lemma_gap_to_itself(a: Extended)
    ensures
        gap(a, a) == 0,
{
    lemma_nearest_small(0);
    lemma_pow2_pos(149);
    lemma_basic_div(0, pow2(149) as int);
}

/// A larger exact distance never rounds and truncates to less.
pub proof fn lemma_gap_grows_with_distance(near: nat, far: nat)
    requires
        near <= far,
    ensures
        truncated(nearest(near)) <= truncated(nearest(far)),
{
    lemma_nearest_is_monotone(near, far);
    lemma_pow2_pos(149);
    lemma_div_is_ordered(nearest(near) as int, nearest(far) as int, pow2(149) as int);
}

/// Between whole numbers that are less than 2^24 apart the distance is the
/// plain one: their sum where the signs differ, their difference where they
/// agree.
pub proof fn lemma_gap_of_whole_numbers(a_negative: bool, m: nat, b_negative: bool, n: nat)
    requires
        exact_distance(a_negative, m, b_negative, n) < 0x100_0000,
    ensures
        gap(Extended::whole(a_negative, m), Extended::whole(b_negative, n)) == exact_distance(
            a_negative,
            m,
            b_negative,
            n,
        ),
{
    let one = pow2(149);
    let distance = exact_distance(a_negative, m, b_negative, n);
    lemma_pow2_pos(149);
    assert(exact_distance(a_negative, m * one, b_negative, n * one) == distance * one)
        by (nonlinear_arith)
        requires
            one > 0,
            distance == exact_distance(a_negative, m, b_negative, n),
    ;
    lemma_nearest_scaled(distance, 149);
    lemma_nearest_small(distance);
    lemma_div_by_multiple(distance as int, one as int);
}

/// Truncates the magnitude of `significand * 2^scale` units.
fn truncate_scaled(significand: u64, scale: u32) -> (whole: u32)
    ensures
        whole == truncated(significand as nat * pow2(scale as nat)),
{
    let ghost units = significand as nat * pow2(scale as nat);
    proof {
        lemma2_to64();
        lemma2_to64_rest();
        lemma_pow2_pos(149);
        lemma_pow2_pos(scale as nat);
    }
    if significand == 0 {
        proof {
            assert(units == 0) by (nonlinear_arith)
                requires
                    units == 0 * pow2(scale as nat),
            ;
            lemma_basic_div(0, pow2(149) as int);
        }
        0
    } else if scale >= 149 {
        let up: u32 = scale - 149;
        let ghost raised = significand as nat * pow2(up as nat);
        proof {
            lemma_pow2_adds(up as nat, 149);
            lemma_pow2_pos(up as nat);
            assert(units == raised * pow2(149)) by (nonlinear_arith)
                requires
                    units == significand as nat * (pow2(up as nat) * pow2(149)),
                    raised == significand as nat * pow2(up as nat),
            ;
            lemma_div_by_multiple(raised as int, pow2(149) as int);
            assert(raised >= significand) by (nonlinear_arith)
                requires
                    raised == significand as nat * pow2(up as nat),
                    pow2(up as nat) >= 1,
            ;
        }
        if up >= 32 || significand > 0xffff_ffff {
            proof {
                if up >= 32 {
                    if up > 32 {
                        lemma_pow2_strictly_increases(32, up as nat);
                    }
                    assert(raised >= pow2(up as nat)) by (nonlinear_arith)
                        requires
                            raised == significand as nat * pow2(up as nat),
                            significand >= 1,
                    ;
                }
            }
            u32::MAX
        } else {
            proof {
                if up < 31 {
                    lemma_pow2_strictly_increases(up as nat, 31);
                }
                assert(raised <= 0xffff_ffff * 0x8000_0000) by (nonlinear_arith)
                    requires
                        raised == significand as nat * pow2(up as nat),
                        significand <= 0xffff_ffff,
                        pow2(up as nat) <= 0x8000_0000,
                ;
                lemma_u64_shl_is_mul(significand, up as u64);
            }
            let raised: u64 = significand << up;
            if raised > 0xffff_ffff {
                u32::MAX
            } else {
                raised as u32
            }
        }
    } else {
        let down: u32 = 149 - scale;
        proof {
            lemma_pow2_adds(scale as nat, down as nat);
            lemma_pow2_pos(down as nat);
            lemma_div_by_multiple(significand as int, pow2(scale as nat) as int);
            lemma_div_denominator(units as int, pow2(scale as nat) as int, pow2(down as nat) as int);
            assert(units / pow2(149) == significand as nat / pow2(down as nat));
        }
        if down >= 64 {
            proof {
                if down > 64 {
                    lemma_pow2_strictly_increases(64, down as nat);
                }
                lemma_basic_div(significand as int, pow2(down as nat) as int);
            }
            0
        } else {
            proof {
                lemma_u64_shr_is_div(significand, down as u64);
            }
            let lowered: u64 = significand >> down;
            if lowered > 0xffff_ffff {
                u32::MAX
            } else {
                lowered as u32
            }
        }
    }
}

/// The truncated distance between two finite readings.
fn finite_gap(a: Binary32, b: Binary32) -> (distance: u32)
    requires
        a@ is Finite,
        b@ is Finite,
    ensures
        distance == gap(a@, b@),
{
    let opposed = a.is_sign_negative() != b.is_sign_negative();
    let (a_significand, a_scale) = a.decompose();
    let (b_significand, b_scale) = b.decompose();
    let (high, high_scale, low, low_scale) = if a_scale >= b_scale {
        (a_significand as u64, a_scale, b_significand as u64, b_scale)
    } else {
        (b_significand as u64, b_scale, a_significand as u64, a_scale)
    };
    let lead: u32 = high_scale - low_scale;
    let ghost exact = exact_distance(a.negative(), a.units(), b.negative(), b.units());
    let ghost high_units = high as nat * pow2(high_scale as nat);
    let ghost low_units = low as nat * pow2(low_scale as nat);
    let ghost base = pow2(low_scale as nat);
    proof {
        lemma2_to64();
        lemma2_to64_rest();
        lemma_pow2_pos(low_scale as nat);
        lemma_pow2_pos(lead as nat);
        lemma_pow2_adds(lead as nat, low_scale as nat);
        assert(exact == if opposed {
            high_units + low_units
        } else if high_units >= low_units {
            (high_units - low_units) as nat
        } else {
            (low_units - high_units) as nat
        });
    }
    if lead > 32 {
        // The lower operand is under a quarter of the higher one's power of
        // two, so the distance rounds to the higher operand's magnitude.
        proof {
            lemma_pow2_strictly_increases(32, lead as nat);
            assert(4 * low_units < pow2(high_scale as nat) && low_units < high_units)
                by (nonlinear_arith)
                requires
                    low_units == low as nat * base,
                    low < 0x100_0000,
                    base > 0,
                    pow2(high_scale as nat) == pow2(lead as nat) * base,
                    pow2(lead as nat) > 0x1_0000_0000,
                    high_units == high as nat * pow2(high_scale as nat),
                    high >= 0x80_0000,
            ;
            lemma_nearest_absorbs(exact, high as nat, high_scale as nat, low_units);
        }
        truncate_scaled(high, high_scale)
    } else {
        proof {
            if lead < 32 {
                lemma_pow2_strictly_increases(lead as nat, 32);
            }
            assert(high * pow2(lead as nat) <= 0x100_0000 * 0x1_0000_0000) by (nonlinear_arith)
                requires
                    high < 0x100_0000,
                    pow2(lead as nat) <= 0x1_0000_0000,
            ;
            lemma_u64_shl_is_mul(high, lead as u64);
        }
        let raised: u64 = high << lead;
        let difference: u64 = if opposed {
            raised + low
        } else if raised >= low {
            raised - low
        } else {
            low - raised
        };
        proof {
            assert(high_units == raised * base) by (nonlinear_arith)
                requires
                    high_units == high as nat * (pow2(lead as nat) * base),
                    raised == high * pow2(lead as nat),
            ;
            assert(exact == difference * base) by (nonlinear_arith)
                requires
                    high_units == raised * base,
                    low_units == low * base,
                    base > 0,
                    exact == if opposed {
                        high_units + low_units
                    } else if high_units >= low_units {
                        (high_units - low_units) as nat
                    } else {
                        (low_units - high_units) as nat
                    },
                    difference == if opposed {
                        raised + low
                    } else if raised >= low {
                        raised - low
                    } else {
                        low - raised
                    },
            ;
            lemma_nearest_scaled(difference as nat, low_scale as nat);
        }
        let (significand, shift) = round_to_parts(difference);
        proof {
            lemma_pow2_adds(shift as nat, low_scale as nat);
            assert(significand * pow2((low_scale + shift) as nat) == nearest(difference as nat)
                * base) by (nonlinear_arith)
                requires
                    significand * pow2(shift as nat) == nearest(difference as nat),
                    pow2((low_scale + shift) as nat) == pow2(shift as nat) * base,
            ;
        }
        truncate_scaled(significand, low_scale + shift)
    }
}

/// The truncated distance between two readings.
pub fn truncated_gap(a: Binary32, b: Binary32) -> (distance: u32)
    ensures
        distance == gap(a@, b@),
{
    if a.is_nan() || b.is_nan() {
        0
    } else if a.is_infinite() || b.is_infinite() {
        if a.is_infinite() && b.is_infinite() && a.is_sign_negative() == b.is_sign_negative() {
            0
        } else {
            u32::MAX
        }
    } else {
        finite_gap(a, b)
    }
}

} // verus!
