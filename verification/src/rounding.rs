//! Rounding of exact magnitudes to the precision of binary32.
//!
//! Magnitudes are counted in units of 2^-149. A magnitude is representable
//! when 24 significant bits hold it; any other is rounded to the nearest
//! representable one, and a tie goes to the one with the even significand.
//! The largest exponent of the format sets no limit here: what rounds beyond
//! it is cut off where the rounded magnitude is used.

use vstd::arithmetic::div_mod::{
    lemma_div_by_multiple,
    lemma_div_denominator,
    lemma_fundamental_div_mod,
    lemma_fundamental_div_mod_converse,
    lemma_mod_multiples_basic,
};
use vstd::arithmetic::power2::{
    lemma2_to64,
    lemma2_to64_rest,
    lemma_pow2_pos,
    lemma_pow2_strictly_increases,
    lemma_pow2_unfold,
    pow2,
};
use vstd::prelude::*;

verus! {

/// The distance between neighbouring representable magnitudes at `d`:
/// 1 below 2^24, and twice as much with each further bit of `d`.
pub open spec fn spacing(d: nat) -> nat
    decreases d,
{
    if d < 0x100_0000 {
        1
    } else {
        2 * spacing(d / 2)
    }
}

/// The representable magnitude nearest to `d`.
pub open spec fn nearest(d: nat) -> nat {
    let step = spacing(d);
    let below = d / step;
    let rest = d % step;
    if 2 * rest > step || (2 * rest == step && below % 2 == 1) {
        (below + 1) * step
    } else {
        below * step
    }
}

/// Whether 24 significant bits hold the magnitude `d`: whether `d` is a
/// multiple of the spacing at `d`.
pub open spec fn representable(d: nat) -> bool {
    d % spacing(d) == 0
}

/// The spacing is never zero.
pub proof fn lemma_spacing_positive(d: nat)
    ensures
        spacing(d) >= 1,
    decreases d,
{
    if d >= 0x100_0000 {
        lemma_spacing_positive(d / 2);
    }
}

/// Between 2^23 and 2^24 times a power of two, the spacing is that power.
pub proof fn lemma_spacing_bracket(d: nat, k: nat)
    requires
        0x80_0000 * pow2(k) <= d < 0x100_0000 * pow2(k),
    ensures
        spacing(d) == pow2(k),
    decreases k,
{
    if k == 0 {
        lemma2_to64();
    } else {
        lemma_pow2_unfold(k);
        lemma_pow2_pos((k - 1) as nat);
        lemma_spacing_bracket(d / 2, (k - 1) as nat);
    }
}

/// Below 2^24 every magnitude rounds to itself.
pub proof fn lemma_nearest_small(d: nat)
    requires
        d < 0x100_0000,
    ensures
        nearest(d) == d,
{
    assert(spacing(d) == 1);
    assert(d / 1 == d && d % 1 == 0);
}

/// Doubling a magnitude doubles what it rounds to.
pub proof fn lemma_nearest_double(d: nat)
    ensures
        nearest(2 * d) == 2 * nearest(d),
{
    if d >= 0x80_0000 {
        let step = spacing(d);
        let below = d / step;
        let rest = d % step;
        lemma_spacing_positive(d);
        assert((2 * d) / 2 == d);
        assert(spacing(2 * d) == 2 * step);
        lemma_fundamental_div_mod(d as int, step as int);
        assert(2 * d == below * (2 * step) + 2 * rest) by (nonlinear_arith)
            requires
                d == step * below + rest,
        ;
        lemma_fundamental_div_mod_converse(
            (2 * d) as int,
            (2 * step) as int,
            below as int,
            (2 * rest) as int,
        );
        assert((below + 1) * (2 * step) == 2 * ((below + 1) * step)) by (nonlinear_arith);
        assert(below * (2 * step) == 2 * (below * step)) by (nonlinear_arith);
    } else {
        lemma_nearest_small(d);
        lemma_nearest_small(2 * d);
    }
}

/// Scaling a magnitude by a power of two scales what it rounds to.
pub proof fn lemma_nearest_scaled(d: nat, k: nat)
    ensures
        nearest(d * pow2(k)) == nearest(d) * pow2(k),
    decreases k,
{
    if k == 0 {
        lemma2_to64();
    } else {
        let half = pow2((k - 1) as nat);
        lemma_pow2_unfold(k);
        lemma_nearest_scaled(d, (k - 1) as nat);
        lemma_nearest_double(d * half);
        assert(d * (2 * half) == 2 * (d * half)) by (nonlinear_arith);
        assert(nearest(d) * (2 * half) == 2 * (nearest(d) * half)) by (nonlinear_arith);
    }
}

/// A magnitude rounds to a representable one with a full significand when
/// it lies less than a quarter of that one's power of two away from it.
pub proof fn lemma_nearest_absorbs(d: nat, m: nat, k: nat, e: nat)
    requires
        0x80_0000 <= m < 0x100_0000,
        4 * e < pow2(k),
        d == m * pow2(k) + e || d == m * pow2(k) - e,
    ensures
        nearest(d) == m * pow2(k),
{
    let p = pow2(k);
    lemma_pow2_pos(k);
    assert(0x80_0000 * p <= m * p < 0x100_0000 * p) by (nonlinear_arith)
        requires
            0x80_0000 <= m < 0x100_0000,
            p > 0,
    ;
    if e == 0 {
        lemma_nearest_small(m);
        lemma_nearest_scaled(m, k);
    } else if d == m * p + e {
        assert(m * p + p <= 0x100_0000 * p) by (nonlinear_arith)
            requires
                m < 0x100_0000,
                p > 0,
        ;
        lemma_spacing_bracket(d, k);
        lemma_fundamental_div_mod_converse(d as int, p as int, m as int, e as int);
    } else if m > 0x80_0000 {
        assert((m - 1) * p == m * p - p && 0x80_0000 * p <= (m - 1) * p) by (nonlinear_arith)
            requires
                0x80_0000 < m,
                p > 0,
        ;
        lemma_spacing_bracket(d, k);
        lemma_fundamental_div_mod_converse(d as int, p as int, m - 1, p - e);
    } else {
        assert(k >= 1) by {
            lemma2_to64();
        }
        let half = pow2((k - 1) as nat);
        lemma_pow2_unfold(k);
        lemma_spacing_bracket(d, (k - 1) as nat);
        lemma_fundamental_div_mod_converse(d as int, half as int, 0xff_ffff, half - e);
    }
}

/// How often the spacing has doubled at `d`.
spec fn doublings(d: nat) -> nat
    decreases d,
{
    if d < 0x100_0000 {
        0
    } else {
        1 + doublings(d / 2)
    }
}

/// The spacing at `d` is a power of two, and `d` lies between 2^23 and 2^24
/// times it unless `d` is below 2^23.
proof fn lemma_spacing_brackets(d: nat)
    ensures
        spacing(d) == pow2(doublings(d)),
        d < 0x100_0000 * spacing(d),
        d >= 0x80_0000 ==> 0x80_0000 * spacing(d) <= d,
    decreases d,
{
    if d < 0x100_0000 {
        lemma2_to64();
    } else {
        lemma_spacing_brackets(d / 2);
        lemma_pow2_unfold(doublings(d));
    }
}

/// The spacing at `d` is the power of two with the exponent that is
/// returned, and `d` lies between 2^23 and 2^24 times it unless `d` is below
/// 2^23.
pub proof fn lemma_spacing_is_power_of_two(d: nat) -> (exponent: nat)
    ensures
        spacing(d) == pow2(exponent),
        d < 0x100_0000 * pow2(exponent),
        d >= 0x80_0000 ==> 0x80_0000 * pow2(exponent) <= d,
{
    lemma_spacing_brackets(d);
    doublings(d)
}

/// A multiple of the spacing at `d` that lies between 2^23 and 2^24 times
/// that spacing is representable.
proof fn lemma_full_multiple_is_representable(d: nat, m: nat)
    requires
        0x80_0000 <= m <= 0x100_0000,
    ensures
        representable(m * spacing(d)),
        m < 0x100_0000 ==> spacing(m * spacing(d)) == spacing(d),
{
    let step = spacing(d);
    let k = doublings(d);
    lemma_spacing_brackets(d);
    lemma_pow2_pos(k);
    if m < 0x100_0000 {
        assert(0x80_0000 * step <= m * step < 0x100_0000 * step) by (nonlinear_arith)
            requires
                0x80_0000 <= m < 0x100_0000,
                step > 0,
        ;
        lemma_spacing_bracket(m * step, k);
        lemma_mod_multiples_basic(m as int, step as int);
    } else {
        lemma_pow2_unfold(k + 1);
        assert(m * step == 0x80_0000 * (2 * step));
        lemma_pow2_pos(k + 1);
        lemma_spacing_bracket(m * step, k + 1);
        lemma_mod_multiples_basic(0x80_0000, (2 * step) as int);
    }
}

/// What a magnitude rounds to is representable.
pub proof fn lemma_nearest_is_representable(d: nat)
    ensures
        representable(nearest(d)),
{
    if d < 0x100_0000 {
        lemma_nearest_small(d);
        assert(d % 1 == 0);
    } else {
        let step = spacing(d);
        let below = d / step;
        lemma_spacing_brackets(d);
        lemma_quotient_is_full(d);
        lemma_full_multiple_is_representable(d, below);
        lemma_full_multiple_is_representable(d, below + 1);
    }
}

/// From 2^24 on, a magnitude holds between 2^23 and 2^24 spacings.
proof fn lemma_quotient_is_full(d: nat)
    requires
        d >= 0x100_0000,
    ensures
        0x80_0000 <= d / spacing(d) < 0x100_0000,
{
    let step = spacing(d);
    let below = d / step;
    lemma_spacing_brackets(d);
    lemma_fundamental_div_mod(d as int, step as int);
    assert(0x80_0000 <= below < 0x100_0000) by (nonlinear_arith)
        requires
            d == step * below + d % step,
            0 <= d % step < step,
            0x80_0000 * step <= d < 0x100_0000 * step,
    ;
}

/// No representable magnitude is nearer to `d` than the one `d` rounds to.
pub proof fn lemma_nearest_is_closest(d: nat, other: nat)
    requires
        representable(other),
    ensures
        other >= d ==> other - d >= nearest(d) - d && other - d >= d - nearest(d),
        other <= d ==> d - other >= nearest(d) - d && d - other >= d - nearest(d),
{
    if d < 0x100_0000 {
        lemma_nearest_small(d);
    } else {
        let step = spacing(d);
        let below = d / step;
        let rest = d % step;
        lemma_spacing_brackets(d);
        lemma_quotient_is_full(d);
        lemma_fundamental_div_mod(d as int, step as int);
        assert((below + 1) * step == below * step + step && step * below == below * step)
            by (nonlinear_arith);
        if below * step < other < (below + 1) * step {
            // Nothing representable lies strictly between two neighbours.
            assert(0x80_0000 * step <= below * step && (below + 1) * step <= 0x100_0000 * step)
                by (nonlinear_arith)
                requires
                    0x80_0000 <= below < 0x100_0000,
                    step > 0,
            ;
            lemma_spacing_bracket(other, doublings(d));
            let times = other / step;
            lemma_fundamental_div_mod(other as int, step as int);
            assert(false) by (nonlinear_arith)
                requires
                    other == step * times,
                    below * step < other < (below + 1) * step,
                    step > 0,
            ;
        }
    }
}

/// Where two representable magnitudes are equally near, a magnitude rounds
/// to the one with the even significand.
pub proof fn lemma_nearest_of_tie_is_even(d: nat)
    requires
        2 * (d % spacing(d)) == spacing(d),
    ensures
        (nearest(d) / spacing(nearest(d))) % 2 == 0,
{
    let step = spacing(d);
    let below = d / step;
    assert(d >= 0x100_0000);
    lemma_spacing_brackets(d);
    lemma_quotient_is_full(d);
    let chosen = if below % 2 == 1 {
        below + 1
    } else {
        below
    };
    assert(nearest(d) == chosen * step);
    lemma_full_multiple_is_representable(d, chosen);
    if chosen < 0x100_0000 {
        lemma_div_by_multiple(chosen as int, step as int);
    } else {
        let k = doublings(d);
        lemma_pow2_unfold(k + 1);
        lemma_pow2_pos(k + 1);
        assert(chosen * step == 0x80_0000 * (2 * step));
        lemma_spacing_bracket(chosen * step, k + 1);
        lemma_div_by_multiple(0x80_0000, (2 * step) as int);
    }
}

/// A representable magnitude rounds to itself.
pub proof fn lemma_nearest_keeps_representable(d: nat)
    requires
        representable(d),
    ensures
        nearest(d) == d,
{
    let step = spacing(d);
    lemma_spacing_positive(d);
    lemma_fundamental_div_mod(d as int, step as int);
    assert(step * (d / step) == (d / step) * step) by (nonlinear_arith);
}

/// Rounding keeps the order of magnitudes.
pub proof fn lemma_nearest_is_monotone(smaller: nat, larger: nat)
    requires
        smaller <= larger,
    ensures
        nearest(smaller) <= nearest(larger),
{
    if nearest(smaller) > nearest(larger) {
        lemma_nearest_is_representable(smaller);
        lemma_nearest_is_representable(larger);
        lemma_nearest_is_closest(smaller, nearest(larger));
        lemma_nearest_is_closest(larger, nearest(smaller));
        // Both lie halfway between what they round to, so they are equal.
        assert(smaller == larger);
    }
}

/// Rounds `d` to the nearest representable magnitude, which is returned as
/// a significand below 2^24 and the power of two that scales it; the power
/// is the least that allows such a significand.
pub fn round_to_parts(d: u64) -> (parts: (u64, u32))
    ensures
        parts.0 * pow2(parts.1 as nat) == nearest(d as nat),
        parts.0 < 0x100_0000,
        parts.1 <= 41,
        parts.1 > 0 ==> parts.0 >= 0x80_0000,
{
    let mut below: u64 = d;
    let mut step: u64 = 1;
    let mut shift: u32 = 0;
    proof {
        lemma2_to64();
    }
    while below >= 0x100_0000
        invariant
            1 <= step <= 0x100_0000_0000,
            step == pow2(shift as nat),
            shift <= 40,
            shift > 0 ==> below >= 0x80_0000,
            below == d / step,
            spacing(d as nat) == step * spacing(below as nat),
        decreases below,
    {
        proof {
            lemma_fundamental_div_mod(d as int, step as int);
            assert(step < 0x100_0000_0000) by (nonlinear_arith)
                requires
                    step * below <= d,
                    below >= 0x100_0000,
                    d <= u64::MAX,
            ;
            lemma2_to64_rest();
            if shift > 40 {
                lemma_pow2_strictly_increases(40, shift as nat);
            }
            if shift + 1 < 40 {
                lemma_pow2_strictly_increases(shift as nat + 1, 40);
            }
            lemma_pow2_unfold(shift as nat + 1);
            lemma_div_denominator(d as int, step as int, 2);
            assert(step * (2 * spacing((below / 2) as nat)) == (step * 2) * spacing(
                (below / 2) as nat,
            )) by (nonlinear_arith);
        }
        below = below / 2;
        step = step * 2;
        shift = shift + 1;
    }
    let rest: u64 = d % step;
    proof {
        assert(step * 1 == step);
    }
    if 2 * rest > step || (2 * rest == step && below % 2 == 1) {
        if below + 1 == 0x100_0000 {
            proof {
                lemma_pow2_unfold(shift as nat + 1);
                assert(0x100_0000 * step == 0x80_0000 * (2 * step));
            }
            (0x80_0000, shift + 1)
        } else {
            (below + 1, shift)
        }
    } else {
        (below, shift)
    }
}

} // verus!
