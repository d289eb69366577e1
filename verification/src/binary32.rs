//! Single-precision readings, held as their IEEE 754 binary32 encodings.
//!
//! An encoding has one sign bit, eight exponent bits and 23 fraction bits.
//! Every finite value is a whole number of *units* of 2^-149, the smallest
//! positive magnitude the format can express, so the contracts measure finite
//! values in units and never meet a fraction.

use crate::rounding::{
    lemma_nearest_scaled,
    lemma_nearest_small,
    lemma_spacing_bracket,
    lemma_spacing_is_power_of_two,
    nearest,
    representable,
    round_to_parts,
};
use vstd::arithmetic::div_mod::{lemma_fundamental_div_mod, lemma_mod_multiples_basic};
use vstd::arithmetic::power2::{
    lemma2_to64,
    lemma_pow2_adds,
    lemma_pow2_pos,
    lemma_pow2_strictly_increases,
    lemma_pow2_unfold,
    pow2,
};
use vstd::prelude::*;

verus! {

/// What an encoding denotes.
pub enum Extended {
    /// Not a number.
    NotANumber,
    /// An infinity.
    Infinite { negative: bool },
    /// A finite value of `units` times 2^-149, negated if `negative`.
    Finite { negative: bool, units: nat },
}

impl Extended {
    /// Whether this is a finite value of magnitude zero, of either sign.
    pub open spec fn is_zero(self) -> bool {
        self matches Extended::Finite { units, .. } && units == 0
    }

    /// The whole number `n`, negated if `negative`.
    pub open spec fn whole(negative: bool, n: nat) -> Extended {
        Extended::Finite { negative, units: n * pow2(149) }
    }
}

/// A binary32 value, held as its encoding.
#[derive(Clone, Copy, Debug, PartialEq, Eq, Structural)]
pub struct Binary32 {
    pub bits: u32,
}

impl View for Binary32 {
    type V = Extended;

    open spec fn view(&self) -> Extended {
        if self.exponent() < 255 {
            Extended::Finite { negative: self.negative(), units: self.units() }
        } else if self.fraction() == 0 {
            Extended::Infinite { negative: self.negative() }
        } else {
            Extended::NotANumber
        }
    }
}

impl Binary32 {
    /// The sign bit.
    pub open spec fn negative(self) -> bool {
        self.bits >= 0x8000_0000
    }

    /// The exponent field, 0 to 255.
    pub open spec fn exponent(self) -> nat {
        (self.bits / 0x80_0000 % 0x100) as nat
    }

    /// The fraction field, below 2^23.
    pub open spec fn fraction(self) -> nat {
        (self.bits % 0x80_0000) as nat
    }

    /// The significand of a finite encoding: the fraction, with the implicit
    /// leading bit unless the exponent field is zero.
    pub open spec fn significand(self) -> nat {
        if self.exponent() == 0 {
            self.fraction()
        } else {
            0x80_0000 + self.fraction()
        }
    }

    /// The power of two by which the significand of a finite encoding is
    /// scaled to give its magnitude in units.
    pub open spec fn scale(self) -> nat {
        if self.exponent() == 0 {
            0
        } else {
            (self.exponent() - 1) as nat
        }
    }

    /// The magnitude of a finite encoding, in units of 2^-149.
    pub open spec fn units(self) -> nat {
        self.significand() * pow2(self.scale())
    }

    /// The value with the encoding `bits`.
    pub fn from_bits(bits: u32) -> (value: Binary32)
        ensures
            value.bits == bits,
    {
        Binary32 { bits }
    }

    /// The encoding of this value.
    pub fn to_bits(self) -> (bits: u32)
        ensures
            bits == self.bits,
    {
        self.bits
    }

    /// Positive zero.
    pub fn zero() -> (value: Binary32)
        ensures
            value.bits == 0,
            value@ == (Extended::Finite { negative: false, units: 0 }),
    {
        let value = Binary32 { bits: 0 };
        proof {
            lemma2_to64();
            assert(value.significand() == 0);
            assert(value.units() == 0);
        }
        value
    }

    /// The value nearest to the whole number `value`, which is that number
    /// itself below 2^24.
    pub fn from_u32(value: u32) -> (reading: Binary32)
        ensures
            reading@ == (Extended::Finite {
                negative: false,
                units: nearest(value as nat * pow2(149)),
            }),
            value < 0x100_0000 ==> reading@ == Extended::whole(false, value as nat),
    {
        let (rounded, shift) = round_to_parts(value as u64);
        let ghost units = nearest(value as nat * pow2(149));
        proof {
            lemma2_to64();
            lemma_pow2_pos(149);
            lemma_pow2_pos(shift as nat);
            lemma_pow2_adds(shift as nat, 149);
            lemma_nearest_scaled(value as nat, 149);
            if value < 0x100_0000 {
                lemma_nearest_small(value as nat);
            }
            assert(units == rounded * pow2((149 + shift) as nat)) by (nonlinear_arith)
                requires
                    units == nearest(value as nat) * pow2(149),
                    rounded * pow2(shift as nat) == nearest(value as nat),
                    pow2((149 + shift) as nat) == pow2(shift as nat) * pow2(149),
            ;
        }
        if rounded == 0 {
            proof {
                assert(units == 0) by (nonlinear_arith)
                    requires
                        units == 0 * pow2((149 + shift) as nat),
                ;
            }
            return Binary32::zero();
        }
        let mut significand: u32 = rounded as u32;
        let mut scale: u32 = 149 + shift;
        while significand < 0x80_0000
            invariant
                1 <= significand < 0x100_0000,
                126 <= scale <= 190,
                units == significand * pow2(scale as nat),
                scale <= 149 ==> significand >= pow2((149 - scale) as nat),
                scale > 149 ==> significand >= 0x80_0000,
            decreases scale,
        {
            proof {
                lemma2_to64();
                assert(scale > 126);
                lemma_pow2_unfold(scale as nat);
                lemma_pow2_unfold((149 - scale + 1) as nat);
                assert(significand * (2 * pow2((scale - 1) as nat)) == (2 * significand) * pow2(
                    (scale - 1) as nat,
                )) by (nonlinear_arith);
            }
            significand = 2 * significand;
            scale = scale - 1;
        }
        let reading = Binary32 { bits: (scale + 1) * 0x80_0000 + (significand - 0x80_0000) };
        proof {
            assert(reading.exponent() == scale + 1);
            assert(reading.fraction() == significand - 0x80_0000);
        }
        reading
    }

    /// Whether the sign bit is set.
    pub fn is_sign_negative(self) -> (negative: bool)
        ensures
            negative == self.negative(),
    {
        self.bits >= 0x8000_0000
    }

    /// The exponent field, biased as it is stored.
    pub fn biased_exponent(self) -> (exponent: u32)
        ensures
            exponent == self.exponent(),
            exponent <= 255,
    {
        let bits = self.bits;
        assert((bits >> 23) & 0xff == bits / 0x80_0000 % 0x100) by (bit_vector);
        (bits >> 23) & 0xff
    }

    /// The fraction field: the significand without its leading bit.
    pub fn trailing_significand(self) -> (fraction: u32)
        ensures
            fraction == self.fraction(),
            fraction < 0x80_0000,
    {
        let bits = self.bits;
        assert(bits & 0x7f_ffff == bits % 0x80_0000) by (bit_vector);
        bits & 0x7f_ffff
    }

    /// The significand of a finite value and the power of two that scales it
    /// to the magnitude in units.
    pub fn decompose(self) -> (parts: (u32, u32))
        ensures
            parts.0 == self.significand(),
            parts.1 == self.scale(),
            parts.0 < 0x100_0000,
            parts.1 <= 254,
            parts.1 > 0 ==> parts.0 >= 0x80_0000,
    {
        let exponent = self.biased_exponent();
        let fraction = self.trailing_significand();
        if exponent == 0 {
            (fraction, 0)
        } else {
            (0x80_0000 + fraction, exponent - 1)
        }
    }

    /// Whether this is not a number.
    pub fn is_nan(self) -> (nan: bool)
        ensures
            nan == (self@ is NotANumber),
    {
        self.biased_exponent() == 255 && self.trailing_significand() != 0
    }

    /// Whether this is an infinity.
    pub fn is_infinite(self) -> (infinite: bool)
        ensures
            infinite == (self@ is Infinite),
    {
        self.biased_exponent() == 255 && self.trailing_significand() == 0
    }

    /// Whether this is neither an infinity nor not a number.
    pub fn is_finite(self) -> (finite: bool)
        ensures
            finite == (self@ is Finite),
    {
        self.biased_exponent() < 255
    }

    /// Whether this is zero, of either sign.
    pub fn is_zero(self) -> (zero: bool)
        ensures
            zero == self@.is_zero(),
    {
        proof {
            self.lemma_units_zero();
        }
        self.biased_exponent() == 0 && self.trailing_significand() == 0
    }

    /// A finite value has one encoding only.
    pub proof fn lemma_finite_value_has_one_encoding(self, other: Binary32)
        requires
            self@ is Finite,
            self@ == other@,
        ensures
            self.bits == other.bits,
    {
        let units = self.units();
        lemma2_to64();
        lemma_pow2_pos(self.scale());
        lemma_pow2_pos(other.scale());
        self.lemma_units_bracket();
        other.lemma_units_bracket();
        if self.exponent() > 0 && other.exponent() > 0 {
            lemma_spacing_bracket(units, self.scale());
            lemma_spacing_bracket(units, other.scale());
            if self.scale() < other.scale() {
                lemma_pow2_strictly_increases(self.scale(), other.scale());
            }
            if other.scale() < self.scale() {
                lemma_pow2_strictly_increases(other.scale(), self.scale());
            }
            let step = pow2(self.scale());
            let mine = self.significand();
            let theirs = other.significand();
            assert(mine == theirs) by (nonlinear_arith)
                requires
                    mine * step == theirs * step,
                    step > 0,
            ;
        }
    }

    /// The magnitude of a finite encoding lies between 2^23 and 2^24 times
    /// the power of two of its scale, or below 2^23 where the exponent field
    /// is zero.
    pub proof fn lemma_units_bracket(self)
        ensures
            self.exponent() == 0 ==> self.units() == self.fraction() < 0x80_0000,
            self.exponent() > 0 ==> 0x80_0000 * pow2(self.scale()) <= self.units() < 0x100_0000
                * pow2(self.scale()),
    {
        lemma2_to64();
        lemma_pow2_pos(self.scale());
        let significand = self.significand();
        let step = pow2(self.scale());
        if self.exponent() > 0 {
            assert(0x80_0000 * step <= significand * step < 0x100_0000 * step)
                by (nonlinear_arith)
                requires
                    0x80_0000 <= significand < 0x100_0000,
                    step > 0,
            ;
        }
    }

    /// A magnitude is zero exactly when the exponent and fraction fields are.
    pub proof fn lemma_units_zero(self)
        ensures
            self.units() == 0 <==> self.exponent() == 0 && self.fraction() == 0,
    {
        lemma_pow2_pos(self.scale());
        let significand = self.significand();
        let step = pow2(self.scale());
        assert(significand * step == 0 <==> significand == 0) by (nonlinear_arith)
            requires
                step > 0,
        ;
    }

    /// The magnitude of a finite encoding is representable.
    pub proof fn lemma_units_are_representable(self)
        ensures
            representable(self.units()),
    {
        self.lemma_units_bracket();
        if self.exponent() > 0 {
            lemma_spacing_bracket(self.units(), self.scale());
            lemma_mod_multiples_basic(self.significand() as int, pow2(self.scale()) as int);
        } else {
            assert(self.units() % 1 == 0);
        }
    }

    /// Every representable magnitude below 2^277 units, which is 2^128, has
    /// an encoding of either sign: the one that is returned.
    pub proof fn lemma_representable_has_encoding(negative: bool, units: nat) -> (encoding:
        Binary32)
        requires
            representable(units),
            units < 0x100_0000 * pow2(253),
        ensures
            encoding@ == (Extended::Finite { negative, units }),
    {
        let sign: u32 = if negative {
            0x8000_0000
        } else {
            0
        };
        lemma2_to64();
        if units < 0x80_0000 {
            let encoding = Binary32 { bits: (sign + units) as u32 };
            assert(encoding.exponent() == 0);
            assert(encoding.fraction() == units);
            assert(encoding.scale() == 0);
            encoding
        } else {
            let exponent = lemma_spacing_is_power_of_two(units);
            let step = pow2(exponent);
            let significand = units / step;
            lemma_pow2_pos(exponent);
            lemma_pow2_unfold(254);
            assert(exponent <= 253) by {
                if exponent > 254 {
                    lemma_pow2_strictly_increases(254, exponent);
                }
            }
            lemma_fundamental_div_mod(units as int, step as int);
            assert(0x80_0000 <= significand < 0x100_0000 && units == significand * step)
                by (nonlinear_arith)
                requires
                    units == step * significand,
                    0x80_0000 * step <= units < 0x100_0000 * step,
                    step > 0,
            ;
            let encoding = Binary32 {
                bits: (sign + (exponent + 1) * 0x80_0000 + (significand - 0x80_0000)) as u32,
            };
            assert(encoding.exponent() == exponent + 1);
            assert(encoding.fraction() == significand - 0x80_0000);
            encoding
        }
    }
}

} // verus!
