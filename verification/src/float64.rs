//! Double-precision numbers by their bits, and their conversion to single precision.
use crate::float32::{quiet_nan, signed, Float32, QUIET_NAN};
use crate::rounding::{nearest_scaled, round_scaled, INFINITE_MAGNITUDE};
use vstd::prelude::*;

verus! {

/// An IEEE-754 double-precision number.
#[derive(Debug, Clone, Copy, PartialEq, Eq, Structural)]
pub struct Float64 {
    pub bits: u64,
}

impl Float64 {
    pub open spec fn negative(self) -> bool {
        self.bits >= 0x8000_0000_0000_0000
    }

    /// The eleven bits of the exponent.
    pub open spec fn exponent(self) -> nat {
        (self.bits as nat / 0x10_0000_0000_0000) % 0x800
    }

    /// The fifty-two bits behind the exponent.
    pub open spec fn fraction(self) -> nat {
        self.bits as nat % 0x10_0000_0000_0000
    }

    /// The magnitude is this times two to the power `scale`.
    pub open spec fn significand(self) -> nat {
        if self.exponent() == 0 {
            self.fraction()
        } else {
            0x10_0000_0000_0000 + self.fraction()
        }
    }

    /// The exponent of the last bit, counted from two to the power -149.
    pub open spec fn scale(self) -> int {
        if self.exponent() == 0 {
            1 - 1075 + 149
        } else {
            self.exponent() - 1075 + 149
        }
    }
}

/// The single-precision number nearest to a double-precision one, ties to even.
pub open spec fn narrowed(x: Float64) -> Float32 {
    if x.exponent() == 0x7ff {
        if x.fraction() == 0 {
            signed(x.negative(), INFINITE_MAGNITUDE as nat)
        } else {
            quiet_nan()
        }
    } else {
        signed(x.negative(), nearest_scaled(x.significand(), 1, x.scale()))
    }
}

impl Float64 {
    pub fn from_bits(bits: u64) -> (r: Float64)
        ensures
            r.bits == bits,
    {
        Float64 { bits }
    }

    /// Converts to single precision.
    pub fn narrow(self) -> (r: Float32)
        ensures
            r == narrowed(self),
    {
        let exponent: u64 = (self.bits / 0x10_0000_0000_0000) % 0x800;
        let fraction: u64 = self.bits % 0x10_0000_0000_0000;
        let m: u32 = if exponent == 0x7ff {
            if fraction != 0 {
                return Float32 { bits: QUIET_NAN };
            }
            INFINITE_MAGNITUDE
        } else if exponent == 0 {
            round_scaled(fraction, 1, -925)
        } else {
            round_scaled(0x10_0000_0000_0000 + fraction, 1, exponent as i32 - 926)
        };
        if self.bits >= 0x8000_0000_0000_0000 {
            Float32 { bits: 0x8000_0000 + m }
        } else {
            Float32 { bits: m }
        }
    }
}

} // verus!
