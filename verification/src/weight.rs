use vstd::prelude::*;
use vstd::arithmetic::power2::pow2;

verus! {

/// Two to the 52nd: the weight of the hidden bit of a normal significand.
pub const HIDDEN_BIT: u64 = 0x10_0000_0000_0000;

/// Two to the 63rd: the sign bit of a pattern.
pub const SIGN_BIT: u64 = 0x8000_0000_0000_0000;

/// The exponent field of infinities and of values that are not numbers.
pub const EXPONENT_SPECIAL: u64 = 0x7FF;

/// The sign of the value encoded by `bits`: true for negative values and
/// for negative zero.
pub open spec fn sign_bit(bits: u64) -> bool {
    bits >= SIGN_BIT
}

/// The eleven exponent bits of `bits`.
pub open spec fn exponent_field(bits: u64) -> nat {
    ((bits as nat) / (HIDDEN_BIT as nat)) % 0x800
}

/// The low fifty-two bits of `bits`.
pub open spec fn fraction_field(bits: u64) -> nat {
    (bits as nat) % (HIDDEN_BIT as nat)
}

/// Whether `bits` encodes a number, as opposed to an infinity or a value
/// that is not a number.
pub open spec fn is_finite(bits: u64) -> bool {
    exponent_field(bits) != EXPONENT_SPECIAL
}

/// The integer significand of a finite pattern: the fraction for a
/// subnormal value, the fraction with the hidden bit set for a normal one.
pub open spec fn significand(bits: u64) -> nat {
    if exponent_field(bits) == 0 {
        fraction_field(bits)
    } else {
        HIDDEN_BIT as nat + fraction_field(bits)
    }
}

/// The power of two by which the significand of a finite pattern is
/// multiplied, counted from the smallest subnormal value: the encoded
/// magnitude is `significand * 2^(scale - 1074)`.
pub open spec fn scale(bits: u64) -> nat {
    if exponent_field(bits) == 0 {
        0
    } else {
        (exponent_field(bits) - 1) as nat
    }
}

/// The magnitude of a finite pattern in units of the smallest subnormal
/// value, `2^-1074`. Every finite binary64 magnitude is a whole number of
/// these units, so ratios of magnitudes are ratios of the encoded values.
pub open spec fn magnitude(bits: u64) -> nat {
    significand(bits) * pow2(scale(bits))
}

/// Whether a finite pattern encodes a value above zero.
pub open spec fn is_positive(bits: u64) -> bool {
    !sign_bit(bits) && significand(bits) > 0
}

/// A finite binary64 value taken apart.
#[derive(Clone, Copy, Debug)]
pub struct Finite {
    /// The sign bit.
    pub negative: bool,
    /// The integer significand, below `2^53`.
    pub significand: u64,
    /// The power of two applied to it, at most 2045.
    pub scale: u32,
}

impl Finite {
    /// Whether the parts are those of the pattern `bits`.
    pub open spec fn decodes(&self, bits: u64) -> bool {
        &&& self.negative == sign_bit(bits)
        &&& self.significand == significand(bits)
        &&& self.scale == scale(bits)
    }

    /// The bounds that every decoded value keeps.
    pub open spec fn in_range(&self) -> bool {
        &&& self.significand < 2 * HIDDEN_BIT
        &&& self.scale <= 2045
    }

    /// The magnitude in units of `2^-1074`.
    pub open spec fn magnitude(&self) -> nat {
        self.significand as nat * pow2(self.scale as nat)
    }
}

/// Splits a binary64 bit pattern into sign, significand and scale, or
/// returns `None` for an infinity or a value that is not a number.
pub fn decode(bits: u64) -> (r: Option<Finite>)
    ensures
        r is Some <==> is_finite(bits),
        r matches Some(f) ==> f.decodes(bits) && f.in_range() && f.magnitude() == magnitude(bits),
{
    let negative: bool = bits >= SIGN_BIT;
    let exponent: u64 = (bits / HIDDEN_BIT) % 0x800;
    let fraction: u64 = bits % HIDDEN_BIT;
    if exponent == EXPONENT_SPECIAL {
        None
    } else if exponent == 0 {
        Some(Finite { negative, significand: fraction, scale: 0 })
    } else {
        Some(Finite { negative, significand: HIDDEN_BIT + fraction, scale: (exponent - 1) as u32 })
    }
}

} // verus!
