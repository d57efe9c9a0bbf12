use vstd::prelude::*;

verus! {

/// A floating-point number held as its IEEE-754 binary64 bit pattern.
///
/// The ranking logic reads only three things of a number: whether it is NaN,
/// whether it is infinite, and how it compares with another non-NaN number.
/// All three are read off the bits.
#[derive(Clone, Copy, Debug, PartialEq, Eq, Structural)]
pub struct Num {
    pub bits: u64,
}

pub const EXP_MASK: u64 = 0x7ff;

pub const FRAC_MASK: u64 = 0x000f_ffff_ffff_ffff;

pub const MAG_MASK: u64 = 0x7fff_ffff_ffff_ffff;

pub open spec fn exp_of(b: u64) -> u64 {
    (b >> 52u64) & EXP_MASK
}

pub open spec fn frac_of(b: u64) -> u64 {
    b & FRAC_MASK
}

pub open spec fn neg_of(b: u64) -> bool {
    (b >> 63u64) == 1
}

/// The bits with the sign cleared: the magnitude, monotone in the absolute value.
pub open spec fn mag_of(b: u64) -> u64 {
    b & MAG_MASK
}

/// No entry of `xs` is NaN.
pub open spec fn nan_free(xs: Seq<Num>) -> bool {
    forall|i: int| 0 <= i < xs.len() ==> !(#[trigger] xs[i]).is_nan_spec()
}

impl Num {
    pub open spec fn is_nan_spec(self) -> bool {
        exp_of(self.bits) == EXP_MASK && frac_of(self.bits) != 0
    }

    pub open spec fn is_infinite_spec(self) -> bool {
        exp_of(self.bits) == EXP_MASK && frac_of(self.bits) == 0
    }

    pub open spec fn is_finite_spec(self) -> bool {
        exp_of(self.bits) != EXP_MASK
    }

    /// The position of a non-NaN number on the number line, as an integer:
    /// both zeros sit at 0, and the infinities at the two ends.
    pub open spec fn key(self) -> int {
        if neg_of(self.bits) {
            -(mag_of(self.bits) as int)
        } else {
            mag_of(self.bits) as int
        }
    }

    pub fn from_bits(bits: u64) -> (r: Num)
        ensures
            r.bits == bits,
    {
        Num { bits }
    }

    pub fn is_nan(&self) -> (r: bool)
        ensures
            r == self.is_nan_spec(),
    {
        (self.bits >> 52u64) & EXP_MASK == EXP_MASK && self.bits & FRAC_MASK != 0
    }

    pub fn is_infinite(&self) -> (r: bool)
        ensures
            r == self.is_infinite_spec(),
    {
        (self.bits >> 52u64) & EXP_MASK == EXP_MASK && self.bits & FRAC_MASK == 0
    }

    pub fn is_finite(&self) -> (r: bool)
        ensures
            r == self.is_finite_spec(),
    {
        (self.bits >> 52u64) & EXP_MASK != EXP_MASK
    }

    /// The number's place on the number line, as `key` states it.
    pub fn key_exec(&self) -> (r: i64)
        ensures
            r as int == self.key(),
    {
        let b = self.bits;
        let mag = b & MAG_MASK;
        assert(mag <= MAG_MASK) by (bit_vector)
            requires
                mag == b & MAG_MASK,
        ;
        if (b >> 63u64) == 1 {
            -(mag as i64)
        } else {
            mag as i64
        }
    }
}

} // verus!
