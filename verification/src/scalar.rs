//! Scalar numbers as the renderer carries them: IEEE-754 double precision
//! values, held by their bit patterns.
//!
//! No arithmetic is done on them here. They are compared, negated and chosen
//! among, all of which is exact, and each such operation is stated over the
//! number that the bit pattern denotes. That number is described in units of
//! 2^-1074, the smallest positive double, so that every finite value is an
//! integer.

use vstd::arithmetic::power2::{
    lemma2_to64_rest,
    lemma_pow2_adds,
    lemma_pow2_pos,
    lemma_pow2_strictly_increases,
    lemma_pow2_unfold,
    pow2,
};
use vstd::prelude::*;

verus! {

/// The sign bit of a double.
pub const SIGN_BIT: u64 = 0x8000_0000_0000_0000;

/// The bit pattern of positive infinity. Larger patterns, the sign aside, are
/// not numbers.
pub const INFINITE: u64 = 0x7ff0_0000_0000_0000;

/// Two to the power of 52: one more than the largest fraction field, and the
/// leading bit that a normal double has without storing it.
pub const HIDDEN_BIT: u64 = 0x10_0000_0000_0000;

/// The bit pattern of the number one.
pub const ONE: u64 = 0x3ff0_0000_0000_0000;

/// A double precision value, held by its bit pattern.
#[derive(Clone, Copy, Debug)]
pub struct Scalar {
    pub bits: u64,
}

/// The size of the number with the given bit pattern, sign aside, in units of
/// 2^-1074. A subnormal pattern is its own size; a normal one has the hidden
/// bit put before its fraction and is doubled with each step of the exponent.
/// Infinity comes out beyond every finite value.
pub open spec fn magnitude_of(size: u64) -> nat {
    let exponent = (size / HIDDEN_BIT) as nat;
    let fraction = (size % HIDDEN_BIT) as nat;
    if exponent == 0 {
        fraction
    } else {
        ((HIDDEN_BIT + fraction) * pow2((exponent - 1) as nat)) as nat
    }
}

/// A larger bit pattern denotes a larger size.
pub proof fn lemma_magnitude_increases(a: u64, b: u64)
    requires
        a < b,
    ensures
        magnitude_of(a) < magnitude_of(b),
{
    let h = HIDDEN_BIT as int;
    let ea = (a / HIDDEN_BIT) as nat;
    let fa = (a % HIDDEN_BIT) as int;
    let eb = (b / HIDDEN_BIT) as nat;
    let fb = (b % HIDDEN_BIT) as int;
    assert(ea <= eb);
    assert(eb >= 1 ==> magnitude_of(b) >= h * pow2((eb - 1) as nat)) by {
        if eb >= 1 {
            let p = pow2((eb - 1) as nat) as int;
            assert((h + fb) * p >= h * p) by (nonlinear_arith)
                requires
                    fb >= 0,
                    p >= 0,
            ;
        }
    }
    if ea == eb {
        assert(fa < fb);
        if ea > 0 {
            let p = pow2((ea - 1) as nat) as int;
            lemma_pow2_pos((ea - 1) as nat);
            assert((h + fa) * p < (h + fb) * p) by (nonlinear_arith)
                requires
                    fa < fb,
                    p > 0,
            ;
        }
    } else if ea == 0 {
        let p = pow2((eb - 1) as nat) as int;
        lemma_pow2_pos((eb - 1) as nat);
        assert(h * p >= h) by (nonlinear_arith)
            requires
                p >= 1,
                h >= 0,
        ;
    } else {
        let pa = pow2((ea - 1) as nat) as int;
        let pb = pow2((eb - 1) as nat) as int;
        lemma_pow2_unfold(ea);
        lemma_pow2_pos((ea - 1) as nat);
        if ea < eb - 1 {
            lemma_pow2_strictly_increases(ea, (eb - 1) as nat);
        }
        assert(pow2(ea) <= pb);
        assert((h + fa) * pa < h * (2 * pa)) by (nonlinear_arith)
            requires
                fa < h,
                pa > 0,
        ;
        assert(h * (2 * pa) <= h * pb) by (nonlinear_arith)
            requires
                2 * pa <= pb,
                h >= 0,
        ;
    }
}

/// The number one is 2^1074 units.
pub proof fn lemma_one_is_the_unit()
    ensures
        magnitude_of(ONE) == pow2(1074),
{
    lemma2_to64_rest();
    lemma_pow2_adds(52, 1022);
    assert(ONE / HIDDEN_BIT == 1023);
    assert(ONE % HIDDEN_BIT == 0);
}

impl Scalar {
    /// The sign bit is set. True of negative numbers and of negative zero.
    pub open spec fn negative(self) -> bool {
        self.bits >= SIGN_BIT
    }

    /// The bit pattern without its sign bit.
    pub open spec fn size(self) -> u64 {
        if self.bits >= SIGN_BIT {
            (self.bits - SIGN_BIT) as u64
        } else {
            self.bits
        }
    }

    /// The pattern denotes no number.
    pub open spec fn nan(self) -> bool {
        self.size() > INFINITE
    }

    /// The number denoted, in units of 2^-1074. Both zeros denote zero.
    /// Meaningful unless the pattern is [`nan`](Scalar::nan).
    pub open spec fn scaled(self) -> int {
        if self.negative() {
            -(magnitude_of(self.size()) as int)
        } else {
            magnitude_of(self.size()) as int
        }
    }

    /// The same pattern with the other sign.
    pub open spec fn opposite(self) -> Scalar {
        if self.bits >= SIGN_BIT {
            Scalar { bits: (self.bits - SIGN_BIT) as u64 }
        } else {
            Scalar { bits: (self.bits + SIGN_BIT) as u64 }
        }
    }

    /// Turning the sign gives the opposite number, leaves the size alone, and
    /// leaves what is no number so; turning it twice gives the value back.
    pub proof fn lemma_opposite(self)
        ensures
            self.opposite().scaled() == -self.scaled(),
            self.opposite().size() == self.size(),
            self.opposite().negative() == !self.negative(),
            self.opposite().nan() == self.nan(),
            self.opposite().opposite() == self,
    {
    }

    /// `self < other` as numbers. False whenever either is no number.
    pub open spec fn lt(self, other: Scalar) -> bool {
        !self.nan() && !other.nan() && self.scaled() < other.scaled()
    }

    /// `self <= other` as numbers. False whenever either is no number.
    pub open spec fn le(self, other: Scalar) -> bool {
        !self.nan() && !other.nan() && self.scaled() <= other.scaled()
    }

    /// The value with the given bit pattern.
    pub fn from_bits(bits: u64) -> (value: Scalar)
        ensures
            value.bits == bits,
    {
        Scalar { bits }
    }

    /// The bit pattern of the value.
    pub fn to_bits(self) -> (bits: u64)
        ensures
            bits == self.bits,
    {
        self.bits
    }

    /// Positive zero.
    pub fn zero() -> (value: Scalar)
        ensures
            value.bits == 0,
            !value.nan(),
            value.scaled() == 0,
    {
        Scalar { bits: 0 }
    }

    /// The bit pattern without its sign bit.
    pub fn size_bits(self) -> (size: u64)
        ensures
            size == self.size(),
    {
        if self.bits >= SIGN_BIT {
            self.bits - SIGN_BIT
        } else {
            self.bits
        }
    }

    /// Whether the value is no number.
    pub fn is_nan(self) -> (nan: bool)
        ensures
            nan == self.nan(),
    {
        self.size_bits() > INFINITE
    }

    /// Whether the sign bit is set.
    pub fn is_sign_negative(self) -> (negative: bool)
        ensures
            negative == self.negative(),
    {
        self.bits >= SIGN_BIT
    }

    /// The value with its sign turned.
    pub fn negated(self) -> (opposite: Scalar)
        ensures
            opposite == self.opposite(),
    {
        if self.bits >= SIGN_BIT {
            Scalar { bits: self.bits - SIGN_BIT }
        } else {
            Scalar { bits: self.bits + SIGN_BIT }
        }
    }

    /// The value without its sign: the number denoted is the absolute value.
    pub fn absolute(self) -> (size: Scalar)
        ensures
            size.bits == self.size(),
            size.nan() == self.nan(),
            size.scaled() == magnitude_of(self.size()),
    {
        Scalar { bits: self.size_bits() }
    }

    /// Whether `self < other` as numbers.
    pub fn less(self, other: Scalar) -> (less: bool)
        ensures
            less == self.lt(other),
    {
        if self.is_nan() || other.is_nan() {
            return false;
        }
        let a: u64 = self.size_bits();
        let b: u64 = other.size_bits();
        proof {
            if a < b {
                lemma_magnitude_increases(a, b);
            }
            if b < a {
                lemma_magnitude_increases(b, a);
            }
            if 0 < a {
                lemma_magnitude_increases(0, a);
            }
            if 0 < b {
                lemma_magnitude_increases(0, b);
            }
        }
        if self.bits >= SIGN_BIT {
            if other.bits >= SIGN_BIT {
                b < a
            } else {
                a != 0 || b != 0
            }
        } else {
            if other.bits >= SIGN_BIT {
                false
            } else {
                a < b
            }
        }
    }

    /// Whether `self <= other` as numbers.
    pub fn at_most(self, other: Scalar) -> (at_most: bool)
        ensures
            at_most == self.le(other),
    {
        if self.is_nan() || other.is_nan() {
            return false;
        }
        !other.less(self)
    }
}

} // verus!
