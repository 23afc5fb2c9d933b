//! Fractions, rates and temperatures as they travel through the program: the
//! bit patterns of IEEE 754 numbers, with the comparisons and the narrowing that
//! the rules need. Arithmetic on them is done where they are measured and drawn.

use crate::order::SortKey;
use crate::util;
use vstd::prelude::*;

verus! {

/// A number of 32 bits: sign, 8 bits of exponent, 23 bits of fraction.
#[derive(Clone, Copy, Debug, Default, PartialEq, Eq, Structural)]
pub struct Single {
    pub bits: u32,
}

/// A number of 64 bits: sign, 11 bits of exponent, 52 bits of fraction.
#[derive(Clone, Copy, Debug, Default, PartialEq, Eq, Structural)]
pub struct Double {
    pub bits: u64,
}

impl Single {
    #[verifier::allow_in_spec]
    pub fn zero() -> (r: Single)
        returns
            (Single { bits: 0 }),
    {
        Single { bits: 0 }
    }

    #[verifier::allow_in_spec]
    pub fn one() -> (r: Single)
        returns
            (Single { bits: 0x3f80_0000 }),
    {
        Single { bits: 0x3f80_0000 }
    }

    pub open spec fn magnitude(self) -> int {
        if self.bits >= 0x8000_0000 {
            self.bits - 0x8000_0000
        } else {
            self.bits as int
        }
    }

    /// Larger than infinity in magnitude: not a number.
    pub open spec fn nan(self) -> bool {
        self.magnitude() > 0x7f80_0000
    }

    /// A number that orders as the value does; both zeros have rank zero.
    pub open spec fn rank(self) -> int {
        if self.bits >= 0x8000_0000 {
            -self.magnitude()
        } else {
            self.magnitude()
        }
    }

    /// `self < other` of the values; false where either is not a number.
    pub open spec fn lt(self, other: Single) -> bool {
        !self.nan() && !other.nan() && self.rank() < other.rank()
    }

    fn rank_of(self) -> (r: i64)
        ensures
            r == self.rank(),
    {
        if self.bits >= 0x8000_0000 {
            -((self.bits - 0x8000_0000) as i64)
        } else {
            self.bits as i64
        }
    }

    pub fn is_nan(self) -> (r: bool)
        ensures
            r == self.nan(),
    {
        if self.bits >= 0x8000_0000 {
            self.bits - 0x8000_0000 > 0x7f80_0000
        } else {
            self.bits > 0x7f80_0000
        }
    }

    pub fn less(self, other: Single) -> (r: bool)
        ensures
            r == self.lt(other),
    {
        !self.is_nan() && !other.is_nan() && self.rank_of() < other.rank_of()
    }

    /// The value limited to the range from zero to one; what is not a number
    /// stays so.
    pub open spec fn clamped(self) -> Single {
        if self.lt(Single::zero()) {
            Single::zero()
        } else if Single::one().lt(self) {
            Single::one()
        } else {
            self
        }
    }

    /// A number from zero to one.
    pub open spec fn in_unit(self) -> bool {
        !self.nan() && Single::zero().rank() <= self.rank() <= Single::one().rank()
    }

    pub fn clamp_unit(self) -> (r: Single)
        ensures
            r == self.clamped(),
            !self.nan() ==> r.in_unit(),
    {
        if self.less(Single::zero()) {
            Single::zero()
        } else if Single::one().less(self) {
            Single::one()
        } else {
            self
        }
    }
}

impl Double {
    #[verifier::allow_in_spec]
    pub fn zero() -> (r: Double)
        returns
            (Double { bits: 0 }),
    {
        Double { bits: 0 }
    }

    pub open spec fn magnitude(self) -> int {
        if self.bits >= 0x8000_0000_0000_0000 {
            self.bits - 0x8000_0000_0000_0000
        } else {
            self.bits as int
        }
    }

    /// Larger than infinity in magnitude: not a number.
    pub open spec fn nan(self) -> bool {
        self.magnitude() > 0x7ff0_0000_0000_0000
    }

    /// A number that orders as the value does; both zeros have rank zero.
    pub open spec fn rank(self) -> int {
        if self.bits >= 0x8000_0000_0000_0000 {
            -self.magnitude()
        } else {
            self.magnitude()
        }
    }

    /// `self < other` of the values; false where either is not a number.
    pub open spec fn lt(self, other: Double) -> bool {
        !self.nan() && !other.nan() && self.rank() < other.rank()
    }

    fn rank_of(self) -> (r: i64)
        ensures
            r == self.rank(),
    {
        if self.bits >= 0x8000_0000_0000_0000 {
            -((self.bits - 0x8000_0000_0000_0000) as i64)
        } else {
            self.bits as i64
        }
    }

    pub fn is_nan(self) -> (r: bool)
        ensures
            r == self.nan(),
    {
        if self.bits >= 0x8000_0000_0000_0000 {
            self.bits - 0x8000_0000_0000_0000 > 0x7ff0_0000_0000_0000
        } else {
            self.bits > 0x7ff0_0000_0000_0000
        }
    }

    pub fn less(self, other: Double) -> (r: bool)
        ensures
            r == self.lt(other),
    {
        !self.is_nan() && !other.is_nan() && self.rank_of() < other.rank_of()
    }

    /// The nearest value of single precision, a tie to the even one. What is too
    /// large becomes infinite, and what is not a number stays so.
    pub open spec fn narrowed(self) -> Single {
        let m = narrowed_magnitude(self.magnitude());
        Single {
            bits: (if self.bits >= 0x8000_0000_0000_0000 {
                0x8000_0000 + m
            } else {
                m
            }) as u32,
        }
    }

    pub fn narrow(self) -> (r: Single)
        ensures
            r == self.narrowed(),
    {
        let negative: bool = self.bits >= 0x8000_0000_0000_0000;
        let m: u64 = if negative {
            self.bits - 0x8000_0000_0000_0000
        } else {
            self.bits
        };
        let n: u32 = narrow_magnitude(m);
        if negative {
            Single { bits: 0x8000_0000 + n }
        } else {
            Single { bits: n }
        }
    }

    /// The value is larger than zero.
    pub open spec fn positive(self) -> bool {
        Double::zero().lt(self)
    }

    pub fn is_positive(self) -> (r: bool)
        ensures
            r == self.positive(),
    {
        Double::zero().less(self)
    }
}

/// Bits of infinity in single precision.
pub const INFINITE: u32 = 0x7f80_0000;

/// Bits of what is not a number in single precision.
pub const NOT_A_NUMBER: u32 = 0x7fc0_0000;

/// The bits of a magnitude of double precision in single precision. The upper
/// bits are the exponent, biased by 1023 there and by 127 here; the others are
/// the fraction, of 52 bits there and 23 here. Below the smallest exponent the
/// unit is fixed.
pub open spec fn narrowed_magnitude(m: int) -> int {
    let exponent = m / 0x10_0000_0000_0000;
    let digits = 0x10_0000_0000_0000 + m % 0x10_0000_0000_0000;
    if m > 0x7ff0_0000_0000_0000 {
        NOT_A_NUMBER as int
    } else if exponent >= 897 {
        let v = (exponent - 897) * 0x80_0000 + util::round_half_even(
            digits as nat,
            0x2000_0000,
        );
        if v > INFINITE {
            INFINITE as int
        } else {
            v
        }
    } else if exponent >= 873 {
        util::round_half_even(
            digits as nat,
            vstd::arithmetic::power2::pow2((926 - exponent) as nat),
        ) as int
    } else {
        0
    }
}

fn narrow_magnitude(m: u64) -> (r: u32)
    requires
        m < 0x8000_0000_0000_0000,
    ensures
        r == narrowed_magnitude(m as int),
        r <= NOT_A_NUMBER,
{
    let exponent: u64 = m / 0x10_0000_0000_0000;
    let digits: u64 = 0x10_0000_0000_0000 + m % 0x10_0000_0000_0000;
    if m > 0x7ff0_0000_0000_0000 {
        NOT_A_NUMBER
    } else if exponent >= 897 {
        let q: u128 = util::round_div(digits as u128, 0x2000_0000);
        let v: u128 = (exponent - 897) as u128 * 0x80_0000 + q;
        if v > INFINITE as u128 {
            INFINITE
        } else {
            v as u32
        }
    } else if exponent >= 873 {
        let places: u64 = 926 - exponent;
        let mut unit: u128 = 0x4000_0000;
        let mut k: u64 = 30;
        proof {
            vstd::arithmetic::power2::lemma2_to64();
            vstd::arithmetic::power2::lemma2_to64_rest();
        }
        while k < places
            invariant
                30 <= k <= places <= 53,
                unit == vstd::arithmetic::power2::pow2(k as nat),
                vstd::arithmetic::power2::pow2(53) == 0x20_0000_0000_0000,
                0x4000_0000 <= unit <= 0x20_0000_0000_0000,
            decreases places - k,
        {
            proof {
                vstd::arithmetic::power2::lemma_pow2_strictly_increases(k as nat, 53);
                vstd::arithmetic::power2::lemma_pow2_unfold((k + 1) as nat);
                if k + 1 < 53 {
                    vstd::arithmetic::power2::lemma_pow2_strictly_increases((k + 1) as nat, 53);
                }
            }
            unit = unit * 2;
            k += 1;
        }
        let q: u128 = util::round_div(digits as u128, unit);
        assert(q <= 0x80_0000) by {
            assert(digits as int / unit as int <= digits as int / 0x4000_0000) by (nonlinear_arith)
                requires
                    unit >= 0x4000_0000,
                    digits >= 0,
            ;
        }
        q as u32
    } else {
        0
    }
}

/// The values, each limited to the range from zero to one.
pub open spec fn clamped_all(s: Seq<Single>) -> Seq<Single> {
    s.map_values(|x: Single| x.clamped())
}

pub fn clamp_all(v: &Vec<Single>) -> (r: Vec<Single>)
    ensures
        r@ == clamped_all(v@),
{
    let mut r: Vec<Single> = Vec::new();
    let mut i: usize = 0;
    while i < v.len()
        invariant
            i <= v.len(),
            r@ == clamped_all(v@).take(i as int),
        decreases v.len() - i,
    {
        r.push(v[i].clamp_unit());
        i += 1;
    }
    r
}

/// Sorts by value; for values that are numbers.
impl SortKey for Single {
    open spec fn le(self, other: Self) -> bool {
        self.rank() <= other.rank()
    }

    proof fn le_total(a: Self, b: Self) {
    }

    proof fn le_transitive(a: Self, b: Self, c: Self) {
    }

    fn less(&self, other: &Self) -> (r: bool) {
        self.rank_of() < other.rank_of()
    }
}

/// Sorts by value; for values that are numbers.
impl SortKey for Double {
    open spec fn le(self, other: Self) -> bool {
        self.rank() <= other.rank()
    }

    proof fn le_total(a: Self, b: Self) {
    }

    proof fn le_transitive(a: Self, b: Self, c: Self) {
    }

    fn less(&self, other: &Self) -> (r: bool) {
        self.rank_of() < other.rank_of()
    }
}

} // verus!
