//! Exact fractions for rates and shares.

use vstd::prelude::*;

verus! {

/// The fraction `num / den`.
#[derive(Clone, Copy, PartialEq, Eq, Structural, Debug)]
pub struct Ratio {
    pub num: u64,
    pub den: u64,
}

impl Ratio {
    /// Zero.
    pub fn zero() -> (r: Ratio)
        ensures
            r == (Ratio { num: 0, den: 1 }),
    {
        Ratio { num: 0, den: 1 }
    }

    /// Whether the fraction is above `num / den`.
    pub open spec fn exceeds(&self, num: int, den: int) -> bool {
        self.num * den > num * self.den
    }

    /// Whether the fraction is `num / den` or above.
    pub open spec fn reaches(&self, num: int, den: int) -> bool {
        self.num * den >= num * self.den
    }

    /// Whether the fraction is above `num / den`.
    pub fn above(&self, num: u32, den: u32) -> (r: bool)
        ensures
            r == self.exceeds(num as int, den as int),
    {
        proof {
            lemma_fits(self.num, den);
            lemma_fits(self.den, num);
        }
        self.num as u128 * den as u128 > num as u128 * self.den as u128
    }

    /// Whether the fraction is `num / den` or above.
    pub fn at_least(&self, num: u32, den: u32) -> (r: bool)
        ensures
            r == self.reaches(num as int, den as int),
    {
        proof {
            lemma_fits(self.num, den);
            lemma_fits(self.den, num);
        }
        self.num as u128 * den as u128 >= num as u128 * self.den as u128
    }
}

proof fn lemma_fits(a: u64, b: u32)
    ensures
        0 <= a * b <= u128::MAX,
        a * b == b * a,
{
    assert(0 <= a * b <= 0xFFFF_FFFF_FFFF_FFFF * 0xFFFF_FFFF) by (nonlinear_arith)
        requires
            0 <= a <= 0xFFFF_FFFF_FFFF_FFFF,
            0 <= b <= 0xFFFF_FFFF,
    ;
    assert(a * b == b * a) by (nonlinear_arith);
}

} // verus!
