//! Single-precision numbers as bit patterns.
//!
//! Every decision of this library that looks at a real number only compares it.
//! Comparing needs nothing but the IEEE-754 bit pattern, so that is all [`F32`]
//! holds; arithmetic on the numbers stays with the caller.
use vstd::prelude::*;

verus! {

/// The bit pattern of a single-precision number (`to_bits` of the number).
#[derive(Clone, Copy, Debug)]
pub struct F32 {
    pub bits: u32,
}

/// `==` on numbers: false as soon as one of the two is not a number, and true of the two zeros.
impl PartialEq for F32 {
    fn eq(&self, other: &F32) -> (r: bool) {
        !self.is_nan() && !other.is_nan() && self.rank_of() == other.rank_of()
    }
}

impl vstd::std_specs::cmp::PartialEqSpecImpl for F32 {
    open spec fn obeys_eq_spec() -> bool {
        true
    }

    open spec fn eq_spec(&self, other: &F32) -> bool {
        !self.nan() && !other.nan() && self.rank() == other.rank()
    }
}

impl F32 {
    /// Whether the sign bit is set.
    pub open spec fn negative(self) -> bool {
        self.bits >= 0x8000_0000
    }

    /// Exponent and fraction read as one integer: it grows with the absolute value.
    pub open spec fn magnitude(self) -> int {
        if self.negative() {
            self.bits - 0x8000_0000
        } else {
            self.bits as int
        }
    }

    /// Whether the pattern stands for no number.
    pub open spec fn nan(self) -> bool {
        self.magnitude() > 0x7f80_0000
    }

    /// Place on the number line: numbers compare as their ranks do, and both zeros have rank 0.
    pub open spec fn rank(self) -> int {
        if self.negative() {
            -self.magnitude()
        } else {
            self.magnitude()
        }
    }

    /// `self < other` on numbers: false as soon as one of the two is not a number.
    pub open spec fn below(self, other: F32) -> bool {
        !self.nan() && !other.nan() && self.rank() < other.rank()
    }

    /// `self <= other` on numbers: false as soon as one of the two is not a number.
    pub open spec fn within(self, other: F32) -> bool {
        !self.nan() && !other.nan() && self.rank() <= other.rank()
    }

    /// Place in the total order over all bit patterns: negative patterns first, by falling
    /// magnitude, then the positive ones, by growing magnitude.
    pub open spec fn total(self) -> int {
        if self.negative() {
            -1 - self.magnitude()
        } else {
            self.magnitude()
        }
    }

    /// Place in the order that puts all patterns without a number together, above every number.
    pub open spec fn nan_last(self) -> int {
        if self.nan() {
            0x8000_0000
        } else {
            self.rank()
        }
    }

    /// The number zero.
    pub open spec fn is_zero(self) -> bool {
        self.rank() == 0
    }

    /// Positive zero.
    pub fn zero() -> (r: F32)
        ensures
            r.bits == 0,
            r.is_zero(),
    {
        F32 { bits: 0 }
    }

    /// The number one.
    pub fn one() -> (r: F32)
        ensures
            r.bits == 0x3f80_0000,
    {
        F32 { bits: 0x3f80_0000 }
    }

    /// Positive infinity.
    pub fn infinity() -> (r: F32)
        ensures
            r.bits == 0x7f80_0000,
    {
        F32 { bits: 0x7f80_0000 }
    }

    fn signed_magnitude(self) -> (r: (bool, i64))
        ensures
            r.0 == self.negative(),
            r.1 == self.magnitude(),
    {
        if self.bits >= 0x8000_0000 {
            (true, (self.bits - 0x8000_0000) as i64)
        } else {
            (false, self.bits as i64)
        }
    }

    /// Whether the pattern stands for no number.
    pub fn is_nan(self) -> (r: bool)
        ensures
            r == self.nan(),
    {
        self.signed_magnitude().1 > 0x7f80_0000
    }

    fn rank_of(self) -> (r: i64)
        ensures
            r == self.rank(),
    {
        let (negative, magnitude) = self.signed_magnitude();
        if negative {
            -magnitude
        } else {
            magnitude
        }
    }

    /// `self < other` on numbers.
    pub fn lt(self, other: F32) -> (r: bool)
        ensures
            r == self.below(other),
    {
        !self.is_nan() && !other.is_nan() && self.rank_of() < other.rank_of()
    }

    /// `self <= other` on numbers.
    pub fn le(self, other: F32) -> (r: bool)
        ensures
            r == self.within(other),
    {
        !self.is_nan() && !other.is_nan() && self.rank_of() <= other.rank_of()
    }

    /// Place in the total order over all bit patterns.
    pub fn total_rank(self) -> (r: i64)
        ensures
            r == self.total(),
    {
        let (negative, magnitude) = self.signed_magnitude();
        if negative {
            -1 - magnitude
        } else {
            magnitude
        }
    }

    /// Place in the order that puts the patterns without a number above every number.
    pub fn nan_last_rank(self) -> (r: i64)
        ensures
            r == self.nan_last(),
    {
        if self.is_nan() {
            0x8000_0000
        } else {
            self.rank_of()
        }
    }
}

/// The total order is an order on bit patterns: two patterns share a place only if they are equal.
pub proof fn lemma_total_is_injective(a: F32, b: F32)
    ensures
        a.total() == b.total() <==> a == b,
{
}

/// On numbers the total order refines `<`: it tells apart only the two zeros besides.
pub proof fn lemma_total_refines_below(a: F32, b: F32)
    requires
        !a.nan(),
        !b.nan(),
    ensures
        a.below(b) ==> a.total() < b.total(),
        a.total() < b.total() ==> a.within(b),
{
}

/// Comparison in terms of the bit patterns: numbers without a sign bit compare as their patterns
/// do, setting the sign bit of both turns the comparison round, and a number with a sign bit is
/// below every one without, except that the two zeros are level.
pub proof fn lemma_below_on_patterns(a: F32, b: F32, minus_a: F32, minus_b: F32)
    requires
        a.bits <= 0x7f80_0000,
        b.bits <= 0x7f80_0000,
        minus_a.bits == a.bits + 0x8000_0000,
        minus_b.bits == b.bits + 0x8000_0000,
    ensures
        a.below(b) <==> a.bits < b.bits,
        a.within(b) <==> a.bits <= b.bits,
        minus_a.below(minus_b) <==> b.bits < a.bits,
        minus_a.within(minus_b) <==> b.bits <= a.bits,
        minus_a.below(b) <==> a.bits > 0 || b.bits > 0,
        minus_a.within(b),
        !a.below(minus_b),
        a.is_zero() <==> a.bits == 0,
        minus_a.is_zero() <==> a.bits == 0,
{
}

/// What is no number compares with nothing.
pub proof fn lemma_nan_unordered(a: F32, b: F32)
    requires
        0x7f80_0000 < a.bits < 0x8000_0000 || a.bits > 0xff80_0000,
    ensures
        a.nan(),
        !a.below(b),
        !b.below(a),
        !a.within(b),
        !b.within(a),
        !a.is_zero(),
{
}

} // verus!
