//! Numbers as the matcher compares them.
use vstd::prelude::*;

verus! {

/// A numeric feature value or band bound, reduced to what matching reads of it.
///
/// Matching only ever asks whether an observation lies above a bound, so a number
/// is carried by an integer key that orders exactly as the numbers do. A value that
/// compares false against everything (not a number) is kept apart.
#[derive(Debug, Clone, Copy, PartialEq, Eq, Structural)]
pub enum Quantity {
    /// Not a number: never above any bound, and no bound is ever above it.
    Undefined,
    /// A number, by its order key.
    Ordered(i64),
}

/// The key of positive infinity: above every finite number.
pub const INFINITY_KEY: i64 = 0x7fff_ffff_ffff_ffff;

/// The key of negative infinity: below every finite number.
pub const NEG_INFINITY_KEY: i64 = -0x7fff_ffff_ffff_ffff - 1;

/// A number that is neither undefined nor infinite.
pub open spec fn spec_is_finite(q: Quantity) -> bool {
    match q {
        Quantity::Ordered(k) => k != INFINITY_KEY && k != NEG_INFINITY_KEY,
        Quantity::Undefined => false,
    }
}

/// Whether `value` lies strictly above `bound`, the test that skips a band.
pub open spec fn spec_exceeds(value: Quantity, bound: Quantity) -> bool {
    match (value, bound) {
        (Quantity::Ordered(v), Quantity::Ordered(b)) => v > b,
        _ => false,
    }
}

impl Quantity {
    /// Whether this value lies strictly above `bound`.
    pub fn exceeds(&self, bound: &Quantity) -> (res: bool)
        ensures
            res == spec_exceeds(*self, *bound),
    {
        match (self, bound) {
            (Quantity::Ordered(v), Quantity::Ordered(b)) => *v > *b,
            _ => false,
        }
    }

    /// Whether this is a finite number.
    pub fn is_finite(&self) -> (res: bool)
        ensures
            res == spec_is_finite(*self),
    {
        match self {
            Quantity::Ordered(k) => *k != INFINITY_KEY && *k != NEG_INFINITY_KEY,
            Quantity::Undefined => false,
        }
    }

    /// Whether this is a number at all.
    pub fn is_defined(&self) -> (res: bool)
        ensures
            res == (*self is Ordered),
    {
        match self {
            Quantity::Ordered(_) => true,
            Quantity::Undefined => false,
        }
    }
}

} // verus!
