//! Positions: natural numbers extended with two infinite sentinels.
//!
//! A position is drawn from `{-inf} u N u {+inf}`, totally ordered with
//! `-inf < n < +inf` for every natural `n`.  The infinite values never
//! denote places in a document; they are directional signals that escape
//! from the access primitives and terminate iteration.

use vstd::prelude::*;

verus! {

/// A point in the shared position space, or one of the two directional
/// sentinels.
#[derive(Debug, Copy, Clone, PartialEq, Eq, Structural)]
pub enum Position {
    NegativeInfinity,
    Valid(u64),
    PositiveInfinity,
}

impl Position {
    /// The total order on positions: `-inf < Valid(n) < +inf`,
    /// and `Valid` positions ordered as their numbers.
    pub open spec fn spec_le(self, other: Position) -> bool {
        match (self, other) {
            (Position::NegativeInfinity, _) => true,
            (_, Position::PositiveInfinity) => true,
            (Position::Valid(a), Position::Valid(b)) => a <= b,
            _ => false,
        }
    }

    /// Strict version of the order.
    pub open spec fn spec_lt(self, other: Position) -> bool {
        self.spec_le(other) && self != other
    }

    /// The next greater position: infinities are fixed, and the greatest
    /// natural steps up to `+inf`.
    pub open spec fn spec_increment(self) -> Position {
        match self {
            Position::Valid(x) => if x == u64::MAX {
                Position::PositiveInfinity
            } else {
                Position::Valid((x + 1) as u64)
            },
            _ => self,
        }
    }

    /// The next smaller position: infinities are fixed, and zero steps
    /// down to `-inf`.
    pub open spec fn spec_decrement(self) -> Position {
        match self {
            Position::Valid(x) => if x == 0 {
                Position::NegativeInfinity
            } else {
                Position::Valid((x - 1) as u64)
            },
            _ => self,
        }
    }

    /// Whether this is a finite (natural-number) position.
    pub open spec fn spec_is_valid(self) -> bool {
        self is Valid
    }

    pub fn le(self, other: Position) -> (r: bool)
        ensures
            r == self.spec_le(other),
    {
        match (self, other) {
            (Position::NegativeInfinity, _) => true,
            (_, Position::PositiveInfinity) => true,
            (Position::Valid(a), Position::Valid(b)) => a <= b,
            _ => false,
        }
    }

    pub fn lt(self, other: Position) -> (r: bool)
        ensures
            r == self.spec_lt(other),
    {
        match (self, other) {
            (Position::Valid(a), Position::Valid(b)) => a < b,
            (Position::NegativeInfinity, Position::NegativeInfinity) => false,
            (Position::NegativeInfinity, _) => true,
            (Position::PositiveInfinity, _) => false,
            (_, Position::PositiveInfinity) => true,
            (_, Position::NegativeInfinity) => false,
        }
    }

    pub fn increment(self) -> (r: Position)
        ensures
            r == self.spec_increment(),
    {
        match self {
            Position::Valid(x) => if x == u64::MAX {
                Position::PositiveInfinity
            } else {
                Position::Valid(x + 1)
            },
            _ => self,
        }
    }

    pub fn decrement(self) -> (r: Position)
        ensures
            r == self.spec_decrement(),
    {
        match self {
            Position::Valid(x) => if x == 0 {
                Position::NegativeInfinity
            } else {
                Position::Valid(x - 1)
            },
            _ => self,
        }
    }

    pub fn is_valid(self) -> (r: bool)
        ensures
            r == self.spec_is_valid(),
    {
        match self {
            Position::Valid(_) => true,
            _ => false,
        }
    }
}

impl From<u64> for Position {
    fn from(v: u64) -> (r: Position) {
        Position::Valid(v)
    }
}

impl vstd::std_specs::convert::FromSpecImpl<u64> for Position {
    open spec fn obeys_from_spec() -> bool {
        true
    }

    open spec fn from_spec(v: u64) -> Position {
        Position::Valid(v)
    }
}

} // verus!
