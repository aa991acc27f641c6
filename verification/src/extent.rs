//! Extents: pairs of positions denoting contiguous regions of text.
//!
//! A *valid* extent is a pair of naturals `(p, q)` with `p <= q`.  An
//! `Extent` may also carry infinite positions; the two all-infinite
//! values `(-inf, -inf)` and `(+inf, +inf)` are the directional
//! sentinels that the access primitives return when no extent exists in
//! the queried direction.

use vstd::prelude::*;

use crate::position::Position;

verus! {

/// A finite extent as a pair of naturals `(start, end)`.
pub type ValidExtent = (u64, u64);

/// A pair of positions; either component may be a sentinel.
#[derive(Debug, Copy, Clone, PartialEq, Eq, Structural)]
pub struct Extent(pub Position, pub Position);

/// The sentinel returned by backward primitives when no extent starts
/// at or before the queried position.
pub open spec fn start_extent() -> Extent {
    Extent(Position::NegativeInfinity, Position::NegativeInfinity)
}

/// The sentinel returned by forward primitives when no extent ends at
/// or after the queried position.
pub open spec fn end_extent() -> Extent {
    Extent(Position::PositiveInfinity, Position::PositiveInfinity)
}

/// Lifts a finite extent into an `Extent` with two `Valid` positions.
pub open spec fn valid_extent(e: ValidExtent) -> Extent {
    Extent(Position::Valid(e.0), Position::Valid(e.1))
}

impl Extent {
    /// Whether both components are finite positions.
    pub open spec fn spec_is_valid(self) -> bool {
        self.0.spec_is_valid() && self.1.spec_is_valid()
    }

    /// The finite pair under a valid extent.
    pub open spec fn spec_unwrap(self) -> ValidExtent
        recommends
            self.spec_is_valid(),
    {
        (self.0->Valid_0, self.1->Valid_0)
    }

    pub fn is_valid(self) -> (r: bool)
        ensures
            r == self.spec_is_valid(),
    {
        self.0.is_valid() && self.1.is_valid()
    }

    /// Extracts the finite pair from an extent known not to be a
    /// sentinel.
    pub fn unwrap(self) -> (r: ValidExtent)
        requires
            self.spec_is_valid(),
        ensures
            r == self.spec_unwrap(),
            valid_extent(r) == self,
    {
        match self {
            Extent(Position::Valid(a), Position::Valid(b)) => (a, b),
            _ => unreached(),
        }
    }
}

impl From<ValidExtent> for Extent {
    fn from(v: ValidExtent) -> (r: Extent) {
        Extent(Position::Valid(v.0), Position::Valid(v.1))
    }
}

impl vstd::std_specs::convert::FromSpecImpl<ValidExtent> for Extent {
    open spec fn obeys_from_spec() -> bool {
        true
    }

    open spec fn from_spec(v: ValidExtent) -> Extent {
        valid_extent(v)
    }
}

} // verus!
