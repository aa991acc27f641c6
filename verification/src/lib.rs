//! A region (extent) algebra for structured text search.
//!
//! Documents and their substructures are represented uniformly as sets of
//! intervals ("extents") over a single totally ordered position space, and
//! queries are built by composing interval operators: containment,
//! exclusion, sequencing, union, conjunction.  The result of any query is
//! itself a list of extents, reachable lazily through a small uniform
//! access interface of four primitives (`tau`, `rho`, `tau_prime`,
//! `rho_prime`).
//!
//! Every operator is specified against its materialized result list (its
//! ghost `extents`), a strictly monotonic "GC-list": each primitive
//! returns exactly the extent that a search over the materialized list
//! would return, so arbitrarily nested operator trees satisfy one common
//! contract.

pub mod algebra;
pub mod both_of;
pub mod contained_in;
pub mod containing;
pub mod documents;
pub mod extent;
pub mod extent_list;
pub mod filtered;
pub mod followed_by;
pub mod gclist;
pub mod not_contained_in;
pub mod not_containing;
pub mod one_of;
pub mod position;
pub mod tokenizer;

pub use algebra::{Algebra, Empty, IterRho, IterRhoPrime, IterTau, IterTauPrime};
pub use both_of::BothOf;
pub use contained_in::ContainedIn;
pub use containing::Containing;
pub use documents::Documents;
pub use extent::{Extent, ValidExtent};
pub use followed_by::FollowedBy;
pub use not_contained_in::NotContainedIn;
pub use not_containing::NotContaining;
pub use one_of::OneOf;
pub use position::Position;
pub use tokenizer::tokenize;
