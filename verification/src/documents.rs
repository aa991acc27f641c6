//! The document partitioner leaf.
//!
//! The 64-bit position space is split into a 32-bit document index
//! (high bits) and a 32-bit in-document offset (low bits).  Document
//! `d` occupies the extent from `(d, 0)` to `(d, 0xFFFF_FFFF)`; a
//! partitioner over `n` documents denotes the GC-list of those `n`
//! extents and synthesizes them on demand.

use vstd::prelude::*;

use crate::algebra::Algebra;
use crate::extent::{Extent, ValidExtent};
use crate::gclist::{
    lemma_first_end_geq_at, lemma_first_start_geq_at, lemma_last_end_leq_at,
    lemma_last_start_leq_at,
};
use crate::position::Position;

verus! {

/// The size of one document's slice of the position space.
pub const DOC_SPAN: u64 = 0x1_0000_0000;

/// The extent occupied by document `d`.
pub open spec fn doc_extent_spec(d: int) -> ValidExtent
    recommends
        0 <= d < DOC_SPAN,
{
    ((d * (DOC_SPAN as int)) as u64, (d * (DOC_SPAN as int) + 0xFFFF_FFFF) as u64)
}

/// Maps document indices to extents occupying fixed slices of the
/// position space.
#[derive(Debug, Copy, Clone)]
pub struct Documents {
    count: u32,
}

impl Documents {
    /// A partitioner over `count` documents.
    pub fn new(count: u32) -> (r: Documents)
        ensures
            r.inv(),
            r.extents() == Seq::new(count as nat, |d: int| doc_extent_spec(d)),
    {
        Documents { count }
    }

    /// The extent of document `d`, built from the split position
    /// encoding.
    fn doc_index_to_extent(self, doc: u32) -> (r: Extent)
        requires
            (doc as int) < self.extents().len(),
        ensures
            r == crate::extent::valid_extent(self.extents()[doc as int]),
    {
        let start = (doc as u64) * DOC_SPAN;
        let end = start + 0xFFFF_FFFF;
        Extent(Position::Valid(start), Position::Valid(end))
    }
}

impl Algebra for Documents {
    closed spec fn extents(&self) -> Seq<ValidExtent> {
        Seq::new(self.count as nat, |d: int| doc_extent_spec(d))
    }

    open spec fn inv(&self) -> bool {
        true
    }

    proof fn lemma_extents_gc(&self) {
        assert forall|i: int, j: int|
            #![trigger self.extents()[i], self.extents()[j]]
            0 <= i < j < self.extents().len() implies self.extents()[i].0 < self.extents()[j].0
            && self.extents()[i].1 < self.extents()[j].1 by {
            assert(i * (DOC_SPAN as int) + (DOC_SPAN as int) <= j * (DOC_SPAN as int)) by (
            nonlinear_arith)
                requires
                    i < j,
            ;
        }
        assert forall|i: int| 0 <= i < self.extents().len() implies (
        #[trigger] self.extents()[i]).0 <= self.extents()[i].1 by {
            assert(i * (DOC_SPAN as int) >= 0) by (nonlinear_arith)
                requires
                    i >= 0,
            ;
        }
    }

    fn tau(&self, k: Position) -> (r: Extent) {
        let kv: u64 = match k {
            Position::NegativeInfinity => 0,
            Position::Valid(x) => x,
            Position::PositiveInfinity => {
                return Extent(Position::PositiveInfinity, Position::PositiveInfinity);
            },
        };
        let doc = kv / DOC_SPAN;
        let off = kv % DOC_SPAN;
        let ghost v = self.extents();
        // the first document starting at or after kv
        let cand: u64 = if off == 0 {
            doc
        } else {
            doc + 1
        };
        proof {
            assert(kv == doc * DOC_SPAN + off) by (nonlinear_arith)
                requires
                    doc == kv / DOC_SPAN && off == kv % DOC_SPAN && DOC_SPAN == 0x1_0000_0000u64,
            ;
            assert(off < DOC_SPAN) by (nonlinear_arith)
                requires
                    off == kv % DOC_SPAN && DOC_SPAN == 0x1_0000_0000u64,
            ;
            if cand < v.len() {
                lemma_first_start_geq_at(v, kv, cand as int);
            } else {
                lemma_first_start_geq_at(v, kv, v.len() as int);
            }
        }
        if cand < self.count as u64 {
            self.doc_index_to_extent(cand as u32)
        } else {
            Extent(Position::PositiveInfinity, Position::PositiveInfinity)
        }
    }

    fn tau_prime(&self, k: Position) -> (r: Extent) {
        let kv: u64 = match k {
            Position::NegativeInfinity => {
                return Extent(Position::NegativeInfinity, Position::NegativeInfinity);
            },
            Position::Valid(x) => x,
            Position::PositiveInfinity => u64::MAX,
        };
        let doc = kv / DOC_SPAN;
        let off = kv % DOC_SPAN;
        let ghost v = self.extents();
        proof {
            assert(kv == doc * DOC_SPAN + off) by (nonlinear_arith)
                requires
                    doc == kv / DOC_SPAN && off == kv % DOC_SPAN && DOC_SPAN == 0x1_0000_0000u64,
            ;
            assert(off < DOC_SPAN) by (nonlinear_arith)
                requires
                    off == kv % DOC_SPAN && DOC_SPAN == 0x1_0000_0000u64,
            ;
        }
        // the last document ending at or before kv: doc itself when kv
        // reaches its final offset, else the one before
        if off == DOC_SPAN - 1 || doc >= self.count as u64 {
            // every document at or before min(doc, count - 1) ends at or before kv
            if self.count == 0 {
                proof {
                    lemma_last_end_leq_at(v, kv, -1);
                }
                return Extent(Position::NegativeInfinity, Position::NegativeInfinity);
            }
            let cand: u64 = if doc < self.count as u64 - 1 {
                doc
            } else {
                self.count as u64 - 1
            };
            proof {
                lemma_last_end_leq_at(v, kv, cand as int);
            }
            self.doc_index_to_extent(cand as u32)
        } else {
            if doc == 0 {
                proof {
                    lemma_last_end_leq_at(v, kv, -1);
                }
                return Extent(Position::NegativeInfinity, Position::NegativeInfinity);
            }
            let cand: u64 = if doc - 1 < self.count as u64 - 1 {
                doc - 1
            } else {
                self.count as u64 - 1
            };
            proof {
                lemma_last_end_leq_at(v, kv, cand as int);
            }
            self.doc_index_to_extent(cand as u32)
        }
    }

    fn rho(&self, k: Position) -> (r: Extent) {
        let kv: u64 = match k {
            Position::NegativeInfinity => 0,
            Position::Valid(x) => x,
            Position::PositiveInfinity => {
                return Extent(Position::PositiveInfinity, Position::PositiveInfinity);
            },
        };
        let doc = kv / DOC_SPAN;
        let off = kv % DOC_SPAN;
        let ghost v = self.extents();
        proof {
            assert(kv == doc * DOC_SPAN + off) by (nonlinear_arith)
                requires
                    doc == kv / DOC_SPAN && off == kv % DOC_SPAN && DOC_SPAN == 0x1_0000_0000u64,
            ;
            assert(off < DOC_SPAN) by (nonlinear_arith)
                requires
                    off == kv % DOC_SPAN && DOC_SPAN == 0x1_0000_0000u64,
            ;
            if doc < v.len() {
                lemma_first_end_geq_at(v, kv, doc as int);
            } else {
                lemma_first_end_geq_at(v, kv, v.len() as int);
            }
        }
        if doc < self.count as u64 {
            self.doc_index_to_extent(doc as u32)
        } else {
            Extent(Position::PositiveInfinity, Position::PositiveInfinity)
        }
    }

    fn rho_prime(&self, k: Position) -> (r: Extent) {
        let kv: u64 = match k {
            Position::NegativeInfinity => {
                return Extent(Position::NegativeInfinity, Position::NegativeInfinity);
            },
            Position::Valid(x) => x,
            Position::PositiveInfinity => u64::MAX,
        };
        let doc = kv / DOC_SPAN;
        let off = kv % DOC_SPAN;
        let ghost v = self.extents();
        proof {
            assert(kv == doc * DOC_SPAN + off) by (nonlinear_arith)
                requires
                    doc == kv / DOC_SPAN && off == kv % DOC_SPAN && DOC_SPAN == 0x1_0000_0000u64,
            ;
            assert(off < DOC_SPAN) by (nonlinear_arith)
                requires
                    off == kv % DOC_SPAN && DOC_SPAN == 0x1_0000_0000u64,
            ;
        }
        if self.count == 0 {
            proof {
                lemma_last_start_leq_at(v, kv, -1);
            }
            return Extent(Position::NegativeInfinity, Position::NegativeInfinity);
        }
        let cand: u64 = if doc < self.count as u64 - 1 {
            doc
        } else {
            self.count as u64 - 1
        };
        proof {
            lemma_last_start_leq_at(v, kv, cand as int);
        }
        self.doc_index_to_extent(cand as u32)
    }
}

} // verus!
