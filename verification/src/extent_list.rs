//! The leaf operator: a sorted, immutable extent list.
//!
//! A slice of valid extents that satisfies the GC-list invariant is
//! itself an operator; each primitive is answered by binary search on
//! the coordinate it queries.

use vstd::prelude::*;

use crate::algebra::Algebra;
use crate::extent::{Extent, ValidExtent};
use crate::gclist::{
    gc_list, lemma_first_end_geq_at, lemma_first_start_geq_at, lemma_last_end_leq_at,
    lemma_last_start_leq_at,
};
use crate::position::Position;

verus! {

impl Algebra for [ValidExtent] {
    open spec fn extents(&self) -> Seq<ValidExtent> {
        self@
    }

    open spec fn inv(&self) -> bool {
        gc_list(self@)
    }

    proof fn lemma_extents_gc(&self) {
    }

    fn tau(&self, k: Position) -> (r: Extent) {
        let kv: u64 = match k {
            Position::NegativeInfinity => 0,
            Position::Valid(x) => x,
            Position::PositiveInfinity => {
                return Extent(Position::PositiveInfinity, Position::PositiveInfinity);
            },
        };
        let mut lo: usize = 0;
        let mut hi: usize = self.len();
        while lo < hi
            invariant
                lo <= hi <= self@.len(),
                gc_list(self@),
                forall|j: int| 0 <= j < lo ==> (#[trigger] self@[j]).0 < kv,
                forall|j: int| hi <= j < self@.len() ==> (#[trigger] self@[j]).0 >= kv,
            decreases hi - lo,
        {
            let mid = lo + (hi - lo) / 2;
            if self[mid].0 < kv {
                lo = mid + 1;
            } else {
                hi = mid;
            }
        }
        proof {
            lemma_first_start_geq_at(self@, kv, lo as int);
        }
        if lo < self.len() {
            let e = self[lo];
            Extent(Position::Valid(e.0), Position::Valid(e.1))
        } else {
            Extent(Position::PositiveInfinity, Position::PositiveInfinity)
        }
    }

    fn tau_prime(&self, k: Position) -> (r: Extent) {
        let kv: u64 = match k {
            Position::NegativeInfinity => {
                return Extent(Position::NegativeInfinity, Position::NegativeInfinity);
            },
            Position::Valid(x) => x,
            Position::PositiveInfinity => u64::MAX,
        };
        let mut lo: usize = 0;
        let mut hi: usize = self.len();
        while lo < hi
            invariant
                lo <= hi <= self@.len(),
                gc_list(self@),
                forall|j: int| 0 <= j < lo ==> (#[trigger] self@[j]).1 <= kv,
                forall|j: int| hi <= j < self@.len() ==> (#[trigger] self@[j]).1 > kv,
            decreases hi - lo,
        {
            let mid = lo + (hi - lo) / 2;
            if self[mid].1 <= kv {
                lo = mid + 1;
            } else {
                hi = mid;
            }
        }
        proof {
            lemma_last_end_leq_at(self@, kv, lo - 1);
        }
        if lo > 0 {
            let e = self[lo - 1];
            Extent(Position::Valid(e.0), Position::Valid(e.1))
        } else {
            Extent(Position::NegativeInfinity, Position::NegativeInfinity)
        }
    }

    fn rho(&self, k: Position) -> (r: Extent) {
        let kv: u64 = match k {
            Position::NegativeInfinity => 0,
            Position::Valid(x) => x,
            Position::PositiveInfinity => {
                return Extent(Position::PositiveInfinity, Position::PositiveInfinity);
            },
        };
        let mut lo: usize = 0;
        let mut hi: usize = self.len();
        while lo < hi
            invariant
                lo <= hi <= self@.len(),
                gc_list(self@),
                forall|j: int| 0 <= j < lo ==> (#[trigger] self@[j]).1 < kv,
                forall|j: int| hi <= j < self@.len() ==> (#[trigger] self@[j]).1 >= kv,
            decreases hi - lo,
        {
            let mid = lo + (hi - lo) / 2;
            if self[mid].1 < kv {
                lo = mid + 1;
            } else {
                hi = mid;
            }
        }
        proof {
            lemma_first_end_geq_at(self@, kv, lo as int);
        }
        if lo < self.len() {
            let e = self[lo];
            Extent(Position::Valid(e.0), Position::Valid(e.1))
        } else {
            Extent(Position::PositiveInfinity, Position::PositiveInfinity)
        }
    }

    fn rho_prime(&self, k: Position) -> (r: Extent) {
        let kv: u64 = match k {
            Position::NegativeInfinity => {
                return Extent(Position::NegativeInfinity, Position::NegativeInfinity);
            },
            Position::Valid(x) => x,
            Position::PositiveInfinity => u64::MAX,
        };
        let mut lo: usize = 0;
        let mut hi: usize = self.len();
        while lo < hi
            invariant
                lo <= hi <= self@.len(),
                gc_list(self@),
                forall|j: int| 0 <= j < lo ==> (#[trigger] self@[j]).0 <= kv,
                forall|j: int| hi <= j < self@.len() ==> (#[trigger] self@[j]).0 > kv,
            decreases hi - lo,
        {
            let mid = lo + (hi - lo) / 2;
            if self[mid].0 <= kv {
                lo = mid + 1;
            } else {
                hi = mid;
            }
        }
        proof {
            lemma_last_start_leq_at(self@, kv, lo - 1);
        }
        if lo > 0 {
            let e = self[lo - 1];
            Extent(Position::Valid(e.0), Position::Valid(e.1))
        } else {
            Extent(Position::NegativeInfinity, Position::NegativeInfinity)
        }
    }
}

} // verus!
