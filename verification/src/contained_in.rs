//! The contained-in operator: extents of the first operand that lie
//! inside an extent of the second.
//!
//! Akin to finding needles in haystacks.  Its view is the first
//! child's view filtered to the extents some second-child extent
//! encloses.

use vstd::prelude::*;

use crate::algebra::Algebra;
use crate::extent::{valid_extent, Extent, ValidExtent};
use crate::filtered::{
    covered_by, covered_by_pred, lemma_filter_gc, lemma_filter_rho_none, lemma_filter_subset,
    lemma_filter_tau_found, lemma_filter_tau_none, lemma_filter_tau_prime_found,
    lemma_filter_tau_prime_none, lemma_tau_prime_rho_prime_align, lemma_tau_rho_align,
};
use crate::gclist::{
    bwd_key, first_end_geq, first_start_geq, fwd_key, gc_list, last_end_leq, last_start_leq,
    lemma_first_end_geq_char, lemma_first_start_geq_char, lemma_last_end_leq_char,
    lemma_last_start_leq_char,
};
use crate::position::Position;

verus! {

/// The view a contained-in operator denotes: the first list filtered
/// to the extents the second list encloses.
pub open spec fn contained_in_view(av: Seq<ValidExtent>, bv: Seq<ValidExtent>) -> Seq<
    ValidExtent,
> {
    av.filter(covered_by_pred(bv))
}

/// Finds extents from the first list that are contained in extents
/// from the second list.
#[derive(Debug, Copy, Clone)]
pub struct ContainedIn<A, B> where A: Algebra, B: Algebra {
    a: A,
    b: B,
}

impl<A, B> ContainedIn<A, B> where A: Algebra, B: Algebra {
    /// Composes the operator; well-formed children make it well-formed,
    /// and its view is the filtered view of the first child.
    pub fn new(a: A, b: B) -> (r: Self)
        ensures
            a.inv() && b.inv() ==> r.inv(),
            r.extents() == contained_in_view(a.extents(), b.extents()),
    {
        ContainedIn { a, b }
    }
}

impl<A, B> Algebra for ContainedIn<A, B> where A: Algebra, B: Algebra {
    closed spec fn extents(&self) -> Seq<ValidExtent> {
        contained_in_view(self.a.extents(), self.b.extents())
    }

    closed spec fn inv(&self) -> bool {
        self.a.inv() && self.b.inv()
    }

    proof fn lemma_extents_gc(&self) {
        self.a.lemma_extents_gc();
        lemma_filter_gc(self.a.extents(), covered_by_pred(self.b.extents()));
    }

    fn tau(&self, k: Position) -> (r: Extent) {
        let ghost av = self.a.extents();
        let ghost bv = self.b.extents();
        proof {
            self.a.lemma_extents_gc();
            self.b.lemma_extents_gc();
        }
        let mut cur = k;
        loop
            invariant
                self.a.inv(),
                self.b.inv(),
                av == self.a.extents(),
                bv == self.b.extents(),
                gc_list(av),
                gc_list(bv),
                fwd_key(k) <= fwd_key(cur),
                k is PositiveInfinity ==> cur is PositiveInfinity,
                !(k is PositiveInfinity) ==> forall|j: int|
                    0 <= j < av.len() && (#[trigger] av[j]).0 >= fwd_key(k) && (cur
                        is PositiveInfinity || av[j].0 < fwd_key(cur)) ==> !covered_by(bv, av[j]),
            decreases
                    (if cur is PositiveInfinity {
                        0int
                    } else {
                        av.len() - first_start_geq(av, fwd_key(cur))
                    }),
        {
            if let Position::PositiveInfinity = cur {
                proof {
                    if !(k is PositiveInfinity) {
                        lemma_filter_tau_none(av, covered_by_pred(bv), k);
                    }
                }
                return Extent(Position::PositiveInfinity, Position::PositiveInfinity);
            }
            let r0 = self.a.tau(cur);
            let ghost i = first_start_geq(av, fwd_key(cur));
            proof {
                lemma_first_start_geq_char(av, fwd_key(cur));
            }
            if !r0.is_valid() {
                // nothing of `a` starts at or after the cursor, so the
                // window covers every remaining candidate
                proof {
                    assert(i == av.len());
                    lemma_filter_tau_none(av, covered_by_pred(bv), k);
                }
                return Extent(Position::PositiveInfinity, Position::PositiveInfinity);
            }
            let (p0, q0) = r0.unwrap();
            proof {
                assert(i < av.len() && av[i] == (p0, q0));
            }
            let r1 = self.b.rho(Position::Valid(q0));
            let ghost mi = first_end_geq(bv, q0);
            proof {
                lemma_first_end_geq_char(bv, q0);
            }
            if r1.0.le(Position::Valid(p0)) {
                // the first haystack ending past q0 reaches back to p0:
                // this needle is enclosed
                proof {
                    assert(mi < bv.len() && bv[mi] == r1.spec_unwrap());
                    assert(covered_by(bv, av[i]));
                    lemma_filter_tau_found(av, covered_by_pred(bv), k, i);
                }
                return r0;
            } else {
                // no haystack covers any needle before the candidate's
                // start: advance the cursor there
                let ghost oldcur = cur;
                cur = r1.0;
                proof {
                    assert forall|j: int|
                        0 <= j < av.len() && (#[trigger] av[j]).0 >= fwd_key(k) && (cur
                            is PositiveInfinity || av[j].0 < fwd_key(cur)) implies !covered_by(
                        bv,
                        av[j],
                    ) by {
                        if av[j].0 >= fwd_key(oldcur) {
                            assert(j >= i);
                            assert(av[j].1 >= q0);
                            if covered_by(bv, av[j]) {
                                let m = choose|m: int|
                                    0 <= m < bv.len() && bv[m].0 <= av[j].0 && av[j].1 <= bv[m].1;
                                assert(bv[m].1 >= q0);
                                assert(m >= mi);
                                assert(mi < bv.len());
                                assert(bv[m].0 >= bv[mi].0);
                                assert(r1 == valid_extent(bv[mi]));
                                assert(false);
                            }
                        }
                    }
                    if !(cur is PositiveInfinity) {
                        let f2 = first_start_geq(av, fwd_key(cur));
                        lemma_first_start_geq_char(av, fwd_key(cur));
                        assert(av[i].0 < fwd_key(cur));
                        assert(f2 > i);
                    }
                }
            }
        }
    }

    fn tau_prime(&self, k: Position) -> (r: Extent) {
        let ghost av = self.a.extents();
        let ghost bv = self.b.extents();
        proof {
            self.a.lemma_extents_gc();
            self.b.lemma_extents_gc();
        }
        let mut cur = k;
        loop
            invariant
                self.a.inv(),
                self.b.inv(),
                av == self.a.extents(),
                bv == self.b.extents(),
                gc_list(av),
                gc_list(bv),
                bwd_key(cur) <= bwd_key(k),
                k is NegativeInfinity ==> cur is NegativeInfinity,
                !(k is NegativeInfinity) ==> forall|j: int|
                    0 <= j < av.len() && (#[trigger] av[j]).1 <= bwd_key(k) && (cur
                        is NegativeInfinity || av[j].1 > bwd_key(cur)) ==> !covered_by(bv, av[j]),
            decreases
                    (if cur is NegativeInfinity {
                        0int
                    } else {
                        last_end_leq(av, bwd_key(cur)) + 1
                    }),
        {
            if let Position::NegativeInfinity = cur {
                proof {
                    if !(k is NegativeInfinity) {
                        lemma_filter_tau_prime_none(av, covered_by_pred(bv), k);
                    }
                }
                return Extent(Position::NegativeInfinity, Position::NegativeInfinity);
            }
            let r0 = self.a.tau_prime(cur);
            let ghost i = last_end_leq(av, bwd_key(cur));
            proof {
                lemma_last_end_leq_char(av, bwd_key(cur));
            }
            if !r0.is_valid() {
                proof {
                    assert(i == -1);
                    lemma_filter_tau_prime_none(av, covered_by_pred(bv), k);
                }
                return Extent(Position::NegativeInfinity, Position::NegativeInfinity);
            }
            let (p0, q0) = r0.unwrap();
            proof {
                assert(i >= 0 && av[i] == (p0, q0));
            }
            let r1 = self.b.rho_prime(Position::Valid(p0));
            let ghost mi = last_start_leq(bv, p0);
            proof {
                lemma_last_start_leq_char(bv, p0);
            }
            if Position::Valid(q0).le(r1.1) {
                // the last haystack starting before p0 reaches past q0
                proof {
                    assert(mi >= 0 && bv[mi] == r1.spec_unwrap());
                    assert(covered_by(bv, av[i]));
                    lemma_filter_tau_prime_found(av, covered_by_pred(bv), k, i);
                }
                return r0;
            } else {
                let ghost oldcur = cur;
                cur = r1.1;
                proof {
                    assert forall|j: int|
                        0 <= j < av.len() && (#[trigger] av[j]).1 <= bwd_key(k) && (cur
                            is NegativeInfinity || av[j].1 > bwd_key(cur)) implies !covered_by(
                        bv,
                        av[j],
                    ) by {
                        if av[j].1 <= bwd_key(oldcur) {
                            assert(j <= i);
                            assert(av[j].0 <= p0);
                            if covered_by(bv, av[j]) {
                                let m = choose|m: int|
                                    0 <= m < bv.len() && bv[m].0 <= av[j].0 && av[j].1 <= bv[m].1;
                                assert(bv[m].0 <= p0);
                                assert(m <= mi);
                                assert(mi >= 0);
                                assert(bv[m].1 <= bv[mi].1);
                                assert(r1 == valid_extent(bv[mi]));
                                assert(false);
                            }
                        }
                    }
                    if !(cur is NegativeInfinity) {
                        let f2 = last_end_leq(av, bwd_key(cur));
                        lemma_last_end_leq_char(av, bwd_key(cur));
                        assert(av[i].1 > bwd_key(cur));
                        assert(f2 < i);
                    }
                }
            }
        }
    }

    fn rho(&self, k: Position) -> (r: Extent) {
        let ghost av = self.a.extents();
        let ghost bv = self.b.extents();
        let ghost fv = self.extents();
        proof {
            self.a.lemma_extents_gc();
            self.b.lemma_extents_gc();
        }
        if let Position::PositiveInfinity = k {
            return Extent(Position::PositiveInfinity, Position::PositiveInfinity);
        }
        let r0 = self.a.rho(k);
        let ghost ia = first_end_geq(av, fwd_key(k));
        proof {
            lemma_first_end_geq_char(av, fwd_key(k));
        }
        if !r0.is_valid() {
            // no extent of `a` ends at or after k, so none of the view does
            proof {
                lemma_filter_rho_none(av, covered_by_pred(bv), k);
            }
            return Extent(Position::PositiveInfinity, Position::PositiveInfinity);
        }
        let (p, _q) = r0.unwrap();
        proof {
            assert(ia < av.len() && av[ia] == (p, _q));
            lemma_filter_subset(av, covered_by_pred(bv));
            lemma_filter_gc(av, covered_by_pred(bv));
            assert forall|j: int| 0 <= j < fv.len() implies (((#[trigger] fv[j]).0 >= fwd_key(
                Position::Valid(p),
            )) <==> (fv[j].1 >= fwd_key(k))) by {
                let m = choose|m: int| 0 <= m < av.len() && av[m] == fv[j];
                assert(av.contains(fv[j]));
                if m >= ia {
                    assert(av[m].0 >= av[ia].0 && av[m].1 >= av[ia].1);
                } else {
                    assert(av[m].0 < av[ia].0 && av[m].1 < fwd_key(k));
                }
            }
            lemma_tau_rho_align(fv, Position::Valid(p), k);
        }
        self.tau(Position::Valid(p))
    }

    fn rho_prime(&self, k: Position) -> (r: Extent) {
        let ghost av = self.a.extents();
        let ghost bv = self.b.extents();
        let ghost fv = self.extents();
        proof {
            self.a.lemma_extents_gc();
            self.b.lemma_extents_gc();
        }
        if let Position::NegativeInfinity = k {
            return Extent(Position::NegativeInfinity, Position::NegativeInfinity);
        }
        let r0 = self.a.rho_prime(k);
        let ghost ia = last_start_leq(av, bwd_key(k));
        proof {
            lemma_last_start_leq_char(av, bwd_key(k));
        }
        if !r0.is_valid() {
            proof {
                crate::filtered::lemma_filter_rho_prime_none(av, covered_by_pred(bv), k);
            }
            return Extent(Position::NegativeInfinity, Position::NegativeInfinity);
        }
        let (_p, q) = r0.unwrap();
        proof {
            assert(ia >= 0 && av[ia] == (_p, q));
            lemma_filter_subset(av, covered_by_pred(bv));
            lemma_filter_gc(av, covered_by_pred(bv));
            assert forall|j: int| 0 <= j < fv.len() implies (((#[trigger] fv[j]).1 <= bwd_key(
                Position::Valid(q),
            )) <==> (fv[j].0 <= bwd_key(k))) by {
                let m = choose|m: int| 0 <= m < av.len() && av[m] == fv[j];
                assert(av.contains(fv[j]));
                if m <= ia {
                    assert(av[m].1 <= av[ia].1 && av[m].0 <= av[ia].0);
                } else {
                    assert(av[m].1 > av[ia].1 && av[m].0 > bwd_key(k));
                }
            }
            lemma_tau_prime_rho_prime_align(fv, Position::Valid(q), k);
        }
        self.tau_prime(Position::Valid(q))
    }
}

} // verus!
